use vstd::prelude::*;

verus! {

/// Failures of table building and of the Hangul codec.
#[derive(Debug, Clone, Copy, PartialEq, Eq, Structural)]
pub enum UcdError {
    /// A property value was empty.
    MalformedPropertyValue,
    /// The scalar value is not a precomposed Hangul syllable.
    InvalidSyllable,
    /// A computed integer is not a Unicode scalar value.
    UnrepresentableScalarValue,
}

} // verus!
