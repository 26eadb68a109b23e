//! Conjoining Jamo composition to, and decomposition from, Hangul syllables.
//!
//! The arithmetic follows section 3.12 of the Unicode standard
//! (Conjoining Jamo Behavior).
use vstd::prelude::*;

use crate::error::UcdError;
use crate::scalar::char_from_scalar;

verus! {

pub const S_BASE: u32 = 0xAC00;
pub const L_BASE: u32 = 0x1100;
pub const V_BASE: u32 = 0x1161;
pub const T_BASE: u32 = 0x11A7;
pub const L_COUNT: u32 = 19;
pub const V_COUNT: u32 = 21;
pub const T_COUNT: u32 = 28;
pub const N_COUNT: u32 = V_COUNT * T_COUNT;
pub const S_COUNT: u32 = L_COUNT * N_COUNT;

/// `s` is a precomposed Hangul syllable.
pub open spec fn is_syllable(s: u32) -> bool {
    S_BASE <= s < S_BASE + S_COUNT
}

/// `s` is a leading consonant (choseong) Jamo.
pub open spec fn is_leading_jamo(s: u32) -> bool {
    L_BASE <= s < L_BASE + L_COUNT
}

/// `s` is a vowel (jungseong) Jamo.
pub open spec fn is_vowel_jamo(s: u32) -> bool {
    V_BASE <= s < V_BASE + V_COUNT
}

/// `s` lies in the trailing range, whose first value stands for "no trailing consonant".
pub open spec fn is_trailing_jamo(s: u32) -> bool {
    T_BASE <= s < T_BASE + T_COUNT
}

/// `s` is a syllable with an empty trailing slot (an LV syllable).
pub open spec fn is_lv_syllable(s: u32) -> bool {
    S_BASE <= s <= S_BASE + S_COUNT - T_COUNT && (s - S_BASE) % (T_COUNT as int) == 0
}

/// The Jamo of syllable `s`: leading, vowel and, where the trailing index is
/// not zero, trailing.
pub open spec fn decompose_spec(s: u32) -> Seq<u32> {
    let si = s - S_BASE;
    let l = L_BASE + si / (N_COUNT as int);
    let v = V_BASE + (si % (N_COUNT as int)) / (T_COUNT as int);
    let ti = si % (T_COUNT as int);
    if ti != 0 {
        seq![l as u32, v as u32, (T_BASE + ti) as u32]
    } else {
        seq![l as u32, v as u32]
    }
}

/// The composition of `a` and `b`, if any.
pub open spec fn compose_spec(a: u32, b: u32) -> Option<u32> {
    if is_leading_jamo(a) && is_vowel_jamo(b) {
        Some((S_BASE + (a - L_BASE) * N_COUNT + (b - V_BASE) * T_COUNT) as u32)
    } else if is_lv_syllable(a) && is_trailing_jamo(b) {
        Some((a + (b - T_BASE)) as u32)
    } else {
        None
    }
}

/// Decompose a precomposed Hangul syllable into two or three Jamo.
pub fn decompose(s: char) -> (r: Result<Vec<char>, UcdError>)
    ensures
        r is Ok <==> is_syllable(s as u32),
        r is Err ==> r == Err::<Vec<char>, UcdError>(UcdError::InvalidSyllable),
        r matches Ok(v) ==> v@.map_values(|c: char| c as u32) == decompose_spec(s as u32),
{
    let sv = s as u32;
    if sv < S_BASE || sv >= S_BASE + S_COUNT {
        return Err(UcdError::InvalidSyllable);
    }
    let si = sv - S_BASE;
    let li = si / N_COUNT;
    let vi = (si % N_COUNT) / T_COUNT;
    let ti = si % T_COUNT;
    assert(li < L_COUNT) by (nonlinear_arith)
        requires si < S_COUNT, li == si / N_COUNT;
    let mut out: Vec<char> = Vec::new();
    match char_from_scalar(L_BASE + li) {
        Some(c) => out.push(c),
        None => return Err(UcdError::UnrepresentableScalarValue),
    }
    match char_from_scalar(V_BASE + vi) {
        Some(c) => out.push(c),
        None => return Err(UcdError::UnrepresentableScalarValue),
    }
    if ti > 0 {
        match char_from_scalar(T_BASE + ti) {
            Some(c) => out.push(c),
            None => return Err(UcdError::UnrepresentableScalarValue),
        }
    }
    assert(out@.map_values(|c: char| c as u32) =~= decompose_spec(sv));
    Ok(out)
}

/// Compose a pair of Hangul Jamo, or an LV syllable and a trailing Jamo.
pub fn compose(a: char, b: char) -> (r: Option<char>)
    ensures
        r is Some <==> compose_spec(a as u32, b as u32) is Some,
        r matches Some(c) ==> Some(c as u32) == compose_spec(a as u32, b as u32),
{
    let l = a as u32;
    let v = b as u32;
    if L_BASE <= l && l < L_BASE + L_COUNT && V_BASE <= v && v < V_BASE + V_COUNT {
        let r = S_BASE + (l - L_BASE) * N_COUNT + (v - V_BASE) * T_COUNT;
        return char_from_scalar(r);
    }
    if S_BASE <= l && l <= S_BASE + S_COUNT - T_COUNT && T_BASE <= v && v < T_BASE + T_COUNT && (l
        - S_BASE) % T_COUNT == 0 {
        let r = l + (v - T_BASE);
        return char_from_scalar(r);
    }
    None
}

/// Decomposing any syllable and composing its Jamo again, leading with vowel
/// first and then that result with the trailing Jamo where there is one, gives
/// back the syllable.
pub proof fn lemma_round_trip(si: u32)
    requires
        si < S_COUNT,
    ensures
        ({
            let s = (S_BASE + si) as u32;
            let d = decompose_spec(s);
            let lv = compose_spec(d[0], d[1]);
            &&& lv is Some
            &&& d.len() == 2 ==> lv == Some(s)
            &&& d.len() == 3 ==> compose_spec(lv.unwrap(), d[2]) == Some(s)
        }),
{
    let s = (S_BASE + si) as u32;
    let li = si / N_COUNT;
    let vi = (si % N_COUNT) / T_COUNT;
    let ti = si % T_COUNT;
    assert(si == li * N_COUNT + vi * T_COUNT + ti && li < L_COUNT && vi < V_COUNT && ti < T_COUNT)
        by (nonlinear_arith)
        requires
            si < S_COUNT,
            li == si / N_COUNT,
            vi == (si % N_COUNT) / T_COUNT,
            ti == si % T_COUNT,
            N_COUNT == 588,
            T_COUNT == 28,
            S_COUNT == 11172,
    ;
    let lv = S_BASE + li * N_COUNT + vi * T_COUNT;
    assert((lv - S_BASE) % (T_COUNT as int) == 0 && lv <= S_BASE + S_COUNT - T_COUNT)
        by (nonlinear_arith)
        requires
            lv == S_BASE + li * N_COUNT + vi * T_COUNT,
            li < L_COUNT,
            vi < V_COUNT,
            N_COUNT == 588,
            T_COUNT == 28,
            S_COUNT == 11172,
            S_BASE == 0xAC00,
    ;
}

/// Nothing composes with a first scalar value that is neither a leading Jamo
/// nor a syllable with an empty trailing slot.
pub proof fn lemma_no_composition(a: u32, b: u32)
    requires
        !is_leading_jamo(a),
        !is_lv_syllable(a),
    ensures
        compose_spec(a, b) is None,
{
}

} // verus!
