//! The property table: an ordered mapping from scalar values to property labels,
//! built from explicit data and widened by default ranges.
use vstd::prelude::*;

use crate::error::UcdError;
use crate::scalar::{char_from_scalar, is_scalar_value};

verus! {

/// Every code point of `[start, end]` that has no explicit value takes `value`.
#[derive(Debug)]
pub struct DefaultRange {
    pub start: u32,
    pub end: u32,
    pub value: String,
}

impl View for DefaultRange {
    type V = (u32, u32, Seq<char>);

    open spec fn view(&self) -> (u32, u32, Seq<char>) {
        (self.start, self.end, self.value@)
    }
}

/// Keys strictly increase along `e`.
pub open spec fn strictly_increasing(e: Seq<(u32, Seq<char>)>) -> bool {
    forall|i: int, j: int| 0 <= i < j < e.len() ==> #[trigger] e[i].0 < #[trigger] e[j].0
}

/// Some entry of `e` has key `u`.
pub open spec fn has_key(e: Seq<(u32, Seq<char>)>, u: u32) -> bool {
    exists|i: int| 0 <= i < e.len() && #[trigger] e[i].0 == u
}

/// `e` lists exactly the entries of `m`, each key a scalar value and each label non-empty.
pub open spec fn lists_map(e: Seq<(u32, Seq<char>)>, m: Map<u32, Seq<char>>) -> bool {
    &&& forall|i: int|
        0 <= i < e.len() ==> {
            &&& m.contains_key(#[trigger] e[i].0)
            &&& m[e[i].0] == e[i].1
            &&& e[i].1.len() > 0
            &&& is_scalar_value(e[i].0)
        }
    &&& forall|u: u32| #[trigger] m.contains_key(u) ==> has_key(e, u)
}

/// `m` with `value` added on every scalar value of `[start, end]` that has no entry.
pub open spec fn with_default(m: Map<u32, Seq<char>>, start: u32, end: u32, value: Seq<char>) -> Map<
    u32,
    Seq<char>,
> {
    Map::new(
        |u: u32| m.contains_key(u) || (start <= u <= end && is_scalar_value(u)),
        |u: u32|
            if m.contains_key(u) {
                m[u]
            } else {
                value
            },
    )
}

/// `m` with each of the default ranges `ds` added in turn.
pub open spec fn with_defaults(m: Map<u32, Seq<char>>, ds: Seq<(u32, u32, Seq<char>)>) -> Map<
    u32,
    Seq<char>,
>
    decreases ds.len(),
{
    if ds.len() == 0 {
        m
    } else {
        let d = ds.last();
        with_default(with_defaults(m, ds.drop_last()), d.0, d.1, d.2)
    }
}

/// Default ranges never add a surrogate: after any list of them, a surrogate
/// code point has an entry exactly when it had one before.
pub proof fn lemma_defaults_skip_surrogates(m: Map<u32, Seq<char>>, ds: Seq<(u32, u32, Seq<char>)>, u: u32)
    requires
        0xD800 <= u <= 0xDFFF,
    ensures
        with_defaults(m, ds).contains_key(u) == m.contains_key(u),
    decreases ds.len(),
{
    if ds.len() > 0 {
        lemma_defaults_skip_surrogates(m, ds.drop_last(), u);
    }
}

/// Explicit data wins over defaults: a code point that has a label keeps it,
/// whatever default ranges are applied.
pub proof fn lemma_explicit_wins(m: Map<u32, Seq<char>>, ds: Seq<(u32, u32, Seq<char>)>, u: u32)
    requires
        m.contains_key(u),
    ensures
        with_defaults(m, ds).contains_key(u),
        with_defaults(m, ds)[u] == m[u],
    decreases ds.len(),
{
    if ds.len() > 0 {
        lemma_explicit_wins(m, ds.drop_last(), u);
    }
}

/// One assigned code point with the property values read for it.
#[derive(Debug)]
pub struct UnicodeDataEntry {
    pub character: char,
    pub general_category: String,
    pub bidi_class: String,
}

/// Which property of a record a table holds.
#[derive(Debug, Clone, Copy, PartialEq, Eq, Structural)]
pub enum PropertyField {
    BidiClass,
    GeneralCategory,
}

/// The label that `field` selects in `e`.
pub open spec fn field_of(e: UnicodeDataEntry, field: PropertyField) -> Seq<char> {
    match field {
        PropertyField::BidiClass => e.bidi_class@,
        PropertyField::GeneralCategory => e.general_category@,
    }
}

/// The mapping that inserting the records in order gives: a later record of a
/// code point replaces an earlier one.
pub open spec fn records_map(data: Seq<UnicodeDataEntry>, field: PropertyField) -> Map<u32, Seq<char>>
    decreases data.len(),
{
    if data.len() == 0 {
        Map::empty()
    } else {
        let e = data.last();
        records_map(data.drop_last(), field).insert(e.character as u32, field_of(e, field))
    }
}

/// The views of a list of default ranges.
pub open spec fn default_views(ds: Seq<DefaultRange>) -> Seq<(u32, u32, Seq<char>)> {
    ds.map_values(|d: DefaultRange| d@)
}

/// An ordered mapping from scalar values to non-empty property labels.
pub struct PropertyTable {
    entries: Vec<(char, String)>,
    map: Ghost<Map<u32, Seq<char>>>,
}

impl View for PropertyTable {
    type V = Map<u32, Seq<char>>;

    closed spec fn view(&self) -> Map<u32, Seq<char>> {
        self.map@
    }
}

impl PropertyTable {
    /// The entries in increasing order of their keys.
    pub closed spec fn entries(&self) -> Seq<(u32, Seq<char>)> {
        Seq::new(self.entries@.len(), |i: int| (self.entries@[i].0 as u32, self.entries@[i].1@))
    }

    /// The table is well formed.
    pub open spec fn wf(&self) -> bool {
        &&& strictly_increasing(self.entries())
        &&& lists_map(self.entries(), self@)
    }

    /// An empty table.
    pub fn new() -> (t: PropertyTable)
        ensures
            t.wf(),
            t@ == Map::<u32, Seq<char>>::empty(),
            t.entries().len() == 0,
    {
        PropertyTable { entries: Vec::new(), map: Ghost(Map::empty()) }
    }

    /// Number of entries.
    pub fn len(&self) -> (n: usize)
        ensures
            n == self.entries().len(),
    {
        self.entries.len()
    }

    /// The key of entry `i`.
    pub fn key_at(&self, i: usize) -> (c: char)
        requires
            i < self.entries().len(),
        ensures
            c as u32 == self.entries()[i as int].0,
    {
        self.entries[i].0
    }

    /// The label of entry `i`.
    pub fn value_at(&self, i: usize) -> (v: &String)
        requires
            i < self.entries().len(),
        ensures
            v@ == self.entries()[i as int].1,
    {
        &self.entries[i].1
    }

    /// The first position whose key is not below `u`.
    fn lower_bound(&self, u: u32) -> (r: usize)
        requires
            self.wf(),
        ensures
            r <= self.entries().len(),
            forall|j: int| 0 <= j < r ==> #[trigger] self.entries()[j].0 < u,
            forall|j: int| r <= j < self.entries().len() ==> #[trigger] self.entries()[j].0 >= u,
    {
        let mut lo: usize = 0;
        let mut hi: usize = self.entries.len();
        while lo < hi
            invariant
                self.wf(),
                lo <= hi <= self.entries().len(),
                forall|j: int| 0 <= j < lo ==> #[trigger] self.entries()[j].0 < u,
                forall|j: int| hi <= j < self.entries().len() ==> #[trigger] self.entries()[j].0 >= u,
            decreases hi - lo,
        {
            let mid = lo + (hi - lo) / 2;
            if (self.entries[mid].0 as u32) < u {
                assert(forall|j: int| 0 <= j < mid ==> self.entries()[j].0 < self.entries()[mid as int].0);
                lo = mid + 1;
            } else {
                assert(forall|j: int| mid < j < self.entries().len() ==> self.entries()[mid as int].0 < self.entries()[j].0);
                hi = mid;
            }
        }
        lo
    }

    /// The label of `cp`, if the table has one.
    pub fn get(&self, cp: char) -> (r: Option<&str>)
        requires
            self.wf(),
        ensures
            r is Some <==> self@.contains_key(cp as u32),
            r matches Some(v) ==> v@ == self@[cp as u32],
    {
        let u = cp as u32;
        let pos = self.lower_bound(u);
        if pos < self.entries.len() && (self.entries[pos].0 as u32) == u {
            Some(self.entries[pos].1.as_str())
        } else {
            proof {
                if self@.contains_key(u) {
                    let i = choose|i: int| 0 <= i < self.entries().len() && #[trigger] self.entries()[i].0 == u;
                    if i > pos {
                        assert(self.entries()[pos as int].0 < self.entries()[i].0);
                    }
                }
            }
            None
        }
    }

    /// Sets the label of `cp` to `value`, replacing any label it had.
    pub fn insert(&mut self, cp: char, value: &str) -> (r: Result<(), UcdError>)
        requires
            old(self).wf(),
        ensures
            final(self).wf(),
            r is Err <==> value@.len() == 0,
            r is Err ==> r == Err::<(), UcdError>(UcdError::MalformedPropertyValue) && final(self)@ == old(self)@,
            r is Ok ==> final(self)@ == old(self)@.insert(cp as u32, value@),
    {
        if value.is_empty() {
            return Err(UcdError::MalformedPropertyValue);
        }
        let u = cp as u32;
        let pos = self.lower_bound(u);
        let v = value.to_owned();
        let ghost old_e = self.entries();
        let ghost old_m = self@;
        if pos < self.entries.len() && (self.entries[pos].0 as u32) == u {
            self.entries[pos] = (cp, v);
            proof {
                assert(self.entries() =~= old_e.update(pos as int, (u, value@)));
            }
        } else {
            self.entries.insert(pos, (cp, v));
            proof {
                assert(self.entries() =~= old_e.insert(pos as int, (u, value@)));
            }
        }
        self.map = Ghost(old_m.insert(u, value@));
        proof {
            let e = self.entries();
            let m = self@;
            assert forall|u2: u32| #[trigger] m.contains_key(u2) implies has_key(e, u2) by {
                if u2 == u {
                    assert(e[pos as int].0 == u);
                } else {
                    let i = choose|i: int| 0 <= i < old_e.len() && #[trigger] old_e[i].0 == u2;
                    if e.len() == old_e.len() {
                        assert(e[i].0 == u2);
                    } else if i < pos {
                        assert(e[i].0 == u2);
                    } else {
                        assert(e[i + 1].0 == u2);
                    }
                }
            }
            assert forall|i: int| 0 <= i < e.len() implies {
                &&& m.contains_key(#[trigger] e[i].0)
                &&& m[e[i].0] == e[i].1
                &&& e[i].1.len() > 0
                &&& is_scalar_value(e[i].0)
            } by {
                if i != pos {
                    let k = if e.len() == old_e.len() || i < pos { i } else { i - 1 };
                    assert(e[i] == old_e[k]);
                    if k > pos {
                        assert(old_e[pos as int].0 < old_e[k].0);
                    }
                    assert(e[i].0 != u);
                }
            }
            assert forall|i: int, j: int| 0 <= i < j < e.len() implies #[trigger] e[i].0 < #[trigger] e[j].0 by {
                if e.len() != old_e.len() {
                    if j < pos {
                    } else if i > pos {
                        assert(old_e[i - 1].0 < old_e[j - 1].0);
                    } else if i == pos {
                        assert(old_e[j - 1].0 >= u);
                        if j - 1 > pos {
                            assert(old_e[pos as int].0 < old_e[j - 1].0);
                        }
                    } else {
                        assert(old_e[i].0 < u);
                    }
                }
            }
        }
        Ok(())
    }
    /// Gives `range.value` to every scalar value of the range that has no label
    /// yet; labels already present stay, and surrogates are never added.
    pub fn apply_default_range(&mut self, range: &DefaultRange) -> (r: Result<(), UcdError>)
        requires
            old(self).wf(),
        ensures
            final(self).wf(),
            r is Err <==> range.value@.len() == 0,
            r is Err ==> r == Err::<(), UcdError>(UcdError::MalformedPropertyValue) && final(self)@ == old(self)@,
            r is Ok ==> final(self)@ == with_default(old(self)@, range.start, range.end, range.value@),
            forall|u: u32| 0xD800 <= u <= 0xDFFF ==> !#[trigger] final(self)@.contains_key(u),
    {
        if range.value.as_str().is_empty() {
            proof {
                assert forall|u: u32| 0xD800 <= u <= 0xDFFF implies !#[trigger] self@.contains_key(u) by {
                    if self@.contains_key(u) {
                        let i = choose|i: int| 0 <= i < self.entries().len() && #[trigger] self.entries()[i].0 == u;
                    }
                }
            }
            return Err(UcdError::MalformedPropertyValue);
        }
        let ghost old_e = self.entries();
        let ghost old_m = self@;
        let ghost target = with_default(old_m, range.start, range.end, range.value@);
        let n = self.entries.len();
        let hi: u64 = if range.end > 0x10FFFF { 0x10FFFF } else { range.end as u64 };
        let mut u: u64 = range.start as u64;
        let mut i: usize = 0;
        let mut out: Vec<(char, String)> = Vec::new();
        let ghost mut oe: Seq<(u32, Seq<char>)> = Seq::empty();
        while i < n || u <= hi
            invariant
                n == self.entries.len(),
                old_e == self.entries(),
                old_m == self@,
                self.wf(),
                target == with_default(old_m, range.start, range.end, range.value@),
                range.value@.len() > 0,
                hi <= 0x10FFFF,
                hi <= range.end,
                range.start <= u,
                i <= n,
                oe == Seq::new(out@.len(), |k: int| (out@[k].0 as u32, out@[k].1@)),
                strictly_increasing(oe),
                forall|k: int| 0 <= k < oe.len() ==> {
                    &&& target.contains_key(#[trigger] oe[k].0)
                    &&& target[oe[k].0] == oe[k].1
                    &&& oe[k].1.len() > 0
                    &&& is_scalar_value(oe[k].0)
                    &&& oe[k].0 < u || u > hi
                    &&& i < n ==> oe[k].0 < old_e[i as int].0
                },
                forall|j: int| 0 <= j < i ==> #[trigger] old_e[j].0 < u || u > hi,
                forall|j: int| 0 <= j < i ==> has_key(oe, #[trigger] old_e[j].0),
                forall|d: u32| range.start <= d < u && d <= hi && is_scalar_value(d) && !old_m.contains_key(d)
                    ==> #[trigger] has_key(oe, d),
            decreases (n - i) + (if u <= hi { hi + 1 - u } else { 0 }),
        {
            let ghost prev_oe = oe;
            if i < n && (u > hi || (self.entries[i].0 as u32 as u64) < u) {
                out.push((self.entries[i].0, self.entries[i].1.clone()));
                proof {
                    oe = oe.push(old_e[i as int]);
                    assert(oe =~= Seq::new(out@.len(), |k: int| (out@[k].0 as u32, out@[k].1@)));
                    if i + 1 < n {
                        assert(old_e[i as int].0 < old_e[i + 1].0);
                    }
                    assert(oe[prev_oe.len() as int] == old_e[i as int]);
                    assert forall|j: int| 0 <= j < i + 1 implies has_key(oe, #[trigger] old_e[j].0) by {
                        if j < i {
                            assert(has_key(prev_oe, old_e[j].0));
                            let k = choose|k: int| 0 <= k < prev_oe.len() && #[trigger] prev_oe[k].0 == old_e[j].0;
                            assert(oe[k] == prev_oe[k]);
                        } else {
                            assert(oe[prev_oe.len() as int].0 == old_e[j].0);
                        }
                    }
                    assert forall|d: u32| range.start <= d < u && d <= hi && is_scalar_value(d) && !old_m.contains_key(d)
                        implies #[trigger] has_key(oe, d) by {
                        assert(has_key(prev_oe, d));
                        let k = choose|k: int| 0 <= k < prev_oe.len() && #[trigger] prev_oe[k].0 == d;
                        assert(oe[k] == prev_oe[k]);
                    }
                }
                i = i + 1;
            } else {
                assert(u <= hi);
                let uu = u as u32;
                if i < n && (self.entries[i].0 as u32) == uu {
                    out.push((self.entries[i].0, self.entries[i].1.clone()));
                    proof {
                        oe = oe.push(old_e[i as int]);
                        assert(oe =~= Seq::new(out@.len(), |k: int| (out@[k].0 as u32, out@[k].1@)));
                        if i + 1 < n {
                            assert(old_e[i as int].0 < old_e[i + 1].0);
                        }
                        assert(oe[prev_oe.len() as int] == old_e[i as int]);
                        assert forall|j: int| 0 <= j < i + 1 implies has_key(oe, #[trigger] old_e[j].0) by {
                            if j < i {
                                assert(has_key(prev_oe, old_e[j].0));
                                let k = choose|k: int| 0 <= k < prev_oe.len() && #[trigger] prev_oe[k].0 == old_e[j].0;
                                assert(oe[k] == prev_oe[k]);
                            } else {
                                assert(oe[prev_oe.len() as int].0 == old_e[j].0);
                            }
                        }
                        assert forall|d: u32| range.start <= d < u + 1 && d <= hi && is_scalar_value(d) && !old_m.contains_key(d)
                            implies #[trigger] has_key(oe, d) by {
                            assert(has_key(prev_oe, d));
                            let k = choose|k: int| 0 <= k < prev_oe.len() && #[trigger] prev_oe[k].0 == d;
                            assert(oe[k] == prev_oe[k]);
                        }
                    }
                    i = i + 1;
                } else {
                    proof {
                        if old_m.contains_key(uu) {
                            let j = choose|j: int| 0 <= j < old_e.len() && #[trigger] old_e[j].0 == uu;
                            if j > i {
                                assert(old_e[i as int].0 < old_e[j].0);
                            }
                        }
                    }
                    match char_from_scalar(uu) {
                        Some(c) => {
                            out.push((c, range.value.clone()));
                            proof {
                                oe = oe.push((uu, range.value@));
                                assert(oe =~= Seq::new(out@.len(), |k: int| (out@[k].0 as u32, out@[k].1@)));
                                assert(oe[prev_oe.len() as int] == (uu, range.value@));
                                assert forall|j: int| 0 <= j < i implies has_key(oe, #[trigger] old_e[j].0) by {
                                    assert(has_key(prev_oe, old_e[j].0));
                                    let k = choose|k: int| 0 <= k < prev_oe.len() && #[trigger] prev_oe[k].0 == old_e[j].0;
                                    assert(oe[k] == prev_oe[k]);
                                }
                                assert forall|d: u32| range.start <= d < u + 1 && d <= hi && is_scalar_value(d) && !old_m.contains_key(d)
                                    implies #[trigger] has_key(oe, d) by {
                                    if d < u {
                                        assert(has_key(prev_oe, d));
                                        let k = choose|k: int| 0 <= k < prev_oe.len() && #[trigger] prev_oe[k].0 == d;
                                        assert(oe[k] == prev_oe[k]);
                                    } else {
                                        assert(oe[prev_oe.len() as int].0 == d);
                                    }
                                }
                            }
                        },
                        None => {
                            assert(!is_scalar_value(uu));
                        },
                    }
                }
                u = u + 1;
            }
        }
        proof {
            assert(i == n && u > hi);
            assert forall|x: u32| #[trigger] target.contains_key(x) implies has_key(oe, x) by {
                if old_m.contains_key(x) {
                    let j = choose|j: int| 0 <= j < old_e.len() && #[trigger] old_e[j].0 == x;
                } else {
                    assert(range.start <= x <= range.end && is_scalar_value(x));
                }
            }
            assert forall|x: u32| 0xD800 <= x <= 0xDFFF implies !#[trigger] target.contains_key(x) by {
                if old_m.contains_key(x) {
                    let j = choose|j: int| 0 <= j < old_e.len() && #[trigger] old_e[j].0 == x;
                }
            }
        }
        self.entries = out;
        self.map = Ghost(target);
        proof {
            assert(self.entries() =~= oe);
        }
        Ok(())
    }
    /// Applies each default range in turn. Fails, leaving the table as it was,
    /// when one of them has an empty label.
    pub fn apply_defaults(&mut self, ranges: &[DefaultRange]) -> (r: Result<(), UcdError>)
        requires
            old(self).wf(),
        ensures
            final(self).wf(),
            r is Err <==> exists|i: int| 0 <= i < ranges@.len() && #[trigger] ranges@[i].value@.len() == 0,
            r is Err ==> r == Err::<(), UcdError>(UcdError::MalformedPropertyValue) && final(self)@ == old(self)@,
            r is Ok ==> final(self)@ == with_defaults(old(self)@, default_views(ranges@)),
    {
        let mut k: usize = 0;
        while k < ranges.len()
            invariant
                self.wf(),
                self@ == old(self)@,
                k <= ranges@.len(),
                forall|j: int| 0 <= j < k ==> #[trigger] ranges@[j].value@.len() > 0,
            decreases ranges@.len() - k,
        {
            if ranges[k].value.as_str().is_empty() {
                return Err(UcdError::MalformedPropertyValue);
            }
            k = k + 1;
        }
        let ghost m0 = self@;
        let mut k: usize = 0;
        while k < ranges.len()
            invariant
                self.wf(),
                k <= ranges@.len(),
                forall|j: int| 0 <= j < ranges@.len() ==> #[trigger] ranges@[j].value@.len() > 0,
                self@ == with_defaults(m0, default_views(ranges@.take(k as int))),
            decreases ranges@.len() - k,
        {
            let res = self.apply_default_range(&ranges[k]);
            proof {
                let ds = default_views(ranges@.take(k + 1));
                assert(ds.drop_last() =~= default_views(ranges@.take(k as int)));
                assert(ds.last() == ranges@[k as int]@);
            }
            k = k + 1;
        }
        proof {
            assert(ranges@.take(k as int) =~= ranges@);
        }
        Ok(())
    }

    /// The table that holds `field` of each record, inserted in order; the
    /// records need not be sorted, and a later record of a code point replaces
    /// an earlier one. Fails when one of those labels is empty.
    pub fn from_records(data: &[UnicodeDataEntry], field: PropertyField) -> (r: Result<PropertyTable, UcdError>)
        ensures
            r is Err <==> exists|i: int| 0 <= i < data@.len() && #[trigger] field_of(data@[i], field).len() == 0,
            r is Err ==> r == Err::<PropertyTable, UcdError>(UcdError::MalformedPropertyValue),
            r matches Ok(t) ==> t.wf() && t@ == records_map(data@, field),
    {
        let mut t = PropertyTable::new();
        let mut i: usize = 0;
        while i < data.len()
            invariant
                t.wf(),
                i <= data@.len(),
                forall|j: int| 0 <= j < i ==> #[trigger] field_of(data@[j], field).len() > 0,
                t@ == records_map(data@.take(i as int), field),
            decreases data@.len() - i,
        {
            let e = &data[i];
            let value = match field {
                PropertyField::BidiClass => e.bidi_class.as_str(),
                PropertyField::GeneralCategory => e.general_category.as_str(),
            };
            assert(value@ == field_of(data@[i as int], field));
            let res = t.insert(e.character, value);
            if res.is_err() {
                return Err(UcdError::MalformedPropertyValue);
            }
            proof {
                assert(data@.take(i + 1).drop_last() =~= data@.take(i as int));
            }
            i = i + 1;
        }
        proof {
            assert(data@.take(i as int) =~= data@);
        }
        Ok(t)
    }
}

} // verus!
