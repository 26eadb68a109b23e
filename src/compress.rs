//! Compression of a property table into maximal ranges of equal labels.
use vstd::prelude::*;

use crate::table::{has_key, lists_map, strictly_increasing, PropertyTable};

verus! {

/// An inclusive range of code points that share one label.
#[derive(Debug)]
pub struct CompressedRange {
    pub start: char,
    pub end: char,
    pub value: String,
}

impl View for CompressedRange {
    type V = (u32, u32, Seq<char>);

    open spec fn view(&self) -> (u32, u32, Seq<char>) {
        (self.start as u32, self.end as u32, self.value@)
    }
}

/// The views of a list of ranges.
pub open spec fn range_views(rs: Seq<CompressedRange>) -> Seq<(u32, u32, Seq<char>)> {
    rs.map_values(|r: CompressedRange| r@)
}

/// The ranges that one left-to-right scan of `e` gives: an entry extends the
/// last range when its key follows that range's end and its label equals the
/// range's label; otherwise it opens a range of its own.
pub open spec fn compress_entries(e: Seq<(u32, Seq<char>)>) -> Seq<(u32, u32, Seq<char>)>
    decreases e.len(),
{
    if e.len() == 0 {
        Seq::empty()
    } else {
        let prev = compress_entries(e.drop_last());
        let (cp, v) = e.last();
        if prev.len() > 0 && prev.last().1 + 1 == cp && prev.last().2 == v {
            prev.update(prev.len() - 1, (prev.last().0, cp, v))
        } else {
            prev.push((cp, cp, v))
        }
    }
}

/// The entries of one range, one per code point from `start` to `end`.
pub open spec fn expand_range(start: u32, end: u32, v: Seq<char>) -> Seq<(u32, Seq<char>)>
    decreases end - start,
{
    if end < start {
        Seq::empty()
    } else if end == start {
        seq![(start, v)]
    } else {
        expand_range(start, (end - 1) as u32, v).push((end, v))
    }
}

/// The entries of all ranges, in order.
pub open spec fn expand_ranges(rs: Seq<(u32, u32, Seq<char>)>) -> Seq<(u32, Seq<char>)>
    decreases rs.len(),
{
    if rs.len() == 0 {
        Seq::empty()
    } else {
        let r = rs.last();
        expand_ranges(rs.drop_last()) + expand_range(r.0, r.1, r.2)
    }
}

/// `u` lies in range `r`.
pub open spec fn in_range(r: (u32, u32, Seq<char>), u: u32) -> bool {
    r.0 <= u <= r.1
}

/// Some range of `rs` holds `u`.
pub open spec fn covered(rs: Seq<(u32, u32, Seq<char>)>, u: u32) -> bool {
    exists|k: int| 0 <= k < rs.len() && #[trigger] in_range(rs[k], u)
}

/// Each range is non-empty, and the ranges are ascending and pairwise disjoint.
pub open spec fn sorted_disjoint(rs: Seq<(u32, u32, Seq<char>)>) -> bool {
    &&& forall|k: int| 0 <= k < rs.len() ==> #[trigger] rs[k].0 <= rs[k].1
    &&& forall|i: int, j: int| 0 <= i < j < rs.len() ==> #[trigger] rs[i].1 < #[trigger] rs[j].0
}

/// No two neighbouring ranges that touch share a label.
pub open spec fn maximal(rs: Seq<(u32, u32, Seq<char>)>) -> bool {
    forall|k: int|
        0 <= k < rs.len() - 1 && #[trigger] rs[k].1 + 1 == rs[k + 1].0 ==> rs[k].2 != rs[k + 1].2
}

/// The ranges hold exactly the keys of `m`, each with its label.
pub open spec fn covers_exactly(rs: Seq<(u32, u32, Seq<char>)>, m: Map<u32, Seq<char>>) -> bool {
    &&& forall|u: u32| #[trigger] m.contains_key(u) <==> covered(rs, u)
    &&& forall|k: int, u: u32|
        0 <= k < rs.len() && #[trigger] in_range(rs[k], u) ==> m.contains_key(u) && m[u] == rs[k].2
}

/// Some entry of `e` maps `u` to `v`.
spec fn has_entry(e: Seq<(u32, Seq<char>)>, u: u32, v: Seq<char>) -> bool {
    exists|i: int| 0 <= i < e.len() && #[trigger] e[i] == (u, v)
}

proof fn lemma_compress_shape(e: Seq<(u32, Seq<char>)>)
    requires
        strictly_increasing(e),
    ensures
        ({
            let c = compress_entries(e);
            &&& sorted_disjoint(c)
            &&& maximal(c)
            &&& e.len() == 0 <==> c.len() == 0
            &&& e.len() > 0 ==> c.last().1 == e.last().0
            &&& forall|k: int, u: u32|
                0 <= k < c.len() && #[trigger] in_range(c[k], u) ==> has_entry(e, u, c[k].2)
            &&& forall|i: int| 0 <= i < e.len() ==> covered(c, #[trigger] e[i].0)
        }),
    decreases e.len(),
{
    if e.len() > 0 {
        let ep = e.drop_last();
        assert(strictly_increasing(ep));
        lemma_compress_shape(ep);
        let prev = compress_entries(ep);
        let c = compress_entries(e);
        let (cp, v) = e.last();
        let last = e.len() - 1;
        assert forall|i: int| 0 <= i < ep.len() implies #[trigger] ep[i].0 < cp by {
            assert(e[i].0 < e[last].0);
        }
        if prev.len() > 0 && prev.last().1 + 1 == cp && prev.last().2 == v {
            let l = prev.len() - 1;
            assert forall|k: int, u: u32| 0 <= k < c.len() && #[trigger] in_range(c[k], u) implies has_entry(e, u, c[k].2) by {
                if k == l && u == cp {
                    assert(e[last] == (u, c[k].2));
                } else {
                    assert(in_range(prev[k], u));
                    assert(has_entry(ep, u, prev[k].2));
                    let i = choose|i: int| 0 <= i < ep.len() && #[trigger] ep[i] == (u, prev[k].2);
                    assert(e[i] == ep[i]);
                }
            }
            assert forall|i: int| 0 <= i < e.len() implies covered(c, #[trigger] e[i].0) by {
                if i == last {
                    assert(in_range(c[l], cp));
                } else {
                    assert(e[i] == ep[i]);
                    assert(covered(prev, ep[i].0));
                    let k = choose|k: int| 0 <= k < prev.len() && in_range(#[trigger] prev[k], ep[i].0);
                    assert(in_range(c[k], e[i].0));
                }
            }
        } else {
            let l = prev.len() as int;
            if prev.len() > 0 {
                let p = (prev.len() - 1) as int;
                assert(has_entry(ep, prev[p].1, prev[p].2)) by {
                    assert(in_range(prev[p], prev[p].1));
                }
                let i = choose|i: int| 0 <= i < ep.len() && #[trigger] ep[i] == (prev[p].1, prev[p].2);
                assert(ep[i].0 < cp);
                assert forall|k: int| 0 <= k < prev.len() implies #[trigger] prev[k].1 < cp by {
                    if k < p {
                        assert(prev[k].1 < prev[p].0);
                    }
                }
            }
            assert forall|k: int, u: u32| 0 <= k < c.len() && #[trigger] in_range(c[k], u) implies has_entry(e, u, c[k].2) by {
                if k == l {
                    assert(e[last] == (u, c[k].2));
                } else {
                    assert(in_range(prev[k], u));
                    assert(has_entry(ep, u, prev[k].2));
                    let i = choose|i: int| 0 <= i < ep.len() && #[trigger] ep[i] == (u, prev[k].2);
                    assert(e[i] == ep[i]);
                }
            }
            assert forall|i: int| 0 <= i < e.len() implies covered(c, #[trigger] e[i].0) by {
                if i == last {
                    assert(in_range(c[l], cp));
                } else {
                    assert(e[i] == ep[i]);
                    assert(covered(prev, ep[i].0));
                    let k = choose|k: int| 0 <= k < prev.len() && in_range(#[trigger] prev[k], ep[i].0);
                    assert(in_range(c[k], e[i].0));
                }
            }
        }
    }
}

/// The ranges of a well-formed table are ascending, pairwise disjoint and
/// maximal, and together they hold exactly the table's code points, each with
/// its label.
pub proof fn lemma_ranges_partition_table(t: &PropertyTable)
    requires
        t.wf(),
    ensures
        sorted_disjoint(compress_entries(t.entries())),
        maximal(compress_entries(t.entries())),
        covers_exactly(compress_entries(t.entries()), t@),
{
    let e = t.entries();
    let m = t@;
    let c = compress_entries(e);
    lemma_compress_shape(e);
    assert forall|u: u32| #[trigger] m.contains_key(u) <==> covered(c, u) by {
        if m.contains_key(u) {
            assert(has_key(e, u));
            let i = choose|i: int| 0 <= i < e.len() && #[trigger] e[i].0 == u;
            assert(covered(c, e[i].0));
        }
        if covered(c, u) {
            let k = choose|k: int| 0 <= k < c.len() && #[trigger] in_range(c[k], u);
            assert(has_entry(e, u, c[k].2));
            let i = choose|i: int| 0 <= i < e.len() && #[trigger] e[i] == (u, c[k].2);
            assert(m.contains_key(e[i].0));
        }
    }
    assert forall|k: int, u: u32| 0 <= k < c.len() && #[trigger] in_range(c[k], u) implies m.contains_key(u) && m[u] == c[k].2 by {
        assert(has_entry(e, u, c[k].2));
        let i = choose|i: int| 0 <= i < e.len() && #[trigger] e[i] == (u, c[k].2);
        assert(m.contains_key(e[i].0));
    }
}

/// Expanding the ranges of any entry list back into entries gives that list.
pub proof fn lemma_expand_compress(e: Seq<(u32, Seq<char>)>)
    ensures
        expand_ranges(compress_entries(e)) == e,
        forall|k: int| 0 <= k < compress_entries(e).len() ==> #[trigger] compress_entries(e)[k].0 <= compress_entries(e)[k].1,
    decreases e.len(),
{
    if e.len() > 0 {
        let ep = e.drop_last();
        lemma_expand_compress(ep);
        let prev = compress_entries(ep);
        let c = compress_entries(e);
        let (cp, v) = e.last();
        if prev.len() > 0 && prev.last().1 + 1 == cp && prev.last().2 == v {
            let r = prev.last();
            assert(c.drop_last() =~= prev.drop_last());
            assert(r.0 <= r.1);
            assert(expand_range(r.0, cp, v) == expand_range(r.0, r.1, v).push((cp, v)));
            assert(expand_ranges(prev) == expand_ranges(prev.drop_last()) + expand_range(r.0, r.1, v));
            assert(c.last() == (r.0, cp, v));
            assert(expand_ranges(c) == expand_ranges(prev.drop_last()) + expand_range(r.0, cp, v));
            assert(e =~= ep.push((cp, v)));
            assert(expand_ranges(c) =~= e);
        } else {
            assert(c.drop_last() =~= prev);
            assert(c.last() == (cp, cp, v));
            assert(expand_range(cp, cp, v) == seq![(cp, v)]);
            assert(e =~= ep.push((cp, v)));
            assert(expand_ranges(c) =~= e);
        }
    }
}

/// Compressing the entries that a table's ranges expand to gives the same
/// ranges again.
pub proof fn lemma_compress_idempotent(t: &PropertyTable)
    ensures
        compress_entries(expand_ranges(compress_entries(t.entries()))) == compress_entries(t.entries()),
{
    lemma_expand_compress(t.entries());
}

/// The maximal ranges of `table`, in ascending order.
pub fn compress(table: &PropertyTable) -> (r: Vec<CompressedRange>)
    requires
        table.wf(),
    ensures
        range_views(r@) == compress_entries(table.entries()),
        sorted_disjoint(range_views(r@)),
        maximal(range_views(r@)),
        covers_exactly(range_views(r@), table@),
{
    let ghost e = table.entries();
    let n = table.len();
    let mut out: Vec<CompressedRange> = Vec::new();
    if n == 0 {
        proof {
            assert(range_views(out@) =~= compress_entries(e));
            lemma_ranges_partition_table(table);
        }
        return out;
    }
    let mut start = table.key_at(0);
    let mut end = start;
    let mut value = table.value_at(0).clone();
    proof {
        let e1 = e.take(1);
        assert(e1.drop_last() =~= Seq::<(u32, Seq<char>)>::empty());
        assert(compress_entries(e1.drop_last()) =~= Seq::empty());
        assert(e1.last() == e[0]);
        assert(range_views(out@).push((start as u32, end as u32, value@)) =~= compress_entries(e1));
    }
    let mut i: usize = 1;
    while i < n
        invariant
            e == table.entries(),
            n == e.len(),
            1 <= i <= n,
            range_views(out@).push((start as u32, end as u32, value@)) == compress_entries(e.take(i as int)),
        decreases n - i,
    {
        let cp = table.key_at(i);
        let v = table.value_at(i);
        let ghost prev = compress_entries(e.take(i as int));
        proof {
            assert(e.take(i + 1).drop_last() =~= e.take(i as int));
            assert(e.take(i + 1).last() == e[i as int]);
        }
        if (cp as u32) == (end as u32) + 1 && *v == value {
            end = cp;
            proof {
                assert(range_views(out@).push((start as u32, end as u32, value@)) =~= prev.update(prev.len() - 1, (prev.last().0, cp as u32, v@)));
            }
        } else {
            let ghost old_out = out@;
            out.push(CompressedRange { start, end, value });
            start = cp;
            end = cp;
            value = v.clone();
            proof {
                assert(range_views(out@) =~= prev);
            }
        }
        i = i + 1;
    }
    let ghost old_out = out@;
    out.push(CompressedRange { start, end, value });
    proof {
        assert(e.take(n as int) =~= e);
        assert(range_views(out@) =~= range_views(old_out).push((start as u32, end as u32, value@)));
        lemma_ranges_partition_table(table);
    }
    out
}

} // verus!
