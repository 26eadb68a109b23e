//! Reading a range table back from its textual form.
use vstd::prelude::*;

use vstd::std_specs::iter::IteratorSpec;

use crate::compress::{range_views, CompressedRange};
use crate::emit::{hex_digits, hex_of, range_line, range_lines, table_text};
use crate::scalar::{char_from_scalar, is_scalar_value};

verus! {

broadcast use vstd::string::group_string_axioms;

/// `c` is an upper-case hexadecimal digit.
pub open spec fn is_hex_char(c: char) -> bool {
    (48 <= c as u32 <= 57) || (65 <= c as u32 <= 70)
}

/// The value of the hexadecimal digit `c`.
pub open spec fn hex_value(c: char) -> nat {
    if c as u32 <= 57 {
        (c as u32 - 48) as nat
    } else {
        (c as u32 - 55) as nat
    }
}

/// The value of a string of hexadecimal digits.
pub open spec fn hex_seq_value(s: Seq<char>) -> nat
    decreases s.len(),
{
    if s.len() == 0 {
        0
    } else {
        hex_seq_value(s.drop_last()) * 16 + hex_value(s.last())
    }
}

proof fn lemma_hex_digit(d: nat)
    requires
        d < 16,
    ensures
        is_hex_char(hex_digits()[d as int]),
        hex_value(hex_digits()[d as int]) == d,
{
    if d == 0 {
    } else if d == 1 {
    } else if d == 2 {
    } else if d == 3 {
    } else if d == 4 {
    } else if d == 5 {
    } else if d == 6 {
    } else if d == 7 {
    } else if d == 8 {
    } else if d == 9 {
    } else if d == 10 {
    } else if d == 11 {
    } else if d == 12 {
    } else if d == 13 {
    } else if d == 14 {
    } else {
    }
}

/// The digits of `hex_of(n)`: at least one, all hexadecimal, and of value `n`.
proof fn lemma_hex_of(n: nat)
    ensures
        hex_of(n).len() >= 1,
        forall|i: int| 0 <= i < hex_of(n).len() ==> #[trigger] is_hex_char(hex_of(n)[i]),
        hex_seq_value(hex_of(n)) == n,
    decreases n,
{
    if n < 16 {
        lemma_hex_digit(n);
        assert(hex_of(n).drop_last() =~= Seq::<char>::empty());
        assert(hex_seq_value(hex_of(n).drop_last()) == 0);
    } else {
        lemma_hex_of(n / 16);
        lemma_hex_digit(n % 16);
        let s = hex_of(n);
        assert(s.drop_last() =~= hex_of(n / 16));
        assert(s.last() == hex_digits()[(n % 16) as int]);
        assert(hex_seq_value(s) == hex_seq_value(s.drop_last()) * 16 + hex_value(s.last()));
        assert(n == (n / 16) * 16 + n % 16);
        assert forall|i: int| 0 <= i < s.len() implies #[trigger] is_hex_char(s[i]) by {
            if i < s.len() - 1 {
                assert(s[i] == hex_of(n / 16)[i]);
            }
        }
    }
}

/// The value of a prefix of a digit string is at most that of the string.
proof fn lemma_prefix_value(s: Seq<char>, k: int)
    requires
        0 <= k <= s.len(),
    ensures
        hex_seq_value(s.take(k)) <= hex_seq_value(s),
    decreases s.len(),
{
    if k < s.len() {
        assert(s.drop_last().take(k) =~= s.take(k));
        lemma_prefix_value(s.drop_last(), k);
    } else {
        assert(s.take(k) =~= s);
    }
}

/// The chars of `s`, in order.
fn chars_of(s: &str) -> (v: Vec<char>)
    ensures
        v@ == s@,
{
    let mut it = s.chars();
    let mut v: Vec<char> = Vec::new();
    loop
        invariant
            v@ + it.remaining() == s@,
            it.decrease() is Some,
        decreases it.decrease()->0,
    {
        match it.next() {
            Some(c) => {
                v.push(c);
            },
            None => {
                assert(v@ =~= s@);
                return v;
            },
        }
    }
}

/// The hexadecimal number that starts at `p`: the longest run of digits
/// there, with its value and the position after it. `None` where there is no
/// digit at `p`, or the value exceeds `0x10FFFF`.
fn parse_hex(t: &Vec<char>, p: usize) -> (r: Option<(u32, usize)>)
    requires
        p <= t@.len(),
    ensures
        r matches Some((v, q)) ==> p < q <= t@.len() && v <= 0x10FFFF,
        forall|n: nat|
            #![trigger hex_of(n)]
            n <= 0x10FFFF && p + hex_of(n).len() <= t@.len() && t@.subrange(p as int, p + hex_of(n).len()) == hex_of(n)
                && (p + hex_of(n).len() == t@.len() || !is_hex_char(t@[p + hex_of(n).len()]))
                ==> r == Some((n as u32, (p + hex_of(n).len()) as usize)),
{
    let mut q: usize = p;
    let mut value: u32 = 0;
    while q < t.len() && ((48 <= t[q] as u32 && t[q] as u32 <= 57) || (65 <= t[q] as u32 && t[q] as u32 <= 70))
        invariant
            p <= q <= t@.len(),
            value <= 0x10FFFF,
            forall|n: nat|
                #![trigger hex_of(n)]
                n <= 0x10FFFF && p + hex_of(n).len() <= t@.len() && t@.subrange(p as int, p + hex_of(n).len()) == hex_of(n)
                    && (p + hex_of(n).len() == t@.len() || !is_hex_char(t@[p + hex_of(n).len()]))
                    ==> q <= p + hex_of(n).len() && value == hex_seq_value(hex_of(n).take(q - p)),
        decreases t@.len() - q,
    {
        let c = t[q];
        let d: u32 = if (c as u32) <= 57 { c as u32 - 48 } else { c as u32 - 55 };
        if value > 0x10FFF {
            proof {
                assert forall|n: nat|
                    #![trigger hex_of(n)]
                    n <= 0x10FFFF && p + hex_of(n).len() <= t@.len() && t@.subrange(p as int, p + hex_of(n).len()) == hex_of(n)
                        && (p + hex_of(n).len() == t@.len() || !is_hex_char(t@[p + hex_of(n).len()]))
                        implies false by {
                    lemma_hex_of(n);
                    let s = hex_of(n);
                    let k = q - p;
                    if q == p + s.len() {
                        assert(t@[q as int] == c);
                    }
                    assert(s[k] == t@[q as int]);
                    assert(s.take(k + 1).drop_last() =~= s.take(k));
                    assert(s.take(k + 1).last() == s[k]);
                    assert(hex_seq_value(s.take(k + 1)) == value * 16 + d);
                    lemma_prefix_value(s, k + 1);
                }
            }
            return None;
        }
        proof {
            assert forall|n: nat|
                #![trigger hex_of(n)]
                n <= 0x10FFFF && p + hex_of(n).len() <= t@.len() && t@.subrange(p as int, p + hex_of(n).len()) == hex_of(n)
                    && (p + hex_of(n).len() == t@.len() || !is_hex_char(t@[p + hex_of(n).len()]))
                    implies q + 1 <= p + hex_of(n).len() && value * 16 + d == hex_seq_value(hex_of(n).take(q + 1 - p)) by {
                lemma_hex_of(n);
                let s = hex_of(n);
                let k = q - p;
                if q == p + s.len() {
                    assert(t@[q as int] == c);
                }
                assert(s[k] == t@[q as int]);
                assert(s.take(k + 1).drop_last() =~= s.take(k));
                assert(s.take(k + 1).last() == s[k]);
            }
        }
        value = value * 16 + d;
        q = q + 1;
    }
    if q == p {
        proof {
            assert forall|n: nat|
                #![trigger hex_of(n)]
                n <= 0x10FFFF && p + hex_of(n).len() <= t@.len() && t@.subrange(p as int, p + hex_of(n).len()) == hex_of(n)
                    && (p + hex_of(n).len() == t@.len() || !is_hex_char(t@[p + hex_of(n).len()]))
                    implies false by {
                lemma_hex_of(n);
                assert(hex_of(n)[0] == t@[p as int]);
                assert(is_hex_char(hex_of(n)[0]));
            }
        }
        return None;
    }
    proof {
        assert forall|n: nat|
            #![trigger hex_of(n)]
            n <= 0x10FFFF && p + hex_of(n).len() <= t@.len() && t@.subrange(p as int, p + hex_of(n).len()) == hex_of(n)
                && (p + hex_of(n).len() == t@.len() || !is_hex_char(t@[p + hex_of(n).len()]))
                implies Some((value, q)) == Some((n as u32, (p + hex_of(n).len()) as usize)) by {
            lemma_hex_of(n);
            let s = hex_of(n);
            if q < p + s.len() {
                assert(s[q - p] == t@[q as int]);
                assert(is_hex_char(s[q - p]));
            }
            assert(s.take(s.len() as int) =~= s);
        }
    }
    Some((value, q))
}

/// `t` holds `lit` at `p`: the position after it, or `None`.
fn expect_lit(t: &Vec<char>, p: usize, lit: &str) -> (r: Option<usize>)
    requires
        p <= t@.len(),
    ensures
        r matches Some(q) ==> q == p + lit@.len() && q <= t@.len(),
        r == (if p + lit@.len() <= t@.len() && t@.subrange(p as int, p + lit@.len()) == lit@ {
            Some((p + lit@.len()) as usize)
        } else {
            None::<usize>
        }),
{
    let len = lit.unicode_len();
    if len > t.len() - p {
        return None;
    }
    let mut i: usize = 0;
    while i < len
        invariant
            len == lit@.len(),
            p + len <= t.len(),
            i <= len,
            t@.subrange(p as int, p + i) == lit@.subrange(0, i as int),
        decreases len - i,
    {
        if t[p + i] != lit.get_char(i) {
            proof {
                if t@.subrange(p as int, p + len) == lit@ {
                    assert(t@.subrange(p as int, p + len)[i as int] == t@[p + i]);
                }
            }
            return None;
        }
        proof {
            assert(t@.subrange(p as int, p + i + 1) =~= t@.subrange(p as int, p + i).push(t@[p + i]));
            assert(lit@.subrange(0, i + 1) =~= lit@.subrange(0, i as int).push(lit@[i as int]));
        }
        i = i + 1;
    }
    proof {
        assert(lit@.subrange(0, len as int) =~= lit@);
    }
    Some(p + len)
}

/// A range that a line can hold: both ends scalar values, and a non-empty
/// label without a line break.
pub open spec fn range_ok(r: (u32, u32, Seq<char>)) -> bool {
    &&& is_scalar_value(r.0)
    &&& is_scalar_value(r.1)
    &&& r.2.len() > 0
    &&& forall|i: int| 0 <= i < r.2.len() ==> r.2[i] != '\n'
}

/// A header without a line break.
pub open spec fn header_ok(h: Seq<char>) -> bool {
    forall|i: int| 0 <= i < h.len() ==> h[i] != '\n'
}

/// `t` holds the line of `r` at `p`.
pub open spec fn line_at(t: Seq<char>, p: int, r: (u32, u32, Seq<char>)) -> bool {
    &&& range_ok(r)
    &&& 0 <= p
    &&& p + range_line(r).len() <= t.len()
    &&& t.subrange(p, p + range_line(r).len()) == range_line(r)
}

proof fn lemma_line_parts(t: Seq<char>, p: int, r: (u32, u32, Seq<char>))
    requires
        line_at(t, p, r),
    ensures
        ({
            let la = hex_of(r.0 as nat).len() as int;
            let lb = hex_of(r.1 as nat).len() as int;
            let a = p + 2;
            let b = a + la + 5;
            let c = b + lb + 4;
            let lv = r.2.len() as int;
            &&& range_line(r).len() == c + lv + 1 - p
            &&& t.subrange(p, p + 2) == seq!['0', 'x']
            &&& t.subrange(a, a + la) == hex_of(r.0 as nat)
            &&& !is_hex_char(t[a + la])
            &&& t.subrange(a + la, a + la + 5) == seq!['.', '.', '=', '0', 'x']
            &&& t.subrange(b, b + lb) == hex_of(r.1 as nat)
            &&& !is_hex_char(t[b + lb])
            &&& t.subrange(b + lb, b + lb + 4) == seq![' ', '=', '>', ' ']
            &&& t.subrange(c, c + lv) == r.2
            &&& t[c + lv] == '\n'
            &&& forall|i: int| c <= i < c + lv ==> t[i] != '\n'
        }),
{
    let la = hex_of(r.0 as nat).len() as int;
    let lb = hex_of(r.1 as nat).len() as int;
    let a = p + 2;
    let b = a + la + 5;
    let c = b + lb + 4;
    let lv = r.2.len() as int;
    let l = range_line(r);
    let s = t.subrange(p, p + l.len());
    assert(l.len() == c + lv + 1 - p);
    assert(t.subrange(p, p + 2) =~= l.subrange(0, 2));
    assert(t.subrange(a, a + la) =~= l.subrange(2, 2 + la));
    assert(t[a + la] == l[2 + la]);
    assert(t.subrange(a + la, a + la + 5) =~= l.subrange(2 + la, 7 + la));
    assert(t.subrange(b, b + lb) =~= l.subrange(7 + la, 7 + la + lb));
    assert(t[b + lb] == l[7 + la + lb]);
    assert(t.subrange(b + lb, b + lb + 4) =~= l.subrange(7 + la + lb, 11 + la + lb));
    assert(t.subrange(c, c + lv) =~= l.subrange(11 + la + lb, 11 + la + lb + lv));
    assert(t[c + lv] == l[11 + la + lb + lv]);
    assert forall|i: int| c <= i < c + lv implies t[i] != '\n' by {
        assert(t[i] == l[i - p]);
        assert(l[i - p] == r.2[i - c]);
    }
}

/// The range on the line at `p`, and the position after its line break.
fn parse_line(text: &str, t: &Vec<char>, p: usize) -> (r: Option<(CompressedRange, usize)>)
    requires
        t@ == text@,
        p <= t@.len(),
    ensures
        forall|rv: (u32, u32, Seq<char>)| #[trigger]
            line_at(t@, p as int, rv) ==> (r matches Some((c, q)) && c@ == rv && q == p + range_line(rv).len()),
{
    proof {
        reveal_strlit("0x");
        reveal_strlit("..=0x");
        reveal_strlit(" => ");
        assert("0x"@ =~= seq!['0', 'x']);
        assert("..=0x"@ =~= seq!['.', '.', '=', '0', 'x']);
        assert(" => "@ =~= seq![' ', '=', '>', ' ']);
    }
    let a = match expect_lit(t, p, "0x") {
        Some(a) => a,
        None => {
            proof {
                assert forall|rv: (u32, u32, Seq<char>)| #[trigger] line_at(t@, p as int, rv) implies false by {
                    lemma_line_parts(t@, p as int, rv);
                }
            }
            return None;
        },
    };
    let (start, a2) = match parse_hex(t, a) {
        Some(x) => x,
        None => {
            proof {
                assert forall|rv: (u32, u32, Seq<char>)| #[trigger] line_at(t@, p as int, rv) implies false by {
                    lemma_line_parts(t@, p as int, rv);
                    let n = rv.0 as nat;
                    assert(a == p + 2);
                    assert(t@.subrange(a as int, a + hex_of(n).len()) == hex_of(n));
                    assert(!is_hex_char(t@[a + hex_of(n).len()]));
                    assert(a + hex_of(n).len() <= t@.len() && t@.len() == t.len());
                }
            }
            return None;
        },
    };
    let b = match expect_lit(t, a2, "..=0x") {
        Some(b) => b,
        None => {
            proof {
                assert forall|rv: (u32, u32, Seq<char>)| #[trigger] line_at(t@, p as int, rv) implies false by {
                    lemma_line_parts(t@, p as int, rv);
                    let n = rv.0 as nat;
                    assert(a == p + 2);
                    assert(t@.subrange(a as int, a + hex_of(n).len()) == hex_of(n));
                    assert(!is_hex_char(t@[a + hex_of(n).len()]));
                    assert(a + hex_of(n).len() <= t@.len() && t@.len() == t.len());
                    assert(a2 == a + hex_of(n).len());
                }
            }
            return None;
        },
    };
    let (end, b2) = match parse_hex(t, b) {
        Some(x) => x,
        None => {
            proof {
                assert forall|rv: (u32, u32, Seq<char>)| #[trigger] line_at(t@, p as int, rv) implies false by {
                    lemma_line_parts(t@, p as int, rv);
                    let n = rv.0 as nat;
                    assert(a == p + 2);
                    assert(t@.subrange(a as int, a + hex_of(n).len()) == hex_of(n));
                    assert(!is_hex_char(t@[a + hex_of(n).len()]));
                    assert(a + hex_of(n).len() <= t@.len() && t@.len() == t.len());
                    assert(a2 == a + hex_of(n).len());
                    assert(b == a2 + 5);
                    let m = rv.1 as nat;
                    assert(t@.subrange(b as int, b + hex_of(m).len()) == hex_of(m));
                    assert(!is_hex_char(t@[b + hex_of(m).len()]));
                    assert(b + hex_of(m).len() <= t@.len());
                }
            }
            return None;
        },
    };
    let c = match expect_lit(t, b2, " => ") {
        Some(c) => c,
        None => {
            proof {
                assert forall|rv: (u32, u32, Seq<char>)| #[trigger] line_at(t@, p as int, rv) implies false by {
                    lemma_line_parts(t@, p as int, rv);
                    let n = rv.0 as nat;
                    assert(a == p + 2);
                    assert(t@.subrange(a as int, a + hex_of(n).len()) == hex_of(n));
                    assert(!is_hex_char(t@[a + hex_of(n).len()]));
                    assert(a + hex_of(n).len() <= t@.len() && t@.len() == t.len());
                    assert(a2 == a + hex_of(n).len());
                    assert(b == a2 + 5);
                    let m = rv.1 as nat;
                    assert(t@.subrange(b as int, b + hex_of(m).len()) == hex_of(m));
                    assert(!is_hex_char(t@[b + hex_of(m).len()]));
                    assert(b + hex_of(m).len() <= t@.len());
                    assert(b2 == b + hex_of(m).len());
                }
            }
            return None;
        },
    };
    let mut q: usize = c;
    while q < t.len() && t[q] != '\n'
        invariant
            c <= q <= t@.len(),
            forall|i: int| c <= i < q ==> t@[i] != '\n',
        decreases t@.len() - q,
    {
        q = q + 1;
    }
    if q == t.len() || q == c {
        proof {
            assert forall|rv: (u32, u32, Seq<char>)| #[trigger] line_at(t@, p as int, rv) implies false by {
                lemma_line_parts(t@, p as int, rv);
                let lv = rv.2.len() as int;
                let cc = p + 2 + hex_of(rv.0 as nat).len() + 5 + hex_of(rv.1 as nat).len() + 4;
                assert(cc == c);
                if q > cc + lv {
                    assert(t@[cc + lv] != '\n');
                }
                if q < cc + lv {
                    assert(t@[q as int] != '\n');
                }
            }
        }
        return None;
    }
    let start_c = match char_from_scalar(start) {
        Some(x) => x,
        None => {
            proof {
                assert forall|rv: (u32, u32, Seq<char>)| #[trigger] line_at(t@, p as int, rv) implies false by {
                    lemma_line_parts(t@, p as int, rv);
                    let n = rv.0 as nat;
                    assert(a == p + 2);
                    assert(t@.subrange(a as int, a + hex_of(n).len()) == hex_of(n));
                    assert(!is_hex_char(t@[a + hex_of(n).len()]));
                    assert(a + hex_of(n).len() <= t@.len() && t@.len() == t.len());
                    assert(a2 == a + hex_of(n).len());
                    assert(b == a2 + 5);
                    let m = rv.1 as nat;
                    assert(t@.subrange(b as int, b + hex_of(m).len()) == hex_of(m));
                    assert(!is_hex_char(t@[b + hex_of(m).len()]));
                    assert(b + hex_of(m).len() <= t@.len());
                    assert(b2 == b + hex_of(m).len());
                }
            }
            return None;
        },
    };
    let end_c = match char_from_scalar(end) {
        Some(x) => x,
        None => {
            proof {
                assert forall|rv: (u32, u32, Seq<char>)| #[trigger] line_at(t@, p as int, rv) implies false by {
                    lemma_line_parts(t@, p as int, rv);
                    let n = rv.0 as nat;
                    assert(a == p + 2);
                    assert(t@.subrange(a as int, a + hex_of(n).len()) == hex_of(n));
                    assert(!is_hex_char(t@[a + hex_of(n).len()]));
                    assert(a + hex_of(n).len() <= t@.len() && t@.len() == t.len());
                    assert(a2 == a + hex_of(n).len());
                    assert(b == a2 + 5);
                    let m = rv.1 as nat;
                    assert(t@.subrange(b as int, b + hex_of(m).len()) == hex_of(m));
                    assert(!is_hex_char(t@[b + hex_of(m).len()]));
                    assert(b + hex_of(m).len() <= t@.len());
                    assert(b2 == b + hex_of(m).len());
                }
            }
            return None;
        },
    };
    let value = text.substring_char(c, q).to_owned();
    proof {
        assert forall|rv: (u32, u32, Seq<char>)| #[trigger] line_at(t@, p as int, rv) implies (
        start_c as u32, end_c as u32, value@) == rv && q + 1 == p + range_line(rv).len() by {
            lemma_line_parts(t@, p as int, rv);
            let lv = rv.2.len() as int;
            let cc = p + 2 + hex_of(rv.0 as nat).len() + 5 + hex_of(rv.1 as nat).len() + 4;
            assert(cc == c);
            if q > cc + lv {
                assert(t@[cc + lv] != '\n');
            }
            if q < cc + lv {
                assert(t@[q as int] != '\n');
            }
            assert(value@ == rv.2);
        }
    }
    Some((CompressedRange { start: start_c, end: end_c, value }, q + 1))
}

/// Every range of `rs` can stand on a line.
pub open spec fn ranges_ok(rs: Seq<(u32, u32, Seq<char>)>) -> bool {
    forall|k: int| 0 <= k < rs.len() ==> range_ok(#[trigger] rs[k])
}

proof fn lemma_lines_prefix(rs: Seq<(u32, u32, Seq<char>)>, j: int)
    requires
        0 <= j <= rs.len(),
    ensures
        range_lines(rs.take(j)).len() <= range_lines(rs).len(),
        range_lines(rs).subrange(0, range_lines(rs.take(j)).len() as int) == range_lines(rs.take(j)),
    decreases rs.len(),
{
    if j == rs.len() {
        assert(rs.take(j) =~= rs);
        assert(range_lines(rs).subrange(0, range_lines(rs).len() as int) =~= range_lines(rs));
    } else {
        let d = rs.drop_last();
        assert(d.take(j) =~= rs.take(j));
        lemma_lines_prefix(d, j);
        let a = range_lines(rs.take(j));
        assert(range_lines(rs) == range_lines(d) + range_line(rs.last()));
        assert(range_lines(rs).subrange(0, a.len() as int) =~= range_lines(d).subrange(0, a.len() as int));
    }
}

proof fn lemma_line_in_text(h: Seq<char>, rs: Seq<(u32, u32, Seq<char>)>, k: int)
    requires
        0 <= k < rs.len(),
        ranges_ok(rs),
    ensures
        line_at(table_text(h, rs), (h.len() + 1 + range_lines(rs.take(k)).len()) as int, rs[k]),
        range_lines(rs.take(k + 1)).len() == range_lines(rs.take(k)).len() + range_line(rs[k]).len(),
        range_lines(rs.take(k + 1)).len() <= range_lines(rs).len(),
{
    let t = table_text(h, rs);
    let lk = range_lines(rs.take(k));
    let l = range_line(rs[k]);
    assert(rs.take(k + 1).drop_last() =~= rs.take(k));
    assert(range_lines(rs.take(k + 1)) == lk + l);
    lemma_lines_prefix(rs, k + 1);
    let p = (h.len() + 1 + lk.len()) as int;
    assert(range_ok(rs[k]));
    assert forall|i: int| 0 <= i < l.len() implies t[p + i] == l[i] by {
        assert(t[p + i] == range_lines(rs)[lk.len() + i]);
        assert(range_lines(rs).subrange(0, (lk + l).len() as int)[lk.len() + i] == (lk + l)[lk.len() + i]);
    }
    assert(t.subrange(p, p + l.len()) =~= l);
}

/// Reads back the ranges of a text that `emit_range_table` wrote: for a
/// header without a line break and ranges whose ends are scalar values and
/// whose labels are non-empty and hold no line break, the ranges come back
/// exactly.
pub fn parse_range_table(text: &str) -> (r: Option<Vec<CompressedRange>>)
    ensures
        forall|h: Seq<char>, rs: Seq<(u32, u32, Seq<char>)>|
            #![trigger table_text(h, rs)]
            header_ok(h) && ranges_ok(rs) && text@ == table_text(h, rs) ==> (r matches Some(v) && range_views(v@) == rs),
{
    let t = chars_of(text);
    let n = t.len();
    let mut p: usize = 0;
    while p < n && t[p] != '\n'
        invariant
            p <= n == t@.len(),
            forall|i: int| 0 <= i < p ==> t@[i] != '\n',
        decreases n - p,
    {
        p = p + 1;
    }
    proof {
        assert forall|h: Seq<char>, rs: Seq<(u32, u32, Seq<char>)>|
            #![trigger table_text(h, rs)]
            header_ok(h) && ranges_ok(rs) && text@ == table_text(h, rs) implies p == h.len() by {
            assert(t@[h.len() as int] == '\n');
            if p < h.len() {
                assert(t@[p as int] == h[p as int]);
            }
            if p > h.len() {
                assert(t@[h.len() as int] != '\n');
            }
        }
    }
    if p == n {
        return None;
    }
    p = p + 1;
    let mut out: Vec<CompressedRange> = Vec::new();
    while p < n
        invariant
            n == t@.len(),
            t@ == text@,
            p <= n,
            forall|h: Seq<char>, rs: Seq<(u32, u32, Seq<char>)>|
                #![trigger table_text(h, rs)]
                header_ok(h) && ranges_ok(rs) && text@ == table_text(h, rs) ==> {
                    &&& out@.len() <= rs.len()
                    &&& range_views(out@) == rs.take(out@.len() as int)
                    &&& p == h.len() + 1 + range_lines(rs.take(out@.len() as int)).len()
                },
        decreases n - p,
    {
        let ghost k = out@.len() as int;
        let ghost old_out = out@;
        proof {
            assert forall|h: Seq<char>, rs: Seq<(u32, u32, Seq<char>)>|
                #![trigger table_text(h, rs)]
                header_ok(h) && ranges_ok(rs) && text@ == table_text(h, rs) implies k < rs.len()
                    && line_at(t@, p as int, rs[k]) by {
                if k == rs.len() {
                    assert(rs.take(k) =~= rs);
                }
                lemma_line_in_text(h, rs, k);
            }
        }
        match parse_line(text, &t, p) {
            Some((c, q)) => {
                proof {
                    assert forall|h: Seq<char>, rs: Seq<(u32, u32, Seq<char>)>|
                        #![trigger table_text(h, rs)]
                        header_ok(h) && ranges_ok(rs) && text@ == table_text(h, rs) implies q > p && q
                            == h.len() + 1 + range_lines(rs.take(k + 1)).len() && c@ == rs[k] by {
                        lemma_line_in_text(h, rs, k);
                    }
                }
                if q <= p || q > n {
                    return None;
                }
                out.push(c);
                proof {
                    assert forall|h: Seq<char>, rs: Seq<(u32, u32, Seq<char>)>|
                        #![trigger table_text(h, rs)]
                        header_ok(h) && ranges_ok(rs) && text@ == table_text(h, rs) implies range_views(out@)
                            == rs.take(out@.len() as int) by {
                        assert(range_views(out@) =~= range_views(old_out).push(c@));
                        assert(rs.take(k + 1) =~= rs.take(k).push(rs[k]));
                    }
                }
                p = q;
            },
            None => {
                return None;
            },
        }
    }
    proof {
        assert forall|h: Seq<char>, rs: Seq<(u32, u32, Seq<char>)>|
            #![trigger table_text(h, rs)]
            header_ok(h) && ranges_ok(rs) && text@ == table_text(h, rs) implies range_views(out@) == rs by {
            let k = out@.len() as int;
            if k < rs.len() {
                lemma_line_in_text(h, rs, k);
            }
            assert(rs.take(k) =~= rs);
        }
    }
    Some(out)
}

} // verus!
