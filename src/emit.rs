//! The textual form of a range table: a header line, then one line per range,
//! `0x<start>..=0x<end> => <label>`, with upper-case hexadecimal and no padding.
use vstd::prelude::*;

use crate::compress::{range_views, CompressedRange};

verus! {

/// The hexadecimal digits, in order of value.
pub open spec fn hex_digits() -> Seq<char> {
    seq!['0', '1', '2', '3', '4', '5', '6', '7', '8', '9', 'A', 'B', 'C', 'D', 'E', 'F']
}

/// `n` in upper-case hexadecimal, without leading zeros.
pub open spec fn hex_of(n: nat) -> Seq<char>
    decreases n,
{
    if n < 16 {
        seq![hex_digits()[n as int]]
    } else {
        hex_of(n / 16) + seq![hex_digits()[(n % 16) as int]]
    }
}

/// The line of one range, with its line break.
pub open spec fn range_line(r: (u32, u32, Seq<char>)) -> Seq<char> {
    seq!['0', 'x'] + hex_of(r.0 as nat) + seq!['.', '.', '=', '0', 'x'] + hex_of(r.1 as nat) + seq![
        ' ',
        '=',
        '>',
        ' ',
    ] + r.2 + seq!['\n']
}

/// The lines of all ranges, in order.
pub open spec fn range_lines(rs: Seq<(u32, u32, Seq<char>)>) -> Seq<char>
    decreases rs.len(),
{
    if rs.len() == 0 {
        Seq::empty()
    } else {
        range_lines(rs.drop_last()) + range_line(rs.last())
    }
}

/// The whole text: `header`, a line break, then the lines of the ranges.
pub open spec fn table_text(header: Seq<char>, rs: Seq<(u32, u32, Seq<char>)>) -> Seq<char> {
    header + seq!['\n'] + range_lines(rs)
}

fn hex_digit_str(d: u32) -> (s: &'static str)
    requires
        d < 16,
    ensures
        s@ == seq![hex_digits()[d as int]],
{
    match d {
        0 => {
            proof {
                reveal_strlit("0");
            }
            "0"
        },
        1 => {
            proof {
                reveal_strlit("1");
            }
            "1"
        },
        2 => {
            proof {
                reveal_strlit("2");
            }
            "2"
        },
        3 => {
            proof {
                reveal_strlit("3");
            }
            "3"
        },
        4 => {
            proof {
                reveal_strlit("4");
            }
            "4"
        },
        5 => {
            proof {
                reveal_strlit("5");
            }
            "5"
        },
        6 => {
            proof {
                reveal_strlit("6");
            }
            "6"
        },
        7 => {
            proof {
                reveal_strlit("7");
            }
            "7"
        },
        8 => {
            proof {
                reveal_strlit("8");
            }
            "8"
        },
        9 => {
            proof {
                reveal_strlit("9");
            }
            "9"
        },
        10 => {
            proof {
                reveal_strlit("A");
            }
            "A"
        },
        11 => {
            proof {
                reveal_strlit("B");
            }
            "B"
        },
        12 => {
            proof {
                reveal_strlit("C");
            }
            "C"
        },
        13 => {
            proof {
                reveal_strlit("D");
            }
            "D"
        },
        14 => {
            proof {
                reveal_strlit("E");
            }
            "E"
        },
        _ => {
            proof {
                reveal_strlit("F");
            }
            "F"
        },
    }
}

fn push_hex(out: &mut String, n: u32)
    ensures
        final(out)@ == old(out)@ + hex_of(n as nat),
    decreases n,
{
    if n >= 16 {
        push_hex(out, n / 16);
    }
    out.append(hex_digit_str(n % 16));
    proof {
        assert(final(out)@ =~= old(out)@ + hex_of(n as nat));
    }
}

/// Writes `header` and then one line per range.
pub fn emit_range_table(header: &str, ranges: &[CompressedRange]) -> (text: String)
    ensures
        text@ == table_text(header@, range_views(ranges@)),
{
    let mut out = String::new();
    out.append(header);
    out.append("\n");
    proof {
        reveal_strlit("\n");
    }
    let mut i: usize = 0;
    while i < ranges.len()
        invariant
            i <= ranges@.len(),
            out@ == header@ + seq!['\n'] + range_lines(range_views(ranges@.take(i as int))),
        decreases ranges@.len() - i,
    {
        let r = &ranges[i];
        let ghost before = out@;
        out.append("0x");
        push_hex(&mut out, r.start as u32);
        out.append("..=0x");
        push_hex(&mut out, r.end as u32);
        out.append(" => ");
        out.append(r.value.as_str());
        out.append("\n");
        proof {
            reveal_strlit("\n");
            reveal_strlit("0x");
            reveal_strlit("..=0x");
            reveal_strlit(" => ");
            let rv = range_views(ranges@.take(i + 1));
            assert(rv.drop_last() =~= range_views(ranges@.take(i as int)));
            assert(rv.last() == ranges@[i as int]@);
            assert(out@ =~= before + range_line(ranges@[i as int]@));
        }
        i = i + 1;
    }
    proof {
        assert(ranges@.take(i as int) =~= ranges@);
    }
    out
}

} // verus!
