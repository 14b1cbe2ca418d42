//! The table that a scan prints.

use vstd::prelude::*;
use crate::meta::{PreviewInfo, Timestamp};
use crate::text;

verus! {

/// Files from which on the table is shortened, unless all are asked for.
pub const SHORT_TABLE: usize = 12;

/// Files shown at either end of a shortened table.
pub const TABLE_END: usize = 6;

/// The files that the table shows: all of them, or the first and last few of a
/// long list.
pub open spec fn rows_shown(n: int, all: bool) -> Seq<usize> {
    if all || n <= SHORT_TABLE {
        Seq::new(n as nat, |i: int| i as usize)
    } else {
        Seq::new(
            (2 * TABLE_END) as nat,
            |i: int|
                (if i < TABLE_END {
                    i
                } else {
                    n - 2 * TABLE_END + i
                }) as usize,
        )
    }
}

/// The files that the table shows.
pub fn shown_files(n: usize, all: bool) -> (r: Vec<usize>)
    ensures
        r@ == rows_shown(n as int, all),
{
    let mut out: Vec<usize> = Vec::new();
    let short = !all && n > SHORT_TABLE;
    let m: usize = if short {
        2 * TABLE_END
    } else {
        n
    };
    let mut i: usize = 0;
    while i < m
        invariant
            i <= m,
            short == (!all && n > SHORT_TABLE),
            m == (if short {
                (2 * TABLE_END) as usize
            } else {
                n
            }),
            out@.len() == i,
            forall|j: int| 0 <= j < i ==> #[trigger] out@[j] == rows_shown(n as int, all)[j],
        decreases m - i,
    {
        out.push(
            if short && i >= TABLE_END {
                n - 2 * TABLE_END + i
            } else {
                i
            },
        );
        i += 1;
    }
    assert(out@ =~= rows_shown(n as int, all));
    out
}

/// The files that are looked at where there is a limit (0 is none).
pub fn limited(n: usize, limit: usize) -> (r: usize)
    ensures
        r == (if limit > 0 && limit < n {
            limit
        } else {
            n
        }),
        r <= n,
        limit == 0 ==> r == n,
        limit > 0 ==> r <= limit && (r == n || r == limit),
{
    if limit > 0 && limit < n {
        limit
    } else {
        n
    }
}

/// What stands in the table where nothing is known.
pub open spec fn unknown() -> Seq<char> {
    "-"@
}

/// A number in decimal, with a minus sign where it is below zero.
pub open spec fn signed(n: int) -> Seq<char> {
    if n < 0 {
        "-"@ + text::decimal(-n)
    } else {
        text::decimal(n)
    }
}

/// Whole seconds of a time in hundredths, rounded towards zero.
pub open spec fn whole_seconds(centis: int) -> int {
    if centis < 0 {
        -((-centis) / 100)
    } else {
        centis / 100
    }
}

/// A capture time: whole seconds, a dot, and the remaining hundredths in at
/// least two places. Before 1970 both are below zero.
pub open spec fn time_text(ts: Option<Timestamp>) -> Seq<char> {
    match ts {
        Some(t) => {
            let c = t.unix_centis as int;
            let rest = c - 100 * whole_seconds(c);
            let pad = if 0 <= rest < 10 {
                "0"@
            } else {
                Seq::empty()
            };
            signed(whole_seconds(c)) + "."@ + pad + signed(rest)
        },
        None => unknown(),
    }
}

fn push_signed(s: &mut String, neg: bool, n: u64)
    ensures
        final(s)@ == old(s)@ + signed(
            if neg {
                -(n as int)
            } else {
                n as int
            },
        ),
{
    if neg && n > 0 {
        s.append("-");
    }
    text::push_decimal(s, n);
    assert(s@ =~= old(s)@ + signed(
        if neg {
            -(n as int)
        } else {
            n as int
        },
    ));
}

/// A capture time: whole seconds, a dot, and the remaining hundredths.
pub fn time_column(ts: Option<Timestamp>) -> (r: String)
    ensures
        r@ == time_text(ts),
{
    match ts {
        Some(t) => {
            let neg = t.unix_centis < 0;
            let n: u64 = if neg {
                (-(t.unix_centis as i128)) as u64
            } else {
                t.unix_centis as u64
            };
            let c: u64 = n % 100;
            let mut s = String::new();
            push_signed(&mut s, neg, n / 100);
            s.append(".");
            if c < 10 && (!neg || c == 0) {
                s.append("0");
            }
            push_signed(&mut s, neg, c);
            assert(s@ =~= time_text(ts));
            s
        },
        None => text::copy_of("-"),
    }
}

/// An exposure time as a fraction.
pub open spec fn shutter_text(time: Option<(u32, u32)>) -> Seq<char> {
    match time {
        Some(t) => text::decimal(t.0 as int) + "/"@ + text::decimal(t.1 as int),
        None => unknown(),
    }
}

/// An exposure time as a fraction.
pub fn shutter_column(time: Option<(u32, u32)>) -> (r: String)
    ensures
        r@ == shutter_text(time),
{
    match time {
        Some((n, d)) => {
            let mut s = String::new();
            text::push_decimal(&mut s, n as u64);
            s.append("/");
            text::push_decimal(&mut s, d as u64);
            assert(s@ =~= shutter_text(time));
            s
        },
        None => text::copy_of("-"),
    }
}

/// The size of an embedded image in whole kilobytes.
pub open spec fn size_text(p: Option<PreviewInfo>) -> Seq<char> {
    match p {
        Some(i) => text::decimal(i.range.len as int / 1024) + "K"@,
        None => unknown(),
    }
}

/// The size of an embedded image in whole kilobytes.
pub fn size_column(p: Option<PreviewInfo>) -> (r: String)
    ensures
        r@ == size_text(p),
{
    match p {
        Some(i) => {
            let mut s = String::new();
            text::push_decimal(&mut s, (i.range.len / 1024) as u64);
            s.append("K");
            assert(s@ =~= size_text(p));
            s
        },
        None => text::copy_of("-"),
    }
}

/// The table shows every file where all are asked for or there are 12 at most,
/// else the first 6 and the last 6, each once and in order.
pub proof fn tables_show_both_ends(n: usize, all: bool, i: usize)
    ensures
        rows_shown(n as int, all).contains(i) <==> i < n && (all || n <= 12 || i < 6 || i + 6 >= n),
        forall|a: int, b: int|
            0 <= a < b < rows_shown(n as int, all).len() ==> #[trigger] rows_shown(n as int, all)[a]
                < #[trigger] rows_shown(n as int, all)[b],
{
    let rows = rows_shown(n as int, all);
    if i < n && (all || n <= 12 || i < 6 || i + 6 >= n) {
        if all || n <= 12 || i < 6 {
            assert(rows[i as int] == i);
        } else {
            assert(rows[i - n + 12] == i);
        }
    }
}

/// A capture time from 1970 on shows its whole seconds, and its hundredths in
/// two places.
pub proof fn times_show_hundredths(t: Timestamp)
    requires
        t.unix_centis >= 0,
    ensures
        ({
            let c = t.unix_centis as int;
            time_text(Some(t)) == text::decimal(c / 100) + seq!['.'] + text::zero_padded(
                text::decimal(c % 100),
                2,
            )
        }),
{
    let c = t.unix_centis as int;
    let rest = c % 100;
    assert(c - 100 * whole_seconds(c) == rest);
    reveal_strlit(".");
    reveal_strlit("0");
    assert("."@ =~= seq!['.']);
    reveal_with_fuel(text::in_base, 3);
    let d = text::decimal(rest);
    if rest < 10 {
        assert(d.len() == 1);
        assert("0"@ + d =~= Seq::new(1, |i: int| '0') + d);
        assert(text::decimal(c / 100) + "."@ + "0"@ + d =~= text::decimal(c / 100) + seq!['.'] + (
        "0"@ + d));
    } else {
        assert(d.len() == 2);
        assert(text::decimal(c / 100) + "."@ + Seq::<char>::empty() + d =~= text::decimal(c / 100)
            + seq!['.'] + d);
    }
}

/// An image's size is shown in full kilobytes of 1024 bytes.
pub proof fn sizes_are_in_kilobytes(p: PreviewInfo, k: int)
    requires
        1024 * k <= p.range.len < 1024 * (k + 1),
    ensures
        size_text(Some(p)) == text::decimal(k) + seq!['K'],
{
    reveal_strlit("K");
    assert("K"@ =~= seq!['K']);
    assert(p.range.len as int / 1024 == k);
}

} // verus!
