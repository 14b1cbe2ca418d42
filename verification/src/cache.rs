//! Keys of the on-disk score cache. Keyed by content, not path, so it
//! survives card remounts and drive-letter changes.

use vstd::prelude::*;
use crate::formats::Source;
use crate::meta;
use crate::meta::FileMeta;
use crate::score::SCORE_VERSION;
use crate::text;

verus! {

/// What follows the file size in a key.
pub open spec fn key_tail(source: Source) -> Seq<char> {
    let version = "-s"@ + text::decimal(SCORE_VERSION as int);
    match source {
        Source::Embedded => version,
        Source::Full => "-full"@ + version,
    }
}

/// The key of a file with the given content key and size.
pub open spec fn key_text(content_key: u64, size: u64, source: Source) -> Seq<char> {
    text::zero_padded(text::hexadecimal(content_key as int), 16) + "-"@ + text::hexadecimal(
        size as int,
    ) + key_tail(source)
}

/// Content key: xxh3 of the first 64 KB + file size. RAW files are
/// immutable, and any rewrite changes the header bytes. Scores from the
/// full image are not comparable with preview scores, so `Source::Full`
/// gets its own key (`-full`), and every key carries the scoring formula
/// version so a formula change orphans old rows instead of mixing scales.
pub fn file_key(meta: &FileMeta, source: Source) -> (r: String)
    ensures
        r@ == key_text(meta.content_key, meta.size, source),
{
    let mut s = String::new();
    text::push_hex_padded(&mut s, meta.content_key, 16);
    s.append("-");
    text::push_hex(&mut s, meta.size);
    match source {
        Source::Embedded => {},
        Source::Full => s.append("-full"),
    }
    let ghost before = s@;
    s.append("-s");
    text::push_decimal(&mut s, SCORE_VERSION as u64);
    assert(s@ =~= before + ("-s"@ + text::decimal(SCORE_VERSION as int)));
    assert(s@ =~= key_text(meta.content_key, meta.size, source));
    s
}

proof fn lemma_hex_width(n: int, w: nat)
    requires
        0 <= n,
        w >= 1,
        n < pow16(w),
    ensures
        text::hexadecimal(n).len() <= w,
    decreases w,
{
    if n >= 16 {
        assert(w > 1) by {
            if w == 1 {
                reveal_with_fuel(pow16, 2);
            }
        }
        assert(pow16(w) == 16 * pow16((w - 1) as nat));
        lemma_hex_width(n / 16, (w - 1) as nat);
    }
}

spec fn pow16(w: nat) -> int
    decreases w,
{
    if w == 0 {
        1
    } else {
        16 * pow16((w - 1) as nat)
    }
}

/// Different files, and different sources of one file, have different keys.
pub proof fn keys_tell_files_apart(
    c1: u64,
    s1: u64,
    src1: Source,
    c2: u64,
    s2: u64,
    src2: Source,
)
    requires
        key_text(c1, s1, src1) == key_text(c2, s2, src2),
    ensures
        c1 == c2,
        s1 == s2,
        src1 == src2,
{
    let a = key_text(c1, s1, src1);
    let (h1, h2) = (text::hexadecimal(c1 as int), text::hexadecimal(c2 as int));
    let (p1, p2) = (text::zero_padded(h1, 16), text::zero_padded(h2, 16));
    reveal_with_fuel(pow16, 17);
    lemma_hex_width(c1 as int, 16);
    lemma_hex_width(c2 as int, 16);
    assert(p1.len() == 16 && p2.len() == 16);
    reveal_strlit("-");
    reveal_strlit("-s");
    reveal_strlit("-full");
    // The first 16 characters are the content key.
    assert(a.take(16) =~= p1);
    assert(a.take(16) =~= p2);
    text::lemma_leading_zeros(h1, (16 - h1.len()) as nat, 16);
    text::lemma_leading_zeros(h2, (16 - h2.len()) as nat, 16);
    if h1.len() == 16 {
        assert(Seq::new(0, |i: int| '0') + h1 =~= h1);
    }
    if h2.len() == 16 {
        assert(Seq::new(0, |i: int| '0') + h2 =~= h2);
    }
    text::digits_read_back(c1 as int, 16);
    text::digits_read_back(c2 as int, 16);
    // The fourth character from the end tells the source.
    let (x1, x2) = (text::hexadecimal(s1 as int), text::hexadecimal(s2 as int));
    text::digits_read_back(s1 as int, 16);
    text::digits_read_back(s2 as int, 16);
    let (t1, t2) = (key_tail(src1), key_tail(src2));
    assert(text::decimal(SCORE_VERSION as int) =~= seq!['2']);
    let e = a.len() - 4;
    assert(src1 == Source::Embedded ==> t1.len() == 3 && a[e] == x1[x1.len() - 1]);
    assert(src2 == Source::Embedded ==> t2.len() == 3 && a[e] == x2[x2.len() - 1]);
    assert(src1 == Source::Full ==> t1.len() == 8 && a[e] == t1[4] && a[e] == 'l');
    assert(src2 == Source::Full ==> t2.len() == 8 && a[e] == t2[4] && a[e] == 'l');
    assert(src1 == src2);
    // What is between is the size.
    assert(x1.len() == x2.len());
    assert(a.subrange(17, 17 + x1.len() as int) =~= x1);
    assert(a.subrange(17, 17 + x1.len() as int) =~= x2);
}

} // verus!
