//! Big- and little-endian integers inside a byte slice.

use vstd::prelude::*;

verus! {

/// Whether `n` bytes starting at `off` lie inside `s`.
pub open spec fn fits(s: Seq<u8>, off: int, n: int) -> bool {
    0 <= off && off + n <= s.len()
}

pub open spec fn be16_at(s: Seq<u8>, off: int) -> int {
    s[off] * 0x100 + s[off + 1]
}

pub open spec fn le16_at(s: Seq<u8>, off: int) -> int {
    s[off + 1] * 0x100 + s[off]
}

pub open spec fn be32_at(s: Seq<u8>, off: int) -> int {
    be16_at(s, off) * 0x1_0000 + be16_at(s, off + 2)
}

pub open spec fn le32_at(s: Seq<u8>, off: int) -> int {
    le16_at(s, off + 2) * 0x1_0000 + le16_at(s, off)
}

pub open spec fn be64_at(s: Seq<u8>, off: int) -> int {
    be32_at(s, off) * 0x1_0000_0000 + be32_at(s, off + 4)
}

/// Unsigned 16-bit value at `off`, most significant byte first.
pub fn be16(b: &[u8], off: usize) -> (r: Option<u16>)
    ensures
        r == (if fits(b@, off as int, 2) {
            Some(be16_at(b@, off as int) as u16)
        } else {
            None
        }),
{
    if b.len() < 2 || off > b.len() - 2 {
        return None;
    }
    Some(b[off] as u16 * 0x100 + b[off + 1] as u16)
}

/// Unsigned 16-bit value at `off`, least significant byte first.
pub fn le16(b: &[u8], off: usize) -> (r: Option<u16>)
    ensures
        r == (if fits(b@, off as int, 2) {
            Some(le16_at(b@, off as int) as u16)
        } else {
            None
        }),
{
    if b.len() < 2 || off > b.len() - 2 {
        return None;
    }
    Some(b[off + 1] as u16 * 0x100 + b[off] as u16)
}

/// Unsigned 32-bit value at `off`, most significant byte first.
pub fn be32(b: &[u8], off: usize) -> (r: Option<u32>)
    ensures
        r == (if fits(b@, off as int, 4) {
            Some(be32_at(b@, off as int) as u32)
        } else {
            None
        }),
{
    if b.len() < 4 || off > b.len() - 4 {
        return None;
    }
    let hi: u32 = b[off] as u32 * 0x100 + b[off + 1] as u32;
    let lo: u32 = b[off + 2] as u32 * 0x100 + b[off + 3] as u32;
    Some(hi * 0x1_0000 + lo)
}

/// Unsigned 32-bit value at `off`, least significant byte first.
pub fn le32(b: &[u8], off: usize) -> (r: Option<u32>)
    ensures
        r == (if fits(b@, off as int, 4) {
            Some(le32_at(b@, off as int) as u32)
        } else {
            None
        }),
{
    if b.len() < 4 || off > b.len() - 4 {
        return None;
    }
    let lo: u32 = b[off + 1] as u32 * 0x100 + b[off] as u32;
    let hi: u32 = b[off + 3] as u32 * 0x100 + b[off + 2] as u32;
    Some(hi * 0x1_0000 + lo)
}

/// Unsigned 64-bit value at `off`, most significant byte first.
pub fn be64(b: &[u8], off: usize) -> (r: Option<u64>)
    ensures
        r == (if fits(b@, off as int, 8) {
            Some(be64_at(b@, off as int) as u64)
        } else {
            None
        }),
{
    if b.len() < 8 || off > b.len() - 8 {
        return None;
    }
    let hi: u64 = be32(b, off).unwrap() as u64;
    let lo: u64 = be32(b, off + 4).unwrap() as u64;
    Some(hi * 0x1_0000_0000 + lo)
}

/// Whether the bytes of `b` at `off` are exactly `pat`.
pub open spec fn matches_at(s: Seq<u8>, off: int, pat: Seq<u8>) -> bool {
    &&& fits(s, off, pat.len() as int)
    &&& s.subrange(off, off + pat.len()) == pat
}

/// Whether `pat` stands in `b` at `off`.
pub fn has_at(b: &[u8], off: usize, pat: &[u8]) -> (r: bool)
    ensures
        r == matches_at(b@, off as int, pat@),
{
    if b.len() < pat.len() || off > b.len() - pat.len() {
        return false;
    }
    let mut i: usize = 0;
    while i < pat.len()
        invariant
            i <= pat.len(),
            off + pat.len() <= b.len(),
            forall|k: int| 0 <= k < i ==> b[off + k] == pat[k],
        decreases pat.len() - i,
    {
        if b[off + i] != pat[i] {
            assert(b@.subrange(off as int, off + pat@.len())[i as int] != pat@[i as int]);
            return false;
        }
        i += 1;
    }
    assert(b@.subrange(off as int, off + pat@.len()) =~= pat@);
    true
}

/// The sub-slice `lo..hi`, or nothing where it does not lie inside `b`.
pub fn slice_of(b: &[u8], lo: usize, hi: usize) -> (r: Option<&[u8]>)
    ensures
        lo <= hi <= b.len() ==> r is Some && r->0@ == b@.subrange(lo as int, hi as int),
        !(lo <= hi <= b.len()) ==> r is None,
{
    if lo <= hi && hi <= b.len() {
        Some(vstd::slice::slice_subrange(b, lo, hi))
    } else {
        None
    }
}

/// The bytes of a 16-bit number, most significant first.
pub open spec fn be16_bytes(v: u16) -> Seq<u8> {
    seq![(v / 0x100) as u8, (v % 0x100) as u8]
}

/// The bytes of a 32-bit number, most significant first.
pub open spec fn be32_bytes(v: u32) -> Seq<u8> {
    be16_bytes((v / 0x1_0000) as u16) + be16_bytes((v % 0x1_0000) as u16)
}

/// Numbers are read back from their bytes wherever these stand: in one order
/// from the bytes as they are, in the other from the bytes turned round.
pub proof fn numbers_read_back(s: Seq<u8>, off: int, a: u16, b: u32, c: u64)
    requires
        0 <= off,
    ensures
        off + 2 <= s.len() && s.subrange(off, off + 2) == be16_bytes(a) ==> be16_at(s, off) == a,
        off + 2 <= s.len() && s.subrange(off, off + 2) == be16_bytes(a).reverse() ==> le16_at(
            s,
            off,
        ) == a,
        off + 4 <= s.len() && s.subrange(off, off + 4) == be32_bytes(b) ==> be32_at(s, off) == b,
        off + 4 <= s.len() && s.subrange(off, off + 4) == be32_bytes(b).reverse() ==> le32_at(
            s,
            off,
        ) == b,
        off + 8 <= s.len() && s.subrange(off, off + 8) == be32_bytes((c / 0x1_0000_0000) as u32)
            + be32_bytes((c % 0x1_0000_0000) as u32) ==> be64_at(s, off) == c,
{
    let t = s.subrange(off, off + 8);
    let p = s.subrange(off, off + 2);
    let q = s.subrange(off, off + 4);
    if off + 2 <= s.len() {
        assert(p[0] == s[off] && p[1] == s[off + 1]);
    }
    if off + 4 <= s.len() {
        assert(q[0] == s[off] && q[1] == s[off + 1] && q[2] == s[off + 2] && q[3] == s[off + 3]);
    }
    let (h, l) = (be32_bytes((c / 0x1_0000_0000) as u32), be32_bytes((c % 0x1_0000_0000) as u32));
    if off + 8 <= s.len() && t == h + l {
        assert(t[0] == s[off] && t[1] == s[off + 1] && t[2] == s[off + 2] && t[3] == s[off + 3]);
        assert(t[4] == s[off + 4] && t[5] == s[off + 5] && t[6] == s[off + 6] && t[7] == s[off
            + 7]);
        assert(t[0] == h[0] && t[1] == h[1] && t[2] == h[2] && t[3] == h[3]);
        assert(t[4] == l[0] && t[5] == l[1] && t[6] == l[2] && t[7] == l[3]);
    }
}

} // verus!
