//! Minimal endian-aware TIFF/IFD walker, shared by CR2, CR3 CMTx boxes and
//! JPEG APP1 EXIF. Offsets in entries are relative to the TIFF header start,
//! so the parser owns the full TIFF-scoped byte slice.

use vstd::prelude::*;
use vstd::utf8::*;
use crate::bytes;
use crate::path;
use crate::text;

verus! {

#[derive(Debug, Clone, Copy, PartialEq, Eq, Structural)]
pub enum TiffError {
    /// Not a TIFF structure.
    BadMagic,
    /// Truncated TIFF data.
    Truncated,
}

impl TiffError {
    /// What the error says.
    pub fn message(&self) -> (r: &'static str)
        ensures
            r@ == (match *self {
                TiffError::BadMagic => "not a TIFF structure"@,
                TiffError::Truncated => "truncated TIFF data"@,
            }),
    {
        match self {
            TiffError::BadMagic => "not a TIFF structure",
            TiffError::Truncated => "truncated TIFF data",
        }
    }
}

#[derive(Debug, Clone, Copy)]
pub struct IfdEntry {
    pub tag: u16,
    pub kind: u16,
    pub count: u32,
    /// Raw 4 value/offset bytes from the entry.
    pub raw: [u8; 4],
}

/// The value of an `IfdEntry`.
#[verifier::ext_equal]
pub struct EntryView {
    pub tag: u16,
    pub kind: u16,
    pub count: u32,
    pub raw: Seq<u8>,
}

impl View for IfdEntry {
    type V = EntryView;

    open spec fn view(&self) -> EntryView {
        EntryView { tag: self.tag, kind: self.kind, count: self.count, raw: self.raw@ }
    }
}

/// The values of a list of entries.
pub open spec fn entry_views(es: Seq<IfdEntry>) -> Seq<EntryView> {
    Seq::new(es.len(), |i: int| es[i]@)
}

pub struct Tiff<'a> {
    pub data: &'a [u8],
    pub le: bool,
    pub first_ifd: u32,
}

/// The value of a `Tiff`: its bytes, byte order and first directory.
#[verifier::ext_equal]
pub struct TiffView {
    pub data: Seq<u8>,
    pub le: bool,
    pub first_ifd: u32,
}

impl<'a> View for Tiff<'a> {
    type V = TiffView;

    open spec fn view(&self) -> TiffView {
        TiffView { data: self.data@, le: self.le, first_ifd: self.first_ifd }
    }
}

/// 16-bit value of `s` at `off` in the given byte order.
pub open spec fn word_at(s: Seq<u8>, le: bool, off: int) -> u16 {
    if le {
        bytes::le16_at(s, off) as u16
    } else {
        bytes::be16_at(s, off) as u16
    }
}

/// 32-bit value of `s` at `off` in the given byte order.
pub open spec fn long_at(s: Seq<u8>, le: bool, off: int) -> u32 {
    if le {
        bytes::le32_at(s, off) as u32
    } else {
        bytes::be32_at(s, off) as u32
    }
}

/// The header of a TIFF structure: byte order mark, 42, first directory.
pub open spec fn tiff_header(data: Seq<u8>) -> Result<TiffView, TiffError> {
    if data.len() < 8 {
        Err(TiffError::Truncated)
    } else {
        let le = data[0] == 0x49 && data[1] == 0x49;
        let be = data[0] == 0x4D && data[1] == 0x4D;
        if (!le && !be) || word_at(data, le, 2) != 42 {
            Err(TiffError::BadMagic)
        } else {
            Ok(TiffView { data, le, first_ifd: long_at(data, le, 4) })
        }
    }
}

impl TiffView {
    /// Number of directory entries at `off` that lie inside the data: as many
    /// as the directory claims, cut off where the data ends.
    pub open spec fn entry_count(self, off: int) -> int {
        let n = word_at(self.data, self.le, off) as int;
        let room = (self.data.len() - off - 2) / 12;
        if n <= room {
            n
        } else {
            room
        }
    }

    /// The 12-byte directory entry at `e`.
    pub open spec fn entry_at(self, e: int) -> EntryView {
        EntryView {
            tag: word_at(self.data, self.le, e),
            kind: word_at(self.data, self.le, e + 2),
            count: long_at(self.data, self.le, e + 4),
            raw: self.data.subrange(e + 8, e + 12),
        }
    }

    /// The entries of the directory at `off`; none where there is not even
    /// room for its entry count.
    pub open spec fn entries(self, off: int) -> Seq<EntryView> {
        if bytes::fits(self.data, off, 2) {
            Seq::new(self.entry_count(off) as nat, |i: int| self.entry_at(off + 2 + 12 * i))
        } else {
            Seq::empty()
        }
    }

    /// Offset of the directory that follows the one at `off` (0 = none): it
    /// stands behind all the entries that the directory claims.
    pub open spec fn next_ifd(self, off: int) -> u32 {
        let at = off + 2 + 12 * word_at(self.data, self.le, off);
        if bytes::fits(self.data, off, 2) && bytes::fits(self.data, at, 4) {
            long_at(self.data, self.le, at)
        } else {
            0
        }
    }

    /// Bytes that the value of an entry takes.
    pub open spec fn value_size(self, e: EntryView) -> int {
        type_width(e.kind) * e.count
    }

    /// The bytes of an entry's value: in the entry itself where there are up to
    /// four, else at the offset that the entry holds, where they lie inside the
    /// data.
    pub open spec fn payload(self, e: EntryView) -> Option<Seq<u8>> {
        let off = long_at(e.raw, self.le, 0) as int;
        if self.value_size(e) <= 4 {
            Some(e.raw.take(self.value_size(e)))
        } else if bytes::fits(self.data, off, self.value_size(e)) {
            Some(self.data.subrange(off, off + self.value_size(e)))
        } else {
            None
        }
    }

    /// The text of an ASCII entry: its bytes up to the first zero, trimmed.
    pub open spec fn text(self, e: EntryView) -> Option<Seq<char>> {
        match self.payload(e) {
            Some(b) if e.kind == 2 => Some(text::trimmed(utf8_lossy(before_zero(b)))),
            _ => None,
        }
    }

    /// Where the first value of an entry stands: at the start of the entry's
    /// own four bytes, or at the offset that they hold.
    pub open spec fn first_place(self, e: EntryView) -> (Seq<u8>, int) {
        if self.value_size(e) <= 4 {
            (e.raw, 0)
        } else {
            (self.data, long_at(e.raw, self.le, 0) as int)
        }
    }

    /// The first value of a SHORT or LONG entry, where it lies inside the data.
    pub open spec fn unsigned(self, e: EntryView) -> Option<u32> {
        let (b, at) = self.first_place(e);
        if e.kind == 3 && bytes::fits(b, at, 2) {
            Some(word_at(b, self.le, at) as u32)
        } else if e.kind == 4 && bytes::fits(b, at, 4) {
            Some(long_at(b, self.le, at))
        } else {
            None
        }
    }

    /// The first value of a RATIONAL or SRATIONAL entry.
    pub open spec fn fraction(self, e: EntryView) -> Option<(u32, u32)> {
        match self.payload(e) {
            Some(v) if (e.kind == 5 || e.kind == 10) && e.count > 0 => Some(
                (long_at(v, self.le, 0), long_at(v, self.le, 4)),
            ),
            _ => None,
        }
    }

    /// All values of a SHORT entry.
    pub open spec fn words(self, e: EntryView) -> Option<Seq<u16>> {
        let n = e.count as nat;
        if e.kind != 3 {
            None
        } else if n <= 2 {
            Some(Seq::new(n, |i: int| word_at(e.raw, self.le, 2 * i)))
        } else {
            match self.payload(e) {
                Some(v) => Some(Seq::new(n, |i: int| word_at(v, self.le, 2 * i))),
                None => None,
            }
        }
    }

    /// Where the value of an entry stands that does not fit into the entry.
    pub open spec fn offset_of(self, e: EntryView) -> Option<u32> {
        if self.value_size(e) > 4 {
            Some(long_at(e.raw, self.le, 0))
        } else {
            None
        }
    }
}

/// Bytes per value of a TIFF type; 1 for types that are not known.
pub open spec fn type_width(kind: u16) -> int {
    if kind == 3 || kind == 8 {
        2
    } else if kind == 4 || kind == 9 || kind == 11 {
        4
    } else if kind == 5 || kind == 10 || kind == 12 {
        8
    } else {
        1
    }
}

/// What precedes the first zero byte of `b`; all of it if there is none.
pub open spec fn before_zero(b: Seq<u8>) -> Seq<u8>
    decreases b.len(),
{
    if b.len() == 0 || b[0] == 0 {
        Seq::empty()
    } else {
        seq![b[0]] + before_zero(b.drop_first())
    }
}

/// The text that `String::from_utf8_lossy` of std makes of `b`.
pub uninterp spec fn utf8_lossy(b: Seq<u8>) -> Seq<char>;

/// `String::from_utf8_lossy` of std: the text that `b` encodes, where it is
/// UTF-8. Which replacement characters stand for other bytes is left to the
/// name `utf8_lossy`.
#[verifier::external_body]
fn from_utf8_lossy(b: &[u8]) -> (r: String)
    ensures
        r@ == utf8_lossy(b@),
        valid_utf8(b@) ==> r@ == decode_utf8(b@),
{
    String::from_utf8_lossy(b).into_owned()
}

proof fn lemma_before_zero(b: Seq<u8>, k: int)
    requires
        0 <= k <= b.len(),
        forall|i: int| 0 <= i < k ==> #[trigger] b[i] != 0,
        k < b.len() ==> b[k] == 0,
    ensures
        before_zero(b) == b.take(k),
    decreases b.len(),
{
    if k == 0 {
        assert(b.take(0) =~= Seq::<u8>::empty());
    } else {
        assert(b[0] != 0);
        lemma_before_zero(b.drop_first(), k - 1);
        assert(seq![b[0]] + b.drop_first().take(k - 1) =~= b.take(k));
    }
}

impl<'a> Tiff<'a> {
    pub fn parse(data: &'a [u8]) -> (r: Result<Self, TiffError>)
        ensures
            match r {
                Ok(t) => tiff_header(data@) == Ok::<TiffView, TiffError>(t@),
                Err(e) => tiff_header(data@) == Err::<TiffView, TiffError>(e),
            },
    {
        if data.len() < 8 {
            return Err(TiffError::Truncated);
        }
        let le = data[0] == 0x49 && data[1] == 0x49;
        let be = data[0] == 0x4D && data[1] == 0x4D;
        if !le && !be {
            return Err(TiffError::BadMagic);
        }
        let t = Tiff { data, le, first_ifd: 0 };
        if t.u16(2).unwrap() != 42 {
            return Err(TiffError::BadMagic);
        }
        let first_ifd: u32 = t.u32(4).unwrap();
        Ok(Tiff { data, le, first_ifd })
    }

    pub fn u16(&self, off: usize) -> (r: Option<u16>)
        ensures
            r == (if bytes::fits(self.data@, off as int, 2) {
                Some(word_at(self.data@, self.le, off as int))
            } else {
                None
            }),
    {
        if self.le {
            bytes::le16(self.data, off)
        } else {
            bytes::be16(self.data, off)
        }
    }

    pub fn u32(&self, off: usize) -> (r: Option<u32>)
        ensures
            r == (if bytes::fits(self.data@, off as int, 4) {
                Some(long_at(self.data@, self.le, off as int))
            } else {
                None
            }),
    {
        self.long_in(self.data, off)
    }

    /// 32-bit value of `b` at `off` in this structure's byte order.
    pub(crate) fn long_in(&self, b: &[u8], off: usize) -> (r: Option<u32>)
        ensures
            r == (if bytes::fits(b@, off as int, 4) {
                Some(long_at(b@, self.le, off as int))
            } else {
                None
            }),
    {
        if self.le {
            bytes::le32(b, off)
        } else {
            bytes::be32(b, off)
        }
    }

    /// 16-bit value of `b` at `off` in this structure's byte order.
    fn word_in(&self, b: &[u8], off: usize) -> (r: Option<u16>)
        ensures
            r == (if bytes::fits(b@, off as int, 2) {
                Some(word_at(b@, self.le, off as int))
            } else {
                None
            }),
    {
        if self.le {
            bytes::le16(b, off)
        } else {
            bytes::be16(b, off)
        }
    }

    fn raw_u16(&self, raw: &[u8; 4]) -> (r: u16)
        ensures
            r == word_at(raw@, self.le, 0),
    {
        self.word_in(raw, 0).unwrap()
    }

    fn raw_u32(&self, raw: &[u8; 4]) -> (r: u32)
        ensures
            r == long_at(raw@, self.le, 0),
    {
        self.long_in(raw, 0).unwrap()
    }

    /// Parse the IFD at `offset`; returns entries and the next-IFD offset
    /// (0 = none). Tolerates truncation by returning what fits.
    pub fn ifd(&self, offset: u32) -> (r: (Vec<IfdEntry>, u32))
        ensures
            entry_views(r.0@) == self@.entries(offset as int),
            r.1 == self@.next_ifd(offset as int),
    {
        let off: usize = offset as usize;
        let mut entries: Vec<IfdEntry> = Vec::new();
        let n: usize = match self.u16(off) {
            Some(n) => n as usize,
            None => {
                assert(entry_views(entries@) =~= self@.entries(offset as int));
                return (entries, 0);
            },
        };
        let room: usize = (self.data.len() - off - 2) / 12;
        let k: usize = if n <= room {
            n
        } else {
            room
        };
        let mut i: usize = 0;
        while i < k
            invariant
                i <= k,
                k <= 0xffff,
                off == offset,
                off + 2 + 12 * k <= self.data.len(),
                entries.len() == i,
                forall|j: int|
                    0 <= j < i ==> (#[trigger] entries@[j])@ == self@.entry_at(off + 2 + 12 * j),
            decreases k - i,
        {
            let e: usize = off + 2 + i * 12;
            let tag: u16 = self.u16(e).unwrap();
            let kind: u16 = self.u16(e + 2).unwrap();
            let count: u32 = self.u32(e + 4).unwrap();
            let raw: [u8; 4] = [
                self.data[e + 8],
                self.data[e + 9],
                self.data[e + 10],
                self.data[e + 11],
            ];
            assert(raw@ =~= self.data@.subrange(e + 8, e + 12));
            entries.push(IfdEntry { tag, kind, count, raw });
            i += 1;
        }
        assert(entry_views(entries@) =~= self@.entries(offset as int));
        if k < n {
            return (entries, 0);
        }
        let next: u32 = match self.u32(off + 2 + k * 12) {
            Some(v) => v,
            None => 0,
        };
        (entries, next)
    }

    fn type_size(kind: u16) -> (r: usize)
        ensures
            r == type_width(kind),
    {
        match kind {
            3 | 8 => 2,  // SHORT, SSHORT
            4 | 9 | 11 => 4,  // LONG, SLONG, FLOAT
            5 | 10 | 12 => 8,  // RATIONAL, SRATIONAL, DOUBLE
            _ => 1,  // BYTE, ASCII, SBYTE, UNDEFINED
        }
    }

    /// Bytes that the value of an entry takes.
    fn size_of_value(&self, e: &IfdEntry) -> (r: u64)
        ensures
            r == self@.value_size(e@),
    {
        let w: u64 = Self::type_size(e.kind) as u64;
        let n: u64 = e.count as u64;
        assert(w * n <= 8 * 0xffff_ffff) by (nonlinear_arith)
            requires
                w <= 8,
                n <= 0xffff_ffff,
        ;
        w * n
    }

    /// Slice holding the entry's value payload (inline or offset-addressed).
    pub fn value_bytes<'b>(&self, e: &'b IfdEntry) -> (r: Option<&'b [u8]>)
        where 'a: 'b
        ensures
            r is Some <==> self@.payload(e@) is Some,
            r is Some ==> r->0@ == self@.payload(e@)->0,
    {
        let size: u64 = self.size_of_value(e);
        if size <= 4 {
            let part = vstd::slice::slice_subrange(e.raw.as_slice(), 0, size as usize);
            assert(part@ =~= e@.raw.take(size as int));
            return Some(part);
        }
        let off: u64 = self.raw_u32(&e.raw) as u64;
        let len: u64 = self.data.len() as u64;
        if size > len || off > len - size {
            return None;
        }
        Some(vstd::slice::slice_subrange(self.data, off as usize, (off + size) as usize))
    }

    /// Text of an ASCII entry.
    pub fn ascii(&self, e: &IfdEntry) -> (r: Option<String>)
        ensures
            path::opt_view(r) == self@.text(e@),
    {
        if e.kind != 2 {
            return None;
        }
        let all: &[u8] = self.value_bytes(e)?;
        let mut end: usize = 0;
        while end < all.len() && all[end] != 0
            invariant
                end <= all.len(),
                forall|i: int| 0 <= i < end ==> #[trigger] all@[i] != 0,
            decreases all.len() - end,
        {
            end += 1;
        }
        proof {
            lemma_before_zero(all@, end as int);
        }
        let head = vstd::slice::slice_subrange(all, 0, end);
        assert(head@ =~= all@.take(end as int));
        let s = from_utf8_lossy(head);
        Some(text::string_of(&text::trim(&text::chars_of(s.as_str()))))
    }

    /// First value as u32 (SHORT or LONG).
    pub fn uint(&self, e: &IfdEntry) -> (r: Option<u32>)
        ensures
            r == self@.unsigned(e@),
    {
        let inline = self.size_of_value(e) <= 4;
        let at: usize = self.raw_u32(&e.raw) as usize;
        match e.kind {
            3 => if inline {
                Some(self.raw_u16(&e.raw) as u32)
            } else {
                match self.u16(at) {
                    Some(v) => Some(v as u32),
                    None => None,
                }
            },
            4 => if inline {
                Some(self.raw_u32(&e.raw))
            } else {
                self.u32(at)
            },
            _ => None,
        }
    }

    /// First value as unsigned rational (num, den).
    pub fn rational(&self, e: &IfdEntry) -> (r: Option<(u32, u32)>)
        ensures
            r == self@.fraction(e@),
    {
        if (e.kind != 5 && e.kind != 10) || e.count == 0 {
            return None;
        }
        let v = self.value_bytes(e)?;
        Some((self.long_in(v, 0).unwrap(), self.long_in(v, 4).unwrap()))
    }

    /// All values of a SHORT entry.
    pub fn u16s(&self, e: &IfdEntry) -> (r: Option<Vec<u16>>)
        ensures
            r is Some <==> self@.words(e@) is Some,
            r is Some ==> r->0@ == self@.words(e@)->0,
    {
        if e.kind != 3 {
            return None;
        }
        let all: &[u8] = if e.count <= 2 {
            e.raw.as_slice()
        } else {
            self.value_bytes(e)?
        };
        let n: usize = e.count as usize;
        let mut out: Vec<u16> = Vec::new();
        let mut i: usize = 0;
        while i < n
            invariant
                i <= n,
                n <= 0xffff_ffff,
                2 * n <= all.len(),
                out@ == Seq::new(i as nat, |j: int| word_at(all@, self.le, 2 * j)),
            decreases n - i,
        {
            out.push(self.word_in(all, 2 * i).unwrap());
            assert(out@ =~= Seq::new((i + 1) as nat, |j: int| word_at(all@, self.le, 2 * j)));
            i += 1;
        }
        Some(out)
    }

    /// Where the value of an entry stands that does not fit into the entry.
    pub fn value_offset(&self, e: &IfdEntry) -> (r: Option<u32>)
        ensures
            r == self@.offset_of(e@),
    {
        if self.size_of_value(e) > 4 {
            Some(self.raw_u32(&e.raw))
        } else {
            None
        }
    }
}

/// The bytes of a 16-bit number in a byte order.
pub open spec fn word_bytes(le: bool, v: u16) -> Seq<u8> {
    if le {
        bytes::be16_bytes(v).reverse()
    } else {
        bytes::be16_bytes(v)
    }
}

/// The bytes of a 32-bit number in a byte order.
pub open spec fn long_bytes(le: bool, v: u32) -> Seq<u8> {
    if le {
        bytes::be32_bytes(v).reverse()
    } else {
        bytes::be32_bytes(v)
    }
}

proof fn lemma_word(s: Seq<u8>, le: bool, off: int, v: u16)
    requires
        0 <= off,
        off + 2 <= s.len(),
        s.subrange(off, off + 2) == word_bytes(le, v),
    ensures
        word_at(s, le, off) == v,
{
    bytes::numbers_read_back(s, off, v, 0, 0);
}

proof fn lemma_long(s: Seq<u8>, le: bool, off: int, v: u32)
    requires
        0 <= off,
        off + 4 <= s.len(),
        s.subrange(off, off + 4) == long_bytes(le, v),
    ensures
        long_at(s, le, off) == v,
{
    bytes::numbers_read_back(s, off, 0, v, 0);
}

/// The bytes of a directory entry in a byte order.
pub open spec fn entry_bytes(le: bool, e: EntryView) -> Seq<u8> {
    word_bytes(le, e.tag) + word_bytes(le, e.kind) + long_bytes(le, e.count) + e.raw
}

/// The bytes of the first `k` entries of a directory in a byte order.
pub open spec fn entries_bytes(le: bool, es: Seq<EntryView>, k: int) -> Seq<u8>
    decreases k,
{
    if k <= 0 {
        Seq::empty()
    } else {
        entries_bytes(le, es, k - 1) + entry_bytes(le, es[k - 1])
    }
}

proof fn lemma_entries_bytes(le: bool, es: Seq<EntryView>, k: int, i: int)
    requires
        0 <= i < k <= es.len(),
        forall|j: int| 0 <= j < es.len() ==> (#[trigger] es[j]).raw.len() == 4,
    ensures
        entries_bytes(le, es, k).len() == 12 * k,
        entries_bytes(le, es, k).subrange(12 * i, 12 * i + 12) == entry_bytes(le, es[i]),
        entry_bytes(le, es[i]).len() == 12,
    decreases k,
{
    assert(es[k - 1].raw.len() == 4 && es[i].raw.len() == 4);
    let rest = entries_bytes(le, es, k - 1);
    let all = entries_bytes(le, es, k);
    if k > 1 {
        lemma_entries_bytes(le, es, k - 1, if i < k - 1 {
            i
        } else {
            0
        });
    }
    assert(rest.len() == 12 * (k - 1));
    if i < k - 1 {
        assert(all.subrange(12 * i, 12 * i + 12) =~= rest.subrange(12 * i, 12 * i + 12));
    } else {
        assert(all.subrange(12 * i, 12 * i + 12) =~= entry_bytes(le, es[i]));
    }
}

/// A header is read back from its bytes in either byte order; anything else
/// than "II" or "MM" and 42 is none.
pub proof fn headers_read_back(le: bool, first: u32, rest: Seq<u8>)
    ensures
        ({
            let mark = if le {
                seq![0x49u8, 0x49]
            } else {
                seq![0x4Du8, 0x4D]
            };
            let data = mark + word_bytes(le, 42) + long_bytes(le, first) + rest;
            tiff_header(data) == Ok::<TiffView, TiffError>(
                TiffView { data, le, first_ifd: first },
            )
        }),
{
    let mark = if le {
        seq![0x49u8, 0x49]
    } else {
        seq![0x4Du8, 0x4D]
    };
    let data = mark + word_bytes(le, 42) + long_bytes(le, first) + rest;
    assert(data[0] == mark[0] && data[1] == mark[1]);
    assert(data.subrange(2, 4) =~= word_bytes(le, 42));
    assert(data.subrange(4, 8) =~= long_bytes(le, first));
    lemma_word(data, le, 2, 42);
    lemma_long(data, le, 4, first);
}

/// A directory is read back from its bytes, in either byte order and wherever
/// it stands: how many entries it has, each entry, and where the next
/// directory is.
pub proof fn directories_read_back(
    t: TiffView,
    off: int,
    es: Seq<EntryView>,
    next: u32,
    i: int,
)
    requires
        es.len() <= 0xffff,
        0 <= i < es.len(),
        0 <= off,
        off + 2 + 12 * es.len() + 4 <= t.data.len(),
        forall|j: int| 0 <= j < es.len() ==> (#[trigger] es[j]).raw.len() == 4,
        t.data.subrange(off, off + 2) == word_bytes(t.le, es.len() as u16),
        t.data.subrange(off + 2, off + 2 + 12 * es.len()) == entries_bytes(
            t.le,
            es,
            es.len() as int,
        ),
        t.data.subrange(off + 2 + 12 * es.len(), off + 6 + 12 * es.len()) == long_bytes(t.le, next),
    ensures
        t.entries(off).len() == es.len(),
        t.entries(off)[i] == es[i],
        t.next_ifd(off) == next,
{
    let n = es.len() as int;
    let e = off + 2 + 12 * i;
    lemma_word(t.data, t.le, off, n as u16);
    lemma_entries_bytes(t.le, es, n, i);
    let all = t.data.subrange(off + 2, off + 2 + 12 * n);
    let b = entry_bytes(t.le, es[i]);
    assert(all.subrange(12 * i, 12 * i + 12) =~= t.data.subrange(e, e + 12));
    assert(t.data.subrange(e, e + 12) == b);
    assert(es[i].raw.len() == 4);
    assert(t.data.subrange(e, e + 2) =~= b.subrange(0, 2));
    assert(b.subrange(0, 2) =~= word_bytes(t.le, es[i].tag));
    assert(t.data.subrange(e + 2, e + 4) =~= b.subrange(2, 4));
    assert(b.subrange(2, 4) =~= word_bytes(t.le, es[i].kind));
    assert(t.data.subrange(e + 4, e + 8) =~= b.subrange(4, 8));
    assert(b.subrange(4, 8) =~= long_bytes(t.le, es[i].count));
    assert(t.data.subrange(e + 8, e + 12) =~= b.subrange(8, 12));
    assert(b.subrange(8, 12) =~= es[i].raw);
    lemma_word(t.data, t.le, e, es[i].tag);
    lemma_word(t.data, t.le, e + 2, es[i].kind);
    lemma_long(t.data, t.le, e + 4, es[i].count);
    lemma_long(t.data, t.le, off + 2 + 12 * n, next);
    assert(t.entry_count(off) == n);
}

/// A single number is read back from its entry: a SHORT from the first two of
/// its four bytes, a LONG from all of them.
pub proof fn numbers_read_back_from_entries(t: TiffView, e: EntryView, a: u16, b: u32)
    requires
        e.raw.len() == 4,
        e.count == 1,
    ensures
        e.kind == 3 && e.raw.take(2) == word_bytes(t.le, a) ==> t.unsigned(e) == Some(a as u32)
            && t.words(e) == Some(seq![a]),
        e.kind == 4 && e.raw == long_bytes(t.le, b) ==> t.unsigned(e) == Some(b),
        e.kind != 3 && e.kind != 4 ==> t.unsigned(e) is None,
{
    assert(type_width(3) * 1 == 2 && type_width(4) * 1 == 4);
    assert(e.raw.subrange(0, 2) =~= e.raw.take(2));
    assert(e.raw.subrange(0, 4) =~= e.raw);
    if e.kind == 3 && e.raw.take(2) == word_bytes(t.le, a) {
        lemma_word(e.raw, t.le, 0, a);
        assert(t.words(e)->0 =~= seq![a]);
    }
    if e.kind == 4 && e.raw == long_bytes(t.le, b) {
        lemma_long(e.raw, t.le, 0, b);
    }
}

/// A fraction is read back from where its entry points.
pub proof fn fractions_read_back(t: TiffView, e: EntryView, off: u32, n: u32, d: u32)
    requires
        e.raw == long_bytes(t.le, off),
        e.count == 1,
        e.kind == 5 || e.kind == 10,
        off + 8 <= t.data.len(),
        t.data.subrange(off as int, off + 4) == long_bytes(t.le, n),
        t.data.subrange(off + 4, off + 8) == long_bytes(t.le, d),
    ensures
        t.fraction(e) == Some((n, d)),
{
    assert(e.raw.len() == 4);
    assert(e.raw.subrange(0, 4) =~= e.raw);
    lemma_long(e.raw, t.le, 0, off);
    assert(type_width(e.kind) * 1 == 8);
    let v = t.data.subrange(off as int, off + 8);
    assert(v.subrange(0, 4) =~= t.data.subrange(off as int, off + 4));
    assert(v.subrange(4, 8) =~= t.data.subrange(off + 4, off + 8));
    lemma_long(v, t.le, 0, n);
    lemma_long(v, t.le, 4, d);
}

/// The bytes of a value are those in the entry where there are up to four of
/// them, and those that it points to where there are more; none where these
/// do not lie inside the data.
pub proof fn values_are_where_the_entry_says(t: TiffView, e: EntryView, off: u32)
    requires
        e.raw == long_bytes(t.le, off),
        e.kind == 1 || e.kind == 2 || e.kind == 7,
    ensures
        e.count <= 4 ==> t.payload(e) == Some(e.raw.take(e.count as int)) && t.offset_of(e) is None,
        e.count > 4 ==> t.offset_of(e) == Some(off) && t.payload(e) == if off + e.count
            <= t.data.len() {
            Some(t.data.subrange(off as int, off + e.count))
        } else {
            None
        },
{
    assert(e.raw.len() == 4);
    assert(e.raw.subrange(0, 4) =~= e.raw);
    lemma_long(e.raw, t.le, 0, off);
    assert(type_width(e.kind) * e.count == e.count) by (nonlinear_arith)
        requires
            type_width(e.kind) == 1,
    ;
}

/// Text ends at the first zero byte, and is all there is where there is none.
pub proof fn text_ends_at_the_first_zero(a: Seq<u8>, rest: Seq<u8>)
    requires
        forall|i: int| 0 <= i < a.len() ==> #[trigger] a[i] != 0,
    ensures
        before_zero(a) == a,
        before_zero(a + seq![0u8] + rest) == a,
    decreases a.len(),
{
    let b = a + seq![0u8] + rest;
    if a.len() > 0 {
        let tail = a.drop_first();
        assert forall|i: int| 0 <= i < tail.len() implies #[trigger] tail[i] != 0 by {
            assert(tail[i] == a[i + 1]);
        }
        text_ends_at_the_first_zero(tail, rest);
        assert(b.drop_first() =~= tail + seq![0u8] + rest);
        assert(seq![a[0]] + tail =~= a);
        assert(b[0] == a[0]);
    } else {
        assert(b[0] == 0);
        assert(a =~= Seq::<u8>::empty());
    }
}

/// TIFF's types take the bytes that the format gives them.
pub proof fn types_take_their_bytes()
    ensures
        type_width(1) == 1 && type_width(2) == 1 && type_width(3) == 2 && type_width(4) == 4,
        type_width(5) == 8 && type_width(6) == 1 && type_width(7) == 1 && type_width(8) == 2,
        type_width(9) == 4 && type_width(10) == 8 && type_width(11) == 4 && type_width(12) == 8,
{
}

} // verus!
