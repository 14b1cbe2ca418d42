//! CR3 (ISO-BMFF) header parser. Reads only the moov area plus box headers:
//! EXIF from CMT1/CMT2, the AF area from CMT3, thumbnail from THMB, preview
//! byte range from CTBO, full-resolution embedded JPEG range from the trak
//! sample tables. Raw CRX track data is never touched.

use vstd::prelude::*;
use super::canon;
use super::exif;
use super::tiff;
use super::tiff::Tiff;
use crate::bytes;
use crate::bytes::{be16, be32, be64};
use crate::io::{past_end, ReadRange};
use crate::meta;
use crate::meta::{ByteRange, FileMeta, PreviewInfo};

verus! {

// Box types, as big-endian numbers.
pub const FTYP: u32 = 0x66747970;
pub const CRX: u32 = 0x63727820;
pub const MOOV: u32 = 0x6d6f6f76;
pub const UUID: u32 = 0x75756964;
pub const CMT1: u32 = 0x434d5431;
pub const CMT2: u32 = 0x434d5432;
pub const CMT3: u32 = 0x434d5433;
pub const THMB: u32 = 0x54484d42;
pub const CTBO: u32 = 0x4354424f;
pub const TRAK: u32 = 0x7472616b;
pub const MDIA: u32 = 0x6d646961;
pub const MINF: u32 = 0x6d696e66;
pub const STBL: u32 = 0x7374626c;
pub const STSD: u32 = 0x73747364;
pub const STSZ: u32 = 0x7374737a;
pub const CO64: u32 = 0x636f3634;
pub const STCO: u32 = 0x7374636f;
pub const JPEG: u32 = 0x4a504547;
pub const CMP1: u32 = 0x434d5031;
pub const PRVW: u32 = 0x50525657;

/// Canon metadata uuid inside moov, in two halves.
pub const UUID_CANON_META: (u64, u64) = (0x85c0b687820f11e0, 0x8111f4ce462b6a48);

/// Preview uuid (top level, holds PRVW box), in two halves.
pub const UUID_PREVIEW: (u64, u64) = (0xeaf42b5e1c984b88, 0xb9fbb7dc406e4d16);

#[derive(Debug)]
pub enum Cr3Error {
    /// Not a CR3 file.
    NotCr3,
    /// Reading failed.
    Io(std::io::Error),
}

/// A box: its type, where its payload starts in the buffer that holds it, and
/// how long the payload claims to be.
#[derive(Debug, Clone, Copy, PartialEq, Eq, Structural)]
pub struct BoxAt {
    pub kind: u32,
    pub start: usize,
    pub len: u64,
}

/// Bytes of header of the box at `pos`: 16 where its size takes 64 bits.
pub open spec fn box_header(buf: Seq<u8>, pos: int) -> int {
    if bytes::be32_at(buf, pos) == 1 {
        16
    } else {
        8
    }
}

/// Size of the box at `pos`; a size of 0 stands for all that is left.
pub open spec fn box_size(buf: Seq<u8>, pos: int) -> int {
    let s = bytes::be32_at(buf, pos);
    if s == 1 {
        bytes::be64_at(buf, pos + 8)
    } else if s == 0 {
        buf.len() - pos
    } else {
        s
    }
}

/// Whether a box starts at `pos`.
pub open spec fn is_box(buf: Seq<u8>, pos: int) -> bool {
    &&& bytes::fits(buf, pos, 8)
    &&& bytes::fits(buf, pos, box_header(buf, pos))
    &&& box_size(buf, pos) >= box_header(buf, pos)
}

/// The box at `pos`.
pub open spec fn box_at(buf: Seq<u8>, pos: int) -> BoxAt {
    BoxAt {
        kind: bytes::be32_at(buf, pos + 4) as u32,
        start: (pos + box_header(buf, pos)) as usize,
        len: (box_size(buf, pos) - box_header(buf, pos)) as u64,
    }
}

/// The boxes of `buf` from `pos` on, each starting where the one before it
/// ends.
pub open spec fn boxes(buf: Seq<u8>, pos: int) -> Seq<BoxAt>
    decreases buf.len() - pos,
{
    if !is_box(buf, pos) {
        Seq::empty()
    } else if pos + box_size(buf, pos) > buf.len() {
        seq![box_at(buf, pos)]
    } else {
        seq![box_at(buf, pos)] + boxes(buf, pos + box_size(buf, pos))
    }
}

/// The boxes of `buf`.
fn walk(buf: &[u8]) -> (r: Vec<BoxAt>)
    ensures
        r@ == boxes(buf@, 0),
        forall|i: int| 0 <= i < r.len() ==> (#[trigger] r[i]).start <= buf.len(),
{
    let mut out: Vec<BoxAt> = Vec::new();
    let mut pos: usize = 0;
    while buf.len() >= 8 && pos <= buf.len() - 8
        invariant_except_break
            pos <= buf.len(),
            out@ + boxes(buf@, pos as int) == boxes(buf@, 0),
            forall|i: int| 0 <= i < out.len() ==> (#[trigger] out[i]).start <= buf.len(),
        ensures
            out@ == boxes(buf@, 0),
            forall|i: int| 0 <= i < out.len() ==> (#[trigger] out[i]).start <= buf.len(),
        decreases buf.len() - pos,
    {
        let size32: u64 = be32(buf, pos).unwrap() as u64;
        let kind: u32 = be32(buf, pos + 4).unwrap();
        let hdr: u64 = if size32 == 1 {
            16
        } else {
            8
        };
        let size: u64 = if size32 == 1 {
            match be64(buf, pos + 8) {
                Some(s) => s,
                None => {
                    assert(boxes(buf@, pos as int) =~= Seq::<BoxAt>::empty());
                    break;
                },
            }
        } else if size32 == 0 {
            (buf.len() - pos) as u64
        } else {
            size32
        };
        if size < hdr {
            assert(boxes(buf@, pos as int) =~= Seq::<BoxAt>::empty());
            break;
        }
        let ghost before = out@;
        out.push(BoxAt { kind, start: pos + hdr as usize, len: size - hdr });
        assert(is_box(buf@, pos as int));
        if size > (buf.len() - pos) as u64 {
            assert(out@ =~= before + boxes(buf@, pos as int));
            break;
        }
        assert(out@ + boxes(buf@, pos + size) =~= before + (seq![box_at(buf@, pos as int)]
            + boxes(buf@, pos + size)));
        pos += size as usize;
    }
    out
}

/// The first box of the given type.
pub open spec fn first_box(bs: Seq<BoxAt>, kind: u32) -> Option<BoxAt>
    decreases bs.len(),
{
    if bs.len() == 0 {
        None
    } else if bs[0].kind == kind {
        Some(bs[0])
    } else {
        first_box(bs.drop_first(), kind)
    }
}

fn find(bs: &Vec<BoxAt>, kind: u32) -> (r: Option<BoxAt>)
    ensures
        r == first_box(bs@, kind),
        r is Some ==> bs@.contains(r->0),
{
    let mut i: usize = 0;
    assert(bs@.skip(0) =~= bs@);
    while i < bs.len()
        invariant
            i <= bs.len(),
            first_box(bs@, kind) == first_box(bs@.skip(i as int), kind),
        decreases bs.len() - i,
    {
        assert(bs@.skip(i as int)[0] == bs[i as int]);
        if bs[i].kind == kind {
            return Some(bs[i]);
        }
        assert(bs@.skip(i as int).drop_first() =~= bs@.skip(i + 1));
        i += 1;
    }
    None
}

/// The payload of a box, where all of it lies inside `buf`.
pub open spec fn payload(buf: Seq<u8>, b: BoxAt) -> Option<Seq<u8>> {
    if b.start + b.len <= buf.len() {
        Some(buf.subrange(b.start as int, b.start + b.len))
    } else {
        None
    }
}

/// The payload of a box, where all of it lies inside `buf`.
fn payload_of<'a>(buf: &'a [u8], b: &BoxAt) -> (r: Option<&'a [u8]>)
    ensures
        r is Some <==> payload(buf@, *b) is Some,
        r is Some ==> r->0@ == payload(buf@, *b)->0,
{
    if b.start > buf.len() || b.len > (buf.len() - b.start) as u64 {
        return None;
    }
    Some(vstd::slice::slice_subrange(buf, b.start, b.start + b.len as usize))
}

/// The payload of the first box of the given type inside `buf`.
pub open spec fn child(buf: Seq<u8>, kind: u32) -> Option<Seq<u8>> {
    match first_box(boxes(buf, 0), kind) {
        Some(b) => payload(buf, b),
        None => None,
    }
}

fn child_of<'a>(buf: &'a [u8], kind: u32) -> (r: Option<&'a [u8]>)
    ensures
        r is Some <==> child(buf@, kind) is Some,
        r is Some ==> r->0@ == child(buf@, kind)->0,
{
    let b = find(&walk(buf), kind)?;
    payload_of(buf, &b)
}

/// Index of the first JPEG start-of-image marker from `from` on and below
/// `end`.
pub open spec fn first_soi(buf: Seq<u8>, from: int, end: int) -> Option<int>
    decreases end - from,
{
    if from >= end || from + 1 >= buf.len() {
        None
    } else if buf[from] == 0xFF && buf[from + 1] == 0xD8 {
        Some(from)
    } else {
        first_soi(buf, from + 1, end)
    }
}

/// Locate a JPEG SOI marker within the `window` bytes of `buf` after `from`.
fn find_soi(buf: &[u8], from: usize, window: usize) -> (r: Option<usize>)
    requires
        from <= buf.len(),
    ensures
        r is Some <==> first_soi(buf@, from as int, from + window) is Some,
        r is Some ==> r->0 == first_soi(buf@, from as int, from + window)->0 && from <= r->0
            && r->0 + 1 < buf.len(),
{
    let mut i: usize = from;
    while i - from < window && buf.len() - i >= 2
        invariant
            from <= i <= buf.len(),
            i - from <= window,
            first_soi(buf@, from as int, from + window) == first_soi(
                buf@,
                i as int,
                from + window,
            ),
        decreases buf.len() - i,
    {
        if buf[i] == 0xFF && buf[i + 1] == 0xD8 {
            return Some(i);
        }
        i += 1;
    }
    None
}

/// Index of the first place below `end` where the four bytes `code` stand.
pub open spec fn first_code(buf: Seq<u8>, code: u32, from: int, end: int) -> Option<int>
    decreases end - from,
{
    if from >= end || from + 4 > buf.len() {
        None
    } else if bytes::be32_at(buf, from) == code {
        Some(from)
    } else {
        first_code(buf, code, from + 1, end)
    }
}

/// Index of the first place below `end` where the four bytes `code` stand.
fn find_code(buf: &[u8], code: u32, end: usize) -> (r: Option<usize>)
    ensures
        r is Some <==> first_code(buf@, code, 0, end as int) is Some,
        r is Some ==> r->0 == first_code(buf@, code, 0, end as int)->0 && r->0 + 4 <= buf.len(),
{
    let mut i: usize = 0;
    while i < end && buf.len() >= 4 && i <= buf.len() - 4
        invariant
            i <= end,
            first_code(buf@, code, 0, end as int) == first_code(buf@, code, i as int, end as int),
        decreases end - i,
    {
        if be32(buf, i).unwrap() == code {
            return Some(i);
        }
        i += 1;
    }
    None
}

/// What the sample tables of a track say.
#[derive(Debug, Clone, Copy, PartialEq, Eq, Structural)]
pub struct TrakInfo {
    pub is_jpeg: bool,
    pub width: u32,
    pub height: u32,
    /// Byte range of the first sample.
    pub sample0: ByteRange,
}

/// The sample table of a track: trak/mdia/minf/stbl.
pub open spec fn sample_table(trak: Seq<u8>) -> Option<Seq<u8>> {
    match child(trak, MDIA) {
        Some(mdia) => match child(mdia, MINF) {
            Some(minf) => child(minf, STBL),
            None => None,
        },
        None => None,
    }
}

/// Size of the first sample from an stsz payload: ver/flags(4)
/// sample_size(4) count(4) [sizes...].
pub open spec fn first_size(stsz: Seq<u8>) -> Option<int> {
    if !bytes::fits(stsz, 4, 4) {
        None
    } else if bytes::be32_at(stsz, 4) != 0 {
        Some(bytes::be32_at(stsz, 4))
    } else if bytes::fits(stsz, 12, 4) {
        Some(bytes::be32_at(stsz, 12))
    } else {
        None
    }
}

/// Offset of the first sample: from a co64 box where there is one, else from
/// an stco box.
pub open spec fn first_offset(stbl: Seq<u8>) -> Option<int> {
    if first_box(boxes(stbl, 0), CO64) is Some {
        match child(stbl, CO64) {
            Some(p) if bytes::fits(p, 8, 8) => Some(bytes::be64_at(p, 8)),
            _ => None,
        }
    } else {
        match child(stbl, STCO) {
            Some(p) if bytes::fits(p, 8, 4) => Some(bytes::be32_at(p, 8)),
            _ => None,
        }
    }
}

/// Whether a sample entry is that of the full-size JPEG track: it holds a
/// JPEG box near its start and no CMP1 box.
pub open spec fn jpeg_entry(entry: Seq<u8>) -> bool {
    first_code(entry, JPEG, 0, 256) is Some && first_code(entry, CMP1, 0, 256) is None
}

/// What the sample tables of a track say.
pub open spec fn trak_info(trak: Seq<u8>) -> Option<TrakInfo> {
    match sample_table(trak) {
        Some(stbl) => match (child(stbl, STSD), child(stbl, STSZ), first_offset(stbl)) {
            (Some(stsd), Some(stsz), Some(off)) => match first_size(stsz) {
                Some(size) if stsd.len() >= 8 => {
                    let entry = stsd.skip(8);
                    // VisualSampleEntry: width/height at +32/+34
                    let sized = bytes::fits(entry, 32, 4);
                    Some(
                        TrakInfo {
                            is_jpeg: jpeg_entry(entry),
                            width: if sized {
                                bytes::be16_at(entry, 32) as u32
                            } else {
                                0
                            },
                            height: if sized {
                                bytes::be16_at(entry, 34) as u32
                            } else {
                                0
                            },
                            sample0: ByteRange { offset: off as u64, len: size as u64 },
                        },
                    )
                },
                _ => None,
            },
            _ => None,
        },
        None => None,
    }
}

/// Offset of the first sample in a sample table.
fn offset_of_first(stbl: &[u8]) -> (r: Option<u64>)
    ensures
        r is Some <==> first_offset(stbl@) is Some,
        r is Some ==> r->0 == first_offset(stbl@)->0,
{
    let bs = walk(stbl);
    if let Some(b) = find(&bs, CO64) {
        be64(payload_of(stbl, &b)?, 8)
    } else if let Some(b) = find(&bs, STCO) {
        match be32(payload_of(stbl, &b)?, 8) {
            Some(v) => Some(v as u64),
            None => None,
        }
    } else {
        None
    }
}

/// Descend trak/mdia/minf/stbl; read stsd (format), stsz (size), co64/stco.
fn parse_trak(buf: &[u8]) -> (r: Option<TrakInfo>)
    ensures
        r == trak_info(buf@),
{
    let mdia = child_of(buf, MDIA)?;
    let minf = child_of(mdia, MINF)?;
    let stbl = child_of(minf, STBL)?;
    // stsd: ver/flags(4) entry_count(4) entries...
    let stsd = child_of(stbl, STSD)?;
    if stsd.len() < 8 {
        return None;
    }
    let entry = vstd::slice::slice_subrange(stsd, 8, stsd.len());
    assert(entry@ =~= stsd@.skip(8));
    let sized = entry.len() >= 36;
    let width: u32 = if sized {
        be16(entry, 32).unwrap() as u32
    } else {
        0
    };
    let height: u32 = if sized {
        be16(entry, 34).unwrap() as u32
    } else {
        0
    };
    // Full-size JPEG track: sample entry format CRAW containing a JPEG box
    // (CRX tracks contain CMP1 instead). Scan is robust across layouts.
    let is_jpeg = find_code(entry, JPEG, 256).is_some() && find_code(entry, CMP1, 256).is_none();
    // stsz: ver/flags(4) sample_size(4) count(4) [sizes...]
    let stsz = child_of(stbl, STSZ)?;
    let fixed: u32 = be32(stsz, 4)?;
    let size0: u32 = if fixed != 0 {
        fixed
    } else {
        be32(stsz, 12)?
    };
    let off0: u64 = offset_of_first(stbl)?;
    Some(
        TrakInfo {
            is_jpeg,
            width,
            height,
            sample0: ByteRange { offset: off0, len: size0 as u64 },
        },
    )
}

/// Width and height of a preview and the place of its JPEG stream.
#[verifier::ext_equal]
pub struct Prvw {
    pub start: int,
    pub len: int,
    pub width: int,
    pub height: int,
}

/// The JPEG inside a preview-uuid area: the PRVW tag is near its start; from
/// it on come width (+10), height (+12), JPEG size (+16), and the stream
/// within the 32 bytes after +20.
pub open spec fn prvw_jpeg(buf: Seq<u8>) -> Option<Prvw> {
    match first_code(buf, PRVW, 0, 128) {
        Some(p) if p + 20 <= buf.len() => match first_soi(buf, p + 20, p + 52) {
            Some(soi) => {
                let size = bytes::be32_at(buf, p + 16);
                Some(
                    Prvw {
                        start: soi,
                        len: if size <= buf.len() - soi {
                            size
                        } else {
                            buf.len() - soi
                        },
                        width: bytes::be16_at(buf, p + 10),
                        height: bytes::be16_at(buf, p + 12),
                    },
                )
            },
            None => None,
        },
        _ => None,
    }
}

/// Parse a preview-uuid area (as read from `FileMeta::preview.range`) and
/// return the bare JPEG range *within* that buffer plus dimensions.
pub fn locate_prvw_jpeg(buf: &[u8]) -> (r: Option<(usize, usize, u32, u32)>)
    ensures
        r is Some <==> prvw_jpeg(buf@) is Some,
        r is Some ==> {
            let p = prvw_jpeg(buf@)->0;
            let v = r->0;
            &&& v.0 == p.start && v.1 == p.len && v.2 == p.width && v.3 == p.height
            &&& v.0 + v.1 <= buf.len()
        },
{
    let p: usize = find_code(buf, PRVW, 128)?;
    if buf.len() < 20 || p > buf.len() - 20 {
        return None;
    }
    let w: u32 = be16(buf, p + 10).unwrap() as u32;
    let h: u32 = be16(buf, p + 12).unwrap() as u32;
    let jpeg_size: usize = be32(buf, p + 16).unwrap() as usize;
    // JPEG should start right after the 20-byte PRVW header; scan as guard.
    let soi: usize = find_soi(buf, p + 20, 32)?;
    let len: usize = if jpeg_size <= buf.len() - soi {
        jpeg_size
    } else {
        buf.len() - soi
    };
    Some((soi, len, w, h))
}

/// A file offset; offsets past the largest number are held there.
pub open spec fn file_offset(base: u64, rel: int) -> u64 {
    if base + rel <= u64::MAX {
        (base + rel) as u64
    } else {
        u64::MAX
    }
}

/// What a CR3 header has said so far.
#[verifier::ext_equal]
pub struct Found {
    pub meta: meta::MetaView,
    pub preview: Option<ByteRange>,
}

/// The payload of a box that starts at `start` of `moov`, cut off where moov
/// ends.
pub open spec fn cut_payload(moov: Seq<u8>, start: int, len: u64) -> Seq<u8> {
    if start + len <= moov.len() {
        moov.subrange(start, start + len)
    } else {
        moov.skip(start)
    }
}

/// The thumbnail in a THMB payload at file offset `at`: ver/flags(4) w(2)
/// h(2) jpeg_size(4) ..., the stream within the 16 bytes after +12.
pub open spec fn thumbnail(
    p: Seq<u8>,
    len: u64,
    at: u64,
    other: Option<PreviewInfo>,
) -> Option<PreviewInfo> {
    if p.len() < 12 {
        other
    } else {
        match first_soi(p, 12, 28) {
            Some(soi) => {
                let size = bytes::be32_at(p, 8);
                let room = len - soi;
                let n = if size <= room {
                    size
                } else {
                    room
                };
                if n > 0 {
                    Some(
                        PreviewInfo {
                            range: ByteRange { offset: file_offset(at, soi), len: n as u64 },
                            width: bytes::be16_at(p, 4) as u32,
                            height: bytes::be16_at(p, 6) as u32,
                            is_bare_jpeg: true,
                        },
                    )
                } else {
                    other
                }
            },
            None => other,
        }
    }
}

/// Number of CTBO entries that are there: as many as are claimed, cut off
/// where the payload ends.
pub open spec fn ctbo_count(p: Seq<u8>) -> int {
    if p.len() < 4 {
        0
    } else {
        let n = bytes::be32_at(p, 0);
        let room = (p.len() - 4) / 20;
        if n <= room {
            n
        } else {
            room
        }
    }
}

/// The preview area that the first `k` CTBO entries give: that of the last
/// one with index 2 that is not empty. Entry: u32 index, u64 offset, u64
/// size.
pub open spec fn ctbo_preview(p: Seq<u8>, k: int, other: Option<ByteRange>) -> Option<ByteRange>
    decreases k,
{
    if k <= 0 {
        other
    } else {
        let e = 4 + 20 * (k - 1);
        let size = bytes::be64_at(p, e + 12);
        if bytes::be32_at(p, e) == 2 && size > 0 {
            Some(ByteRange { offset: bytes::be64_at(p, e + 4) as u64, len: size as u64 })
        } else {
            ctbo_preview(p, k - 1, other)
        }
    }
}

/// What is known after one box of the Canon metadata uuid, whose payload `p`
/// starts at file offset `at` and claims `len` bytes.
#[verifier::opaque]
pub open spec fn after_canon_box(f: Found, kind: u32, p: Seq<u8>, len: u64, at: u64) -> Found {
    let t = tiff::tiff_header(p);
    if kind == CMT1 && t is Ok {
        Found { meta: exif::with_ifd0(t->Ok_0, f.meta), ..f }
    } else if kind == CMT2 && t is Ok {
        Found { meta: exif::with_exif(t->Ok_0, t->Ok_0.first_ifd as int, f.meta), ..f }
    } else if kind == CMT3 && t is Ok {
        let es = t->Ok_0.entries(t->Ok_0.first_ifd as int);
        Found {
            meta: meta::MetaView {
                af_box: canon::af_of_entries(t->Ok_0, es, f.meta.af_box),
                ..f.meta
            },
            ..f
        }
    } else if kind == THMB {
        Found {
            meta: meta::MetaView { thumb: thumbnail(p, len, at, f.meta.thumb), ..f.meta },
            ..f
        }
    } else if kind == CTBO {
        Found { preview: ctbo_preview(p, ctbo_count(p), f.preview), ..f }
    } else {
        f
    }
}

/// What is known after the boxes `bs` of a Canon metadata uuid whose content
/// starts at `from` of moov; moov starts at file offset `base`.
pub open spec fn after_canon_boxes(
    moov: Seq<u8>,
    base: u64,
    from: int,
    f: Found,
    bs: Seq<BoxAt>,
) -> Found
    decreases bs.len(),
{
    if bs.len() == 0 {
        f
    } else {
        let start = from + bs[0].start;
        let g = after_canon_box(
            f,
            bs[0].kind,
            cut_payload(moov, start, bs[0].len),
            bs[0].len,
            file_offset(base, start),
        );
        after_canon_boxes(moov, base, from, g, bs.drop_first())
    }
}

/// Whether the 16 bytes at `off` are the given uuid.
#[verifier::opaque]
pub open spec fn uuid_at(buf: Seq<u8>, off: int, id: (u64, u64)) -> bool {
    &&& bytes::fits(buf, off, 16)
    &&& bytes::be64_at(buf, off) == id.0
    &&& bytes::be64_at(buf, off + 8) == id.1
}

/// What is known after the child `b` of moov, where it is the Canon metadata
/// uuid and lies inside moov.
pub open spec fn after_uuid(moov: Seq<u8>, base: u64, f: Found, b: BoxAt) -> Found {
    match payload(moov, b) {
        Some(p) if b.kind == UUID && uuid_at(p, 0, UUID_CANON_META) => after_canon_boxes(
            moov,
            base,
            b.start + 16,
            f,
            boxes(p.skip(16), 0),
        ),
        _ => f,
    }
}

/// What is known after all children `bs` of moov, tracks aside.
pub open spec fn after_uuids(moov: Seq<u8>, base: u64, f: Found, bs: Seq<BoxAt>) -> Found
    decreases bs.len(),
{
    if bs.len() == 0 {
        f
    } else {
        after_uuids(moov, base, after_uuid(moov, base, f, bs[0]), bs.drop_first())
    }
}

/// Largest frame of the tracks seen so far, and the full-size JPEG.
#[derive(Debug, Clone, Copy, PartialEq, Eq, Structural)]
pub struct Tracks {
    pub width: u32,
    pub height: u32,
    pub fullsize: Option<PreviewInfo>,
}

/// The tracks after one more.
pub open spec fn after_trak(t: Tracks, i: TrakInfo) -> Tracks {
    let larger = i.width * i.height > t.width * t.height;
    Tracks {
        width: if larger {
            i.width
        } else {
            t.width
        },
        height: if larger {
            i.height
        } else {
            t.height
        },
        fullsize: if i.is_jpeg {
            Some(
                PreviewInfo {
                    range: i.sample0,
                    width: i.width,
                    height: i.height,
                    is_bare_jpeg: true,
                },
            )
        } else {
            t.fullsize
        },
    }
}

/// The tracks among the children `bs` of moov that lie inside it.
pub open spec fn after_traks(moov: Seq<u8>, t: Tracks, bs: Seq<BoxAt>) -> Tracks
    decreases bs.len(),
{
    if bs.len() == 0 {
        t
    } else {
        let u = match payload(moov, bs[0]) {
            Some(p) if bs[0].kind == TRAK => match trak_info(p) {
                Some(i) => after_trak(t, i),
                None => t,
            },
            _ => t,
        };
        after_traks(moov, u, bs.drop_first())
    }
}

/// The preview area among top-level boxes: the last with the preview uuid.
pub open spec fn top_preview(
    header: Seq<u8>,
    bs: Seq<BoxAt>,
    other: Option<ByteRange>,
) -> Option<ByteRange>
    decreases bs.len(),
{
    if bs.len() == 0 {
        other
    } else {
        let b = bs.last();
        if b.kind == UUID && uuid_at(header, b.start as int, UUID_PREVIEW) {
            Some(ByteRange { offset: (b.start - 8) as u64, len: (b.len + 8) as u64 })
        } else {
            top_preview(header, bs.drop_last(), other)
        }
    }
}

/// The brand of a CR3 file: an ftyp box of brand "crx ".
pub open spec fn crx_brand(h: Seq<u8>) -> bool {
    h.len() >= 12 && bytes::be32_at(h, 4) == FTYP && bytes::be32_at(h, 8) == CRX
}

/// The moov box of a CR3 header.
pub open spec fn moov_box(h: Seq<u8>) -> Option<BoxAt> {
    if crx_brand(h) {
        first_box(boxes(h, 0), MOOV)
    } else {
        None
    }
}

/// `m` with what a CR3 header and its moov payload, which starts at file
/// offset `base`, say.
pub open spec fn with_cr3(
    header: Seq<u8>,
    moov: Seq<u8>,
    base: u64,
    m: meta::MetaView,
) -> meta::MetaView {
    let bs = boxes(moov, 0);
    let f = after_uuids(moov, base, Found { meta: m, preview: None }, bs);
    let t = after_traks(moov, Tracks { width: 0, height: 0, fullsize: f.meta.fullsize }, bs);
    let preview = match f.preview {
        Some(r) => Some(r),
        None => top_preview(header, boxes(header, 0), None),
    };
    meta::MetaView {
        fullsize: t.fullsize,
        width: if f.meta.width == 0 {
            t.width
        } else {
            f.meta.width
        },
        height: if f.meta.width == 0 {
            t.height
        } else {
            f.meta.height
        },
        preview: match preview {
            // needs PRVW-local parse at extraction
            Some(range) => Some(PreviewInfo { range, width: 0, height: 0, is_bare_jpeg: false }),
            None => f.meta.preview,
        },
        ..f.meta
    }
}

/// The thumbnail in a THMB payload.
fn parse_thumb(p: &[u8], len: u64, at: u64, other: Option<PreviewInfo>) -> (r: Option<PreviewInfo>)
    requires
        p.len() <= len,
    ensures
        r == thumbnail(p@, len, at, other),
{
    if p.len() < 12 {
        return other;
    }
    let jpeg_size: u64 = be32(p, 8).unwrap() as u64;
    match find_soi(p, 12, 16) {
        Some(soi) => {
            let room: u64 = len - soi as u64;
            let n: u64 = if jpeg_size <= room {
                jpeg_size
            } else {
                room
            };
            if n > 0 {
                Some(
                    PreviewInfo {
                        range: ByteRange { offset: at.saturating_add(soi as u64), len: n },
                        width: be16(p, 4).unwrap() as u32,
                        height: be16(p, 6).unwrap() as u32,
                        is_bare_jpeg: true,
                    },
                )
            } else {
                other
            }
        },
        None => other,
    }
}

/// The preview area that a CTBO payload gives.
fn parse_ctbo(p: &[u8], other: Option<ByteRange>) -> (r: Option<ByteRange>)
    ensures
        r == ctbo_preview(p@, ctbo_count(p@), other),
{
    if p.len() < 4 {
        return other;
    }
    let n: usize = be32(p, 0).unwrap() as usize;
    let room: usize = (p.len() - 4) / 20;
    let count: usize = if n <= room {
        n
    } else {
        room
    };
    let mut found: Option<ByteRange> = other;
    let mut i: usize = 0;
    while i < count
        invariant
            i <= count,
            4 + 20 * count <= p.len(),
            found == ctbo_preview(p@, i as int, other),
        decreases count - i,
    {
        let e: usize = 4 + i * 20;
        let idx: u32 = be32(p, e).unwrap();
        let off: u64 = be64(p, e + 4).unwrap();
        let sz: u64 = be64(p, e + 12).unwrap();
        // index 2 = preview uuid box (contains PRVW)
        if idx == 2 && sz > 0 {
            found = Some(ByteRange { offset: off, len: sz });
        }
        i += 1;
    }
    found
}

/// Reads one box of the Canon metadata uuid.
fn apply_canon_box(
    kind: u32,
    p: &[u8],
    len: u64,
    at: u64,
    meta: &mut FileMeta,
    preview: &mut Option<ByteRange>,
)
    requires
        p.len() <= len,
    ensures
        ({
            let g = after_canon_box(
                Found { meta: old(meta)@, preview: *old(preview) },
                kind,
                p@,
                len,
                at,
            );
            final(meta)@ == g.meta && *final(preview) == g.preview
        }),
{
    reveal(after_canon_box);
    match kind {
        CMT1 => {
            if let Ok(t) = Tiff::parse(p) {
                exif::apply_ifd0(&t, meta);
            }
        },
        CMT2 => {
            if let Ok(t) = Tiff::parse(p) {
                exif::apply_exif_ifd(&t, meta);
            }
        },
        CMT3 => {
            if let Ok(t) = Tiff::parse(p) {
                canon::apply_makernote(&t, t.first_ifd, meta);
            }
        },
        THMB => {
            meta.thumb = parse_thumb(p, len, at, meta.thumb);
        },
        CTBO => {
            *preview = parse_ctbo(p, *preview);
        },
        _ => {},
    }
}

/// Reads the boxes of a Canon metadata uuid whose content is `area`, which
/// starts at `from` of moov.
fn apply_canon_boxes(
    moov: &[u8],
    base: u64,
    from: usize,
    area: &[u8],
    meta: &mut FileMeta,
    preview: &mut Option<ByteRange>,
)
    requires
        from + area.len() <= moov.len(),
    ensures
        ({
            let g = after_canon_boxes(
                moov@,
                base,
                from as int,
                Found { meta: old(meta)@, preview: *old(preview) },
                boxes(area@, 0),
            );
            final(meta)@ == g.meta && *final(preview) == g.preview
        }),
{
    let inner = walk(area);
    let ghost bs = boxes(area@, 0);
    let ghost want = after_canon_boxes(
        moov@,
        base,
        from as int,
        Found { meta: meta@, preview: *preview },
        bs,
    );
    let mut i: usize = 0;
    assert(bs.skip(0) =~= bs);
    while i < inner.len()
        invariant
            i <= inner.len(),
            inner@ == bs,
            from + area.len() <= moov.len(),
            forall|j: int| 0 <= j < inner.len() ==> (#[trigger] inner[j]).start <= area.len(),
            want == after_canon_boxes(
                moov@,
                base,
                from as int,
                Found { meta: meta@, preview: *preview },
                bs.skip(i as int),
            ),
        decreases inner.len() - i,
    {
        let b = inner[i];
        assert(bs.skip(i as int)[0] == b);
        assert(bs.skip(i as int).drop_first() =~= bs.skip(i + 1));
        let start: usize = from + b.start;
        let end: usize = if b.len <= (moov.len() - start) as u64 {
            start + b.len as usize
        } else {
            moov.len()
        };
        let p = vstd::slice::slice_subrange(moov, start, end);
        assert(p@ =~= cut_payload(moov@, start as int, b.len));
        apply_canon_box(b.kind, p, b.len, base.saturating_add(start as u64), meta, preview);
        i += 1;
    }
}

fn is_uuid(buf: &[u8], off: usize, id: (u64, u64)) -> (r: bool)
    ensures
        r == uuid_at(buf@, off as int, id),
        r ==> off + 16 <= buf.len(),
{
    reveal(uuid_at);
    if buf.len() < 16 || off > buf.len() - 16 {
        return false;
    }
    be64(buf, off).unwrap() == id.0 && be64(buf, off + 8).unwrap() == id.1
}

/// Reads a child of moov, where it is the Canon metadata uuid.
fn apply_uuid(
    moov: &[u8],
    base: u64,
    b: &BoxAt,
    meta: &mut FileMeta,
    preview: &mut Option<ByteRange>,
)
    ensures
        ({
            let g = after_uuid(moov@, base, Found { meta: old(meta)@, preview: *old(preview) }, *b);
            final(meta)@ == g.meta && *final(preview) == g.preview
        }),
{
    if b.kind == UUID {
        if let Some(p) = payload_of(moov, b) {
            if is_uuid(p, 0, UUID_CANON_META) {
                let area = vstd::slice::slice_subrange(p, 16, p.len());
                assert(area@ =~= p@.skip(16));
                let n: usize = moov.len();
                assert(b.start + b.len <= n);
                apply_canon_boxes(moov, base, b.start + 16, area, meta, preview);
            }
        }
    }
}

/// Reads the Canon metadata among the children of moov. Boxes that do not lie
/// inside moov are passed over.
fn apply_uuids(
    moov: &[u8],
    base: u64,
    children: &Vec<BoxAt>,
    meta: &mut FileMeta,
) -> (r: Option<ByteRange>)
    ensures
        ({
            let g = after_uuids(
                moov@,
                base,
                Found { meta: old(meta)@, preview: None },
                children@,
            );
            final(meta)@ == g.meta && r == g.preview
        }),
{
    let ghost bs = children@;
    let ghost want = after_uuids(moov@, base, Found { meta: meta@, preview: None }, bs);
    let mut preview: Option<ByteRange> = None;
    let mut i: usize = 0;
    assert(bs.skip(0) =~= bs);
    while i < children.len()
        invariant
            i <= children.len(),
            children@ == bs,
            want == after_uuids(
                moov@,
                base,
                Found { meta: meta@, preview },
                bs.skip(i as int),
            ),
        decreases children.len() - i,
    {
        let b = children[i];
        assert(bs.skip(i as int)[0] == b);
        assert(bs.skip(i as int).drop_first() =~= bs.skip(i + 1));
        apply_uuid(moov, base, &b, meta, &mut preview);
        i += 1;
    }
    preview
}

/// Reads the tracks among the children of moov.
fn apply_traks(moov: &[u8], children: &Vec<BoxAt>, fullsize: Option<PreviewInfo>) -> (r: Tracks)
    ensures
        r == after_traks(moov@, Tracks { width: 0, height: 0, fullsize }, children@),
{
    let ghost bs = children@;
    let ghost want = after_traks(moov@, Tracks { width: 0, height: 0, fullsize }, bs);
    let mut t = Tracks { width: 0, height: 0, fullsize };
    let mut i: usize = 0;
    assert(bs.skip(0) =~= bs);
    while i < children.len()
        invariant
            i <= children.len(),
            children@ == bs,
            want == after_traks(moov@, t, bs.skip(i as int)),
        decreases children.len() - i,
    {
        let b = children[i];
        assert(bs.skip(i as int)[0] == b);
        assert(bs.skip(i as int).drop_first() =~= bs.skip(i + 1));
        if b.kind == TRAK {
            if let Some(p) = payload_of(moov, &b) {
                if let Some(info) = parse_trak(p) {
                    proof {
                        lemma_area(info.width, info.height);
                        lemma_area(t.width, t.height);
                    }
                    let larger = info.width as u64 * info.height as u64 > t.width as u64
                        * t.height as u64;
                    t = Tracks {
                        width: if larger {
                            info.width
                        } else {
                            t.width
                        },
                        height: if larger {
                            info.height
                        } else {
                            t.height
                        },
                        fullsize: if info.is_jpeg {
                            Some(
                                PreviewInfo {
                                    range: info.sample0,
                                    width: info.width,
                                    height: info.height,
                                    is_bare_jpeg: true,
                                },
                            )
                        } else {
                            t.fullsize
                        },
                    };
                }
            }
        }
        i += 1;
    }
    t
}

proof fn lemma_area(w: u32, h: u32)
    ensures
        0 <= w * h <= 0xffff_fffe_0000_0001,
{
    assert(0 <= w * h <= 0xffff_ffff * 0xffff_ffff) by (nonlinear_arith)
        requires
            0 <= w <= 0xffff_ffff,
            0 <= h <= 0xffff_ffff,
    ;
}

proof fn lemma_box_starts(buf: Seq<u8>, pos: int)
    requires
        0 <= pos,
        buf.len() <= usize::MAX,
    ensures
        forall|i: int|
            0 <= i < boxes(buf, pos).len() ==> (#[trigger] boxes(buf, pos)[i]).start >= 8
                && boxes(buf, pos)[i].len <= u64::MAX - 8,
    decreases buf.len() - pos,
{
    if is_box(buf, pos) {
        let b = box_at(buf, pos);
        assert(box_size(buf, pos) <= u64::MAX);
        assert(b.start == pos + box_header(buf, pos));
        assert(b.len == box_size(buf, pos) - box_header(buf, pos));
        if pos + box_size(buf, pos) <= buf.len() {
            lemma_box_starts(buf, pos + box_size(buf, pos));
            let rest = boxes(buf, pos + box_size(buf, pos));
            assert forall|i: int| 0 <= i < boxes(buf, pos).len() implies (#[trigger] boxes(
                buf,
                pos,
            )[i]).start >= 8 && boxes(buf, pos)[i].len <= u64::MAX - 8 by {
                if i > 0 {
                    assert(boxes(buf, pos)[i] == rest[i - 1]);
                }
            }
        }
    }
}

/// The preview area among top-level boxes.
fn find_top_preview(header: &[u8], top: &Vec<BoxAt>) -> (r: Option<ByteRange>)
    requires
        top@ == boxes(header@, 0),
    ensures
        r == top_preview(header@, top@, None),
{
    let mut found: Option<ByteRange> = None;
    let mut i: usize = 0;
    let n: usize = header.len();
    proof {
        assert(header@.len() == n);
        lemma_box_starts(header@, 0);
        assert(top@.take(0) =~= Seq::<BoxAt>::empty());
    }
    while i < top.len()
        invariant
            i <= top.len(),
            forall|j: int|
                0 <= j < top.len() ==> (#[trigger] top@[j]).start >= 8 && top@[j].len <= u64::MAX
                    - 8,
            found == top_preview(header@, top@.take(i as int), None),
        decreases top.len() - i,
    {
        let b = top[i];
        assert(top@.take(i + 1).drop_last() =~= top@.take(i as int));
        if b.kind == UUID && is_uuid(header, b.start, UUID_PREVIEW) {
            found = Some(ByteRange { offset: (b.start - 8) as u64, len: b.len + 8 });
        }
        i += 1;
    }
    assert(top@.take(top@.len() as int) =~= top@);
    found
}

/// Reads the moov payload, which starts at file offset `base`, and the
/// top-level boxes of the header.
pub fn parse_moov(header: &[u8], moov: &[u8], base: u64, meta: &mut FileMeta)
    ensures
        final(meta)@ == with_cr3(header@, moov@, base, old(meta)@),
{
    let children = walk(moov);
    // --- Canon metadata uuid: CMT1/CMT2/CMT3 EXIF, THMB, CTBO ---
    let mut preview_range: Option<ByteRange> = apply_uuids(moov, base, &children, meta);
    // --- traks: locate full-size embedded JPEG + image dimensions ---
    let tracks = apply_traks(moov, &children, meta.fullsize);
    meta.fullsize = tracks.fullsize;
    if meta.width == 0 {
        meta.width = tracks.width;
        meta.height = tracks.height;
    }
    // --- preview range: from CTBO, else scan top-level boxes ---
    if preview_range.is_none() {
        let top = walk(header);
        preview_range = find_top_preview(header, &top);
    }
    if let Some(range) = preview_range {
        meta.preview = Some(PreviewInfo { range, width: 0, height: 0, is_bare_jpeg: false });
    }
}

/// The payload of moov: from the header where all of it is there, else from
/// the file.
pub open spec fn moov_bytes(header: Seq<u8>, file: Seq<u8>, b: BoxAt) -> Seq<u8> {
    match payload(header, b) {
        Some(p) => p,
        None => file.subrange(b.start as int, b.start + b.len),
    }
}

/// Reads a CR3 file: `header` is its start, `r` gives the rest of moov where
/// it is not all there.
pub fn parse<R: ReadRange>(r: &mut R, header: &[u8], meta: &mut FileMeta) -> (res: Result<
    (),
    Cr3Error,
>)
    ensures
        final(r).content() == old(r).content(),
        moov_box(header@) is None || payload(header@, moov_box(header@)->0) is Some ==> *final(r)
            == *old(r),
        (res matches Err(Cr3Error::NotCr3)) <==> moov_box(header@) is None,
        res is Err ==> final(meta)@ == old(meta)@,
        moov_box(header@) matches Some(b) ==> {
            &&& payload(header@, b) is Some || (b.len <= usize::MAX && old(r).sure(
                b.start as int,
                b.start + b.len,
            )) ==> res is Ok
            &&& res is Ok ==> final(meta)@ == with_cr3(
                header@,
                moov_bytes(header@, old(r).content(), b),
                b.start as u64,
                old(meta)@,
            )
        },
{
    // ftyp brand check
    if header.len() < 12 || be32(header, 4).unwrap() != FTYP || be32(header, 8).unwrap() != CRX {
        return Err(Cr3Error::NotCr3);
    }
    let top = walk(header);
    let b = match find(&top, MOOV) {
        Some(b) => b,
        None => return Err(Cr3Error::NotCr3),
    };
    // Ensure the whole moov payload is in memory.
    match payload_of(header, &b) {
        Some(moov) => {
            parse_moov(header, moov, b.start as u64, meta);
        },
        None => {
            if b.len > usize::MAX as u64 {
                return Err(Cr3Error::Io(past_end()));
            }
            match r.read_range(b.start as u64, b.len as usize) {
                Ok(buf) => {
                    parse_moov(header, &buf, b.start as u64, meta);
                },
                Err(e) => return Err(Cr3Error::Io(e)),
            }
        },
    }
    Ok(())
}

/// What of a CR3 file has to be read beyond its header: moov, where it is not
/// all there.
pub fn missing_moov(header: &[u8]) -> (r: Option<ByteRange>)
    ensures
        r == (match moov_box(header@) {
            Some(b) if payload(header@, b) is None => Some(
                ByteRange { offset: b.start as u64, len: b.len },
            ),
            _ => None,
        }),
{
    if header.len() < 12 || be32(header, 4).unwrap() != FTYP || be32(header, 8).unwrap() != CRX {
        return None;
    }
    let top = walk(header);
    match find(&top, MOOV) {
        Some(b) => match payload_of(header, &b) {
            Some(_) => None,
            None => Some(ByteRange { offset: b.start as u64, len: b.len }),
        },
        None => None,
    }
}

/// The bytes of a box.
pub open spec fn box_bytes(kind: u32, p: Seq<u8>) -> Seq<u8> {
    bytes::be32_bytes((8 + p.len()) as u32) + bytes::be32_bytes(kind) + p
}

/// A box is read back from its bytes wherever it stands, and the next one is
/// looked for behind it.
pub proof fn boxes_read_back(pre: Seq<u8>, kind: u32, p: Seq<u8>, rest: Seq<u8>)
    requires
        8 + p.len() <= 0xffff_ffff,
        pre.len() + 8 + p.len() + rest.len() <= usize::MAX,
    ensures
        ({
            let buf = pre + box_bytes(kind, p) + rest;
            let pos = pre.len() as int;
            &&& is_box(buf, pos)
            &&& boxes(buf, pos) == seq![
                BoxAt { kind, start: (pos + 8) as usize, len: p.len() as u64 },
            ] + boxes(buf, pos + 8 + p.len())
            &&& payload(buf, boxes(buf, pos)[0]) == Some(p)
        }),
{
    let buf = pre + box_bytes(kind, p) + rest;
    let pos = pre.len() as int;
    let size = (8 + p.len()) as u32;
    assert(buf.subrange(pos, pos + 4) =~= bytes::be32_bytes(size));
    assert(buf.subrange(pos + 4, pos + 8) =~= bytes::be32_bytes(kind));
    bytes::numbers_read_back(buf, pos, 0, size, 0);
    bytes::numbers_read_back(buf, pos + 4, 0, kind, 0);
    assert(buf.subrange(pos + 8, pos + 8 + p.len()) =~= p);
}

/// The payload of a box is found by its kind, at the start or behind a box of
/// another kind.
pub proof fn children_are_found(
    other: u32,
    q: Seq<u8>,
    kind: u32,
    p: Seq<u8>,
    rest: Seq<u8>,
)
    requires
        other != kind,
        8 + p.len() <= 0xffff_ffff,
        8 + q.len() <= 0xffff_ffff,
        16 + q.len() + p.len() + rest.len() <= usize::MAX,
    ensures
        child(box_bytes(kind, p) + rest, kind) == Some(p),
        child(box_bytes(other, q) + box_bytes(kind, p) + rest, kind) == Some(p),
{
    lemma_first_child(kind, p, rest);
    lemma_second_child(other, q, kind, p, rest);
}

proof fn lemma_first_child(kind: u32, p: Seq<u8>, rest: Seq<u8>)
    requires
        8 + p.len() <= 0xffff_ffff,
        8 + p.len() + rest.len() <= usize::MAX,
    ensures
        boxes(box_bytes(kind, p) + rest, 0) == seq![
            BoxAt { kind, start: 8, len: p.len() as u64 },
        ] + boxes(box_bytes(kind, p) + rest, (8 + p.len()) as int),
        child(box_bytes(kind, p) + rest, kind) == Some(p),
{
    let none = Seq::<u8>::empty();
    boxes_read_back(none, kind, p, rest);
    assert(none + box_bytes(kind, p) + rest =~= box_bytes(kind, p) + rest);
}

proof fn lemma_second_child(other: u32, q: Seq<u8>, kind: u32, p: Seq<u8>, rest: Seq<u8>)
    requires
        other != kind,
        8 + p.len() <= 0xffff_ffff,
        8 + q.len() <= 0xffff_ffff,
        16 + q.len() + p.len() + rest.len() <= usize::MAX,
    ensures
        child(box_bytes(other, q) + box_bytes(kind, p) + rest, kind) == Some(p),
{
    let two = box_bytes(other, q) + box_bytes(kind, p) + rest;
    let tail = box_bytes(kind, p) + rest;
    assert(two =~= box_bytes(other, q) + tail);
    assert(tail.len() == 8 + p.len() + rest.len());
    assert(box_bytes(other, q).len() == 8 + q.len());
    lemma_first_child(other, q, tail);
    boxes_read_back(box_bytes(other, q), kind, p, rest);
    lemma_behind(boxes(two, 0), boxes(two, (8 + q.len()) as int), kind);
}

proof fn lemma_behind(bs: Seq<BoxAt>, tail: Seq<BoxAt>, kind: u32)
    requires
        bs.len() > 0,
        bs == seq![bs[0]] + tail,
        bs[0].kind != kind,
        tail.len() > 0,
        tail[0].kind == kind,
    ensures
        first_box(bs, kind) == Some(tail[0]),
{
    assert(bs.drop_first() =~= tail);
    reveal_with_fuel(first_box, 2);
}

/// A box whose size is given as 1 has its size in the 8 bytes behind its kind;
/// one whose size is given as 0 goes on to the end.
pub proof fn long_boxes_have_long_sizes(buf: Seq<u8>, pos: int, size: u64)
    requires
        0 <= pos,
        pos + 16 <= buf.len() <= usize::MAX,
    ensures
        buf.subrange(pos, pos + 4) == bytes::be32_bytes(1) && buf.subrange(pos + 8, pos + 16)
            == bytes::be32_bytes((size / 0x1_0000_0000) as u32) + bytes::be32_bytes(
            (size % 0x1_0000_0000) as u32,
        ) && size >= 16 ==> is_box(buf, pos) && box_at(buf, pos).start == pos + 16 && box_at(
            buf,
            pos,
        ).len == size - 16,
        buf.subrange(pos, pos + 4) == bytes::be32_bytes(0) ==> is_box(buf, pos) && box_at(
            buf,
            pos,
        ).start == pos + 8 && box_at(buf, pos).start + box_at(buf, pos).len == buf.len(),
{
    bytes::numbers_read_back(buf, pos, 0, 1, 0);
    bytes::numbers_read_back(buf, pos, 0, 0, 0);
    bytes::numbers_read_back(buf, pos + 8, 0, 0, size);
}

proof fn lemma_first_soi(buf: Seq<u8>, from: int, end: int)
    ensures
        match first_soi(buf, from, end) {
            Some(i) => from <= i < end && i + 1 < buf.len() && buf[i] == 0xFF && buf[i + 1] == 0xD8
                && forall|j: int|
                from <= j < i ==> !(#[trigger] buf[j] == 0xFF && buf[j + 1] == 0xD8),
            None => forall|j: int|
                from <= j < end && j + 1 < buf.len() ==> !(#[trigger] buf[j] == 0xFF && buf[j + 1]
                    == 0xD8),
        },
    decreases end - from,
{
    if from < end && from + 1 < buf.len() && !(buf[from] == 0xFF && buf[from + 1] == 0xD8) {
        lemma_first_soi(buf, from + 1, end);
    }
}

/// The stream starts at the first start-of-image marker in the window.
pub proof fn streams_start_at_the_first_marker(buf: Seq<u8>, from: int, end: int, i: int)
    requires
        from <= i < end,
        i + 1 < buf.len(),
        buf[i] == 0xFF,
        buf[i + 1] == 0xD8,
        forall|j: int| from <= j < i ==> !(#[trigger] buf[j] == 0xFF && buf[j + 1] == 0xD8),
    ensures
        first_soi(buf, from, end) == Some(i),
{
    lemma_first_soi(buf, from, end);
    if first_soi(buf, from, end) is Some {
        let k = first_soi(buf, from, end)->0;
        if k < i {
            assert(!(buf[k] == 0xFF && buf[k + 1] == 0xD8));
        }
    }
}

proof fn lemma_first_code(buf: Seq<u8>, code: u32, from: int, end: int, i: int)
    requires
        from <= i < end,
        i + 4 <= buf.len(),
        bytes::be32_at(buf, i) == code,
        forall|j: int| from <= j < i ==> #[trigger] bytes::be32_at(buf, j) != code,
    ensures
        first_code(buf, code, from, end) == Some(i),
    decreases i - from,
{
    if from < i {
        assert(bytes::be32_at(buf, from) != code);
        lemma_first_code(buf, code, from + 1, end, i);
    }
}

/// A preview box holds its stream and dimensions where it says: width and
/// height 10 and 12 bytes behind the first "PRVW", the stream's length 16
/// behind it, and the stream at the first start-of-image marker within the 32
/// bytes that follow. A stream that claims too much is cut off at the end.
pub proof fn previews_are_where_their_box_says(buf: Seq<u8>, p: int, soi: int)
    requires
        0 <= p < 128,
        bytes::be32_at(buf, p) == 0x50525657,
        forall|j: int| 0 <= j < p ==> #[trigger] bytes::be32_at(buf, j) != 0x50525657,
        p + 20 <= soi < p + 52,
        soi + 1 < buf.len(),
        buf[soi] == 0xFF,
        buf[soi + 1] == 0xD8,
        forall|j: int| p + 20 <= j < soi ==> !(#[trigger] buf[j] == 0xFF && buf[j + 1] == 0xD8),
    ensures
        prvw_jpeg(buf) matches Some(v) && v.start == soi && v.width == 256 * buf[p + 10] + buf[p
            + 11] && v.height == 256 * buf[p + 12] + buf[p + 13] && soi + v.len <= buf.len() && (
        v.len == 0x100_0000 * buf[p + 16] + 0x1_0000 * buf[p + 17] + 0x100 * buf[p + 18] + buf[p
            + 19] || (soi + v.len == buf.len() && v.len < 0x100_0000 * buf[p + 16] + 0x1_0000
            * buf[p + 17] + 0x100 * buf[p + 18] + buf[p + 19])),
{
    lemma_first_code(buf, PRVW, 0, 128, p);
    streams_start_at_the_first_marker(buf, p + 20, p + 52, soi);
}

/// A thumbnail box holds its dimensions 4 and 6 bytes from its start, its
/// length at 8, and its stream at the first start-of-image marker within the
/// 16 bytes from 12 on.
pub proof fn thumbnails_are_where_their_box_says(
    p: Seq<u8>,
    len: u64,
    at: u64,
    other: Option<PreviewInfo>,
    soi: int,
)
    requires
        12 <= soi < 28,
        soi + 1 < p.len(),
        p[soi] == 0xFF,
        p[soi + 1] == 0xD8,
        forall|j: int| 12 <= j < soi ==> !(#[trigger] p[j] == 0xFF && p[j + 1] == 0xD8),
        soi <= len,
        at + soi <= u64::MAX,
    ensures
        ({
            let size = 0x100_0000 * p[8] + 0x1_0000 * p[9] + 0x100 * p[10] + p[11];
            let n = if size <= len - soi {
                size
            } else {
                len - soi
            };
            if n > 0 {
                thumbnail(p, len, at, other) matches Some(t) && t.range.offset == at + soi
                    && t.range.len == n && t.width == 256 * p[4] + p[5] && t.height == 256 * p[6] + p[7]
                    && t.is_bare_jpeg
            } else {
                thumbnail(p, len, at, other) == other
            }
        }),
{
    streams_start_at_the_first_marker(p, 12, 28, soi);
}

/// The preview area is that of the last entry with index 2 that is not empty.
pub proof fn the_last_preview_entry_counts(p: Seq<u8>, k: int, other: Option<ByteRange>, i: int)
    requires
        0 <= i < k,
        4 + 20 * k <= p.len(),
        bytes::be32_at(p, 4 + 20 * i) == 2,
        bytes::be64_at(p, 16 + 20 * i) > 0,
        forall|j: int|
            i < j < k ==> #[trigger] bytes::be32_at(p, 4 + 20 * j) != 2 || bytes::be64_at(
                p,
                16 + 20 * j,
            ) == 0,
    ensures
        ctbo_preview(p, k, other) matches Some(r) && r.offset == bytes::be64_at(p, 8 + 20 * i)
            && r.len == bytes::be64_at(p, 16 + 20 * i),
    decreases k,
{
    if i < k - 1 {
        let j = k - 1;
        assert(bytes::be32_at(p, 4 + 20 * j) != 2 || bytes::be64_at(p, 16 + 20 * j) == 0);
        the_last_preview_entry_counts(p, k - 1, other, i);
    }
}

/// The dimensions kept are those of the largest frame; a full-size JPEG comes
/// from a JPEG track only, the latest, at its first sample.
pub proof fn the_largest_track_gives_the_dimensions(t: Tracks, i: TrakInfo)
    ensures
        ({
            let u = after_trak(t, i);
            &&& u.width * u.height >= t.width * t.height
            &&& u.width * u.height >= i.width * i.height
            &&& (u.width, u.height) == (t.width, t.height) || (u.width, u.height) == (
                i.width,
                i.height,
            )
            &&& i.width * i.height == t.width * t.height ==> (u.width, u.height) == (
                t.width,
                t.height,
            )
            &&& !i.is_jpeg ==> u.fullsize == t.fullsize
            &&& i.is_jpeg ==> (u.fullsize matches Some(f) && f.range == i.sample0 && f.width
                == i.width && f.height == i.height && f.is_bare_jpeg)
        }),
{
}

/// The size of a track's first sample is the one that all samples share, where
/// there is one, else the first of the list.
pub proof fn first_samples_have_their_size(stsz: Seq<u8>, all: u32, first: u32)
    requires
        stsz.len() >= 8,
        stsz.subrange(4, 8) == bytes::be32_bytes(all),
        stsz.len() >= 16 ==> stsz.subrange(12, 16) == bytes::be32_bytes(first),
    ensures
        all != 0 ==> first_size(stsz) == Some(all as int),
        all == 0 && stsz.len() >= 16 ==> first_size(stsz) == Some(first as int),
        all == 0 && stsz.len() < 16 ==> first_size(stsz) is None,
{
    bytes::numbers_read_back(stsz, 4, 0, all, 0);
    if stsz.len() >= 16 {
        bytes::numbers_read_back(stsz, 12, 0, first, 0);
    }
}

/// Whether the two are of the same file.
spec fn same_file(a: meta::MetaView, b: meta::MetaView) -> bool {
    a.path == b.path && a.size == b.size && a.kind == b.kind && a.content_key == b.content_key
}

proof fn lemma_canon_boxes_stay(moov: Seq<u8>, base: u64, from: int, f: Found, bs: Seq<BoxAt>)
    ensures
        same_file(after_canon_boxes(moov, base, from, f, bs).meta, f.meta),
    decreases bs.len(),
{
    if bs.len() > 0 {
        reveal(after_canon_box);
        let start = from + bs[0].start;
        let g = after_canon_box(
            f,
            bs[0].kind,
            cut_payload(moov, start, bs[0].len),
            bs[0].len,
            file_offset(base, start),
        );
        lemma_canon_boxes_stay(moov, base, from, g, bs.drop_first());
    }
}

proof fn lemma_uuids_stay(moov: Seq<u8>, base: u64, f: Found, bs: Seq<BoxAt>)
    ensures
        same_file(after_uuids(moov, base, f, bs).meta, f.meta),
    decreases bs.len(),
{
    if bs.len() > 0 {
        let b = bs[0];
        match payload(moov, b) {
            Some(p) => {
                lemma_canon_boxes_stay(moov, base, b.start + 16, f, boxes(p.skip(16), 0));
            },
            None => {},
        }
        lemma_uuids_stay(moov, base, after_uuid(moov, base, f, b), bs.drop_first());
    }
}

/// What names a file stays, whatever its boxes say. A preview area that the
/// Canon boxes give counts before one at the top level.
pub proof fn canon_previews_count_first(
    header: Seq<u8>,
    moov: Seq<u8>,
    base: u64,
    m: meta::MetaView,
)
    ensures
        ({
            let r = with_cr3(header, moov, base, m);
            let f = after_uuids(moov, base, Found { meta: m, preview: None }, boxes(moov, 0));
            let top = top_preview(header, boxes(header, 0), None);
            &&& r.path == m.path && r.size == m.size && r.kind == m.kind && r.content_key
                == m.content_key
            &&& f.preview matches Some(a) ==> (r.preview matches Some(p) && p.range == a)
            &&& f.preview is None && top is Some ==> (r.preview matches Some(p) && p.range
                == top->0)
            &&& f.preview is None && top is None ==> r.preview == f.meta.preview
            &&& f.meta.width != 0 ==> r.width == f.meta.width && r.height == f.meta.height
        }),
{
    lemma_uuids_stay(moov, base, Found { meta: m, preview: None }, boxes(moov, 0));
}

} // verus!
