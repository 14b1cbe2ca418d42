//! CR2 (TIFF-based) header parser. IFD0 holds a reduced/full-size JPEG via
//! StripOffsets/StripByteCounts; IFD1 holds the 160x120 thumbnail. Raw data
//! (IFD3) is never touched.

use vstd::prelude::*;
use super::exif;
use super::tiff;
use super::tiff::Tiff;
use crate::meta;
use crate::meta::{ByteRange, FileMeta, PreviewInfo};

verus! {

pub const TAG_STRIP_OFFSETS: u16 = 0x0111;
pub const TAG_STRIP_BYTE_COUNTS: u16 = 0x0117;
pub const TAG_JPEG_IF: u16 = 0x0201;
pub const TAG_JPEG_IF_LEN: u16 = 0x0202;

/// The mark of a CR2 file: "CR" and version 2 at byte 8.
pub open spec fn cr2_mark(h: Seq<u8>) -> bool {
    h.len() >= 12 && h[8] == 0x43 && h[9] == 0x52 && h[10] == 2
}

pub fn is_cr2(header: &[u8]) -> (r: bool)
    ensures
        r == cr2_mark(header@),
{
    header.len() >= 12 && header[8] == 0x43 && header[9] == 0x52 && header[10] == 2
}

/// The JPEG that two entries of a directory locate: one holds its offset, the
/// other its length.
pub open spec fn located(
    t: tiff::TiffView,
    es: Seq<tiff::EntryView>,
    off_tag: u16,
    len_tag: u16,
    other: Option<PreviewInfo>,
) -> Option<PreviewInfo> {
    match (exif::tag_number(t, es, off_tag, None), exif::tag_number(t, es, len_tag, None)) {
        (Some(off), Some(len)) => Some(
            PreviewInfo {
                range: ByteRange { offset: off as u64, len: len as u64 },
                width: 0,
                height: 0,
                is_bare_jpeg: true,
            },
        ),
        _ => other,
    }
}

/// `m` with what a CR2 header says: EXIF, the strip of IFD0 as preview, and
/// the JPEG of IFD1 as thumbnail.
pub open spec fn with_cr2(t: tiff::TiffView, m: meta::MetaView) -> meta::MetaView {
    let m1 = exif::with_ifd0(t, m);
    let ifd0 = t.entries(t.first_ifd as int);
    let next = t.next_ifd(t.first_ifd as int);
    meta::MetaView {
        preview: located(t, ifd0, TAG_STRIP_OFFSETS, TAG_STRIP_BYTE_COUNTS, m1.preview),
        thumb: if next != 0 {
            located(t, t.entries(next as int), TAG_JPEG_IF, TAG_JPEG_IF_LEN, m1.thumb)
        } else {
            m1.thumb
        },
        ..m1
    }
}

/// The JPEG that two entries of a directory locate; `other` where they do
/// not.
fn locate(
    t: &Tiff,
    entries: &Vec<tiff::IfdEntry>,
    off_tag: u16,
    len_tag: u16,
    other: Option<PreviewInfo>,
) -> (r: Option<PreviewInfo>)
    requires
        off_tag != len_tag,
    ensures
        r == located(t@, tiff::entry_views(entries@), off_tag, len_tag, other),
{
    let ghost es = tiff::entry_views(entries@);
    let mut off: Option<u32> = None;
    let mut len: Option<u32> = None;
    let mut i: usize = 0;
    assert(es.take(0) =~= Seq::<tiff::EntryView>::empty());
    while i < entries.len()
        invariant
            i <= entries.len(),
            off_tag != len_tag,
            tiff::entry_views(entries@) == es,
            off == exif::tag_number(t@, es.take(i as int), off_tag, None),
            len == exif::tag_number(t@, es.take(i as int), len_tag, None),
        decreases entries.len() - i,
    {
        let e = &entries[i];
        assert(e@ == es[i as int]);
        assert(es.take(i + 1).drop_last() =~= es.take(i as int));
        assert(es.take(i + 1).last() == e@);
        if e.tag == off_tag {
            off = t.uint(e);
        } else if e.tag == len_tag {
            len = t.uint(e);
        }
        i += 1;
    }
    assert(es.take(es.len() as int) =~= es);
    match (off, len) {
        (Some(o), Some(l)) => Some(
            PreviewInfo {
                range: ByteRange { offset: o as u64, len: l as u64 },
                width: 0,
                height: 0,
                is_bare_jpeg: true,
            },
        ),
        _ => other,
    }
}

/// Reads a CR2 file's header; false if it is not a TIFF structure.
pub fn parse(header: &[u8], meta: &mut FileMeta) -> (r: bool)
    ensures
        r == (tiff::tiff_header(header@) is Ok),
        r ==> final(meta)@ == with_cr2(tiff::tiff_header(header@)->Ok_0, old(meta)@),
        !r ==> final(meta)@ == old(meta)@,
{
    let t = match Tiff::parse(header) {
        Ok(t) => t,
        Err(_) => return false,
    };
    exif::apply_ifd0(&t, meta);
    // IFD0 strip = embedded JPEG preview (large)
    let (ifd0, next) = t.ifd(t.first_ifd);
    meta.preview = locate(&t, &ifd0, TAG_STRIP_OFFSETS, TAG_STRIP_BYTE_COUNTS, meta.preview);
    // IFD1 = thumbnail
    if next != 0 {
        let (ifd1, _) = t.ifd(next);
        meta.thumb = locate(&t, &ifd1, TAG_JPEG_IF, TAG_JPEG_IF_LEN, meta.thumb);
    }
    true
}

/// The preview is the strip of the first directory (tags 0x0111 and 0x0117),
/// the thumbnail the JPEG of the second (0x0201 and 0x0202); where an entry is
/// missing, what was known stays.
pub proof fn strips_and_thumbs_are_located(t: tiff::TiffView, m: meta::MetaView)
    ensures
        ({
            let c = with_cr2(t, m);
            let known = exif::with_ifd0(t, m);
            let first = t.entries(t.first_ifd as int);
            let next = t.next_ifd(t.first_ifd as int);
            let second = t.entries(next as int);
            let number = |es: Seq<tiff::EntryView>, tag: u16| exif::tag_number(t, es, tag, None);
            &&& match (number(first, 0x0111), number(first, 0x0117)) {
                (Some(off), Some(len)) => c.preview matches Some(p) && p.range.offset == off
                    && p.range.len == len && p.is_bare_jpeg,
                _ => c.preview == known.preview,
            }
            &&& match (number(second, 0x0201), number(second, 0x0202)) {
                (Some(off), Some(len)) if next != 0 => c.thumb matches Some(p) && p.range.offset
                    == off && p.range.len == len && p.is_bare_jpeg,
                _ => c.thumb == known.thumb,
            }
            &&& c.make == known.make && c.ts == known.ts && c.orientation == known.orientation
        }),
{
}

} // verus!
