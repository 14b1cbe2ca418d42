//! JPEG header parser: APP1 EXIF (via the TIFF walker), SOF dimensions, and
//! the MPF (Multi-Picture Format) APP2 index. Canon EOS JPEGs append a
//! 1620x1080 preview image at the end of the file; scoring reads that
//! (~300 KB) instead of decoding the 45 MP main image.

use vstd::prelude::*;
use super::exif;
use super::tiff;
use super::tiff::Tiff;
use crate::bytes;
use crate::meta;
use crate::meta::{ByteRange, FileMeta, PreviewInfo};

verus! {

/// Tag of the MP entry index.
pub const TAG_MP_ENTRY: u16 = 0xB002;

const EXIF_ID: [u8; 6] = [0x45, 0x78, 0x69, 0x66, 0, 0];

const MPF_ID: [u8; 4] = [0x4D, 0x50, 0x46, 0];

/// "Exif" and two zero bytes.
pub open spec fn exif_id() -> Seq<u8> {
    seq![0x45u8, 0x78, 0x69, 0x66, 0, 0]
}

/// "MPF" and a zero byte.
pub open spec fn mpf_id() -> Seq<u8> {
    seq![0x4Du8, 0x50, 0x46, 0]
}

/// A marker segment: its marker, where its body starts, where it ends.
#[verifier::ext_equal]
pub struct Segment {
    pub marker: u8,
    pub body: int,
    pub end: int,
}

/// Markers that stand alone, without a length.
pub open spec fn standalone(marker: u8) -> bool {
    0xD0 <= marker <= 0xD9 || marker == 0x01
}

/// Start-of-frame markers: SOF0..SOF15 except DHT(C4)/JPG(C8)/DAC(CC).
pub open spec fn is_sof(marker: u8) -> bool {
    0xC0 <= marker <= 0xCF && marker != 0xC4 && marker != 0xC8 && marker != 0xCC
}

/// The segments of a JPEG header from `pos` on, up to and including the first
/// start of frame. They end before a scan, before anything that is no
/// segment, and where the header ends.
pub open spec fn segments(h: Seq<u8>, pos: int) -> Seq<Segment>
    decreases h.len() - pos,
{
    if pos < 0 || pos + 4 > h.len() || h[pos] != 0xFF {
        Seq::empty()
    } else if standalone(h[pos + 1]) {
        segments(h, pos + 2)
    } else {
        let marker = h[pos + 1];
        let len = bytes::be16_at(h, pos + 2);
        let seg = Segment { marker, body: pos + 4, end: pos + 2 + len };
        if len < 2 || marker == 0xDA {
            Seq::empty()
        } else if is_sof(marker) || seg.end > h.len() {
            seq![seg]
        } else {
            seq![seg] + segments(h, pos + 2 + len)
        }
    }
}

/// What the segments of a JPEG header have said so far.
#[verifier::ext_equal]
pub struct Found {
    pub meta: meta::MetaView,
    pub mpf: Option<ByteRange>,
}

/// The TIFF structure in an APP1 segment, where it is an EXIF one.
pub open spec fn app1_tiff(h: Seq<u8>, s: Segment) -> Option<tiff::TiffView> {
    let end = if s.end <= h.len() {
        s.end
    } else {
        h.len() as int
    };
    if bytes::matches_at(h, s.body, exif_id()) && s.body + 6 <= end {
        match tiff::tiff_header(h.subrange(s.body + 6, end)) {
            Ok(t) => Some(t),
            Err(_) => None,
        }
    } else {
        None
    }
}

/// What is known after segment `s`.
pub open spec fn after_segment(h: Seq<u8>, file_size: u64, f: Found, s: Segment) -> Found {
    if s.marker == 0xE1 {
        match app1_tiff(h, s) {
            Some(t) => Found { meta: exif::with_ifd0(t, f.meta), ..f },
            None => f,
        }
    } else if s.marker == 0xE2 && bytes::matches_at(h, s.body, mpf_id()) {
        Found { mpf: mpf_image(h, s.body + 4, file_size), ..f }
    } else if is_sof(s.marker) && bytes::fits(h, s.body + 1, 4) {
        Found {
            meta: meta::MetaView {
                height: bytes::be16_at(h, s.body + 1) as u32,
                width: bytes::be16_at(h, s.body + 3) as u32,
                ..f.meta
            },
            ..f
        }
    } else {
        f
    }
}

/// What is known after all of `segs`.
pub open spec fn after_segments(
    h: Seq<u8>,
    file_size: u64,
    f: Found,
    segs: Seq<Segment>,
) -> Found
    decreases segs.len(),
{
    if segs.len() == 0 {
        f
    } else {
        after_segments(h, file_size, after_segment(h, file_size, f, segs[0]), segs.drop_first())
    }
}

/// Whether a header starts a JPEG stream.
pub open spec fn is_jpeg(h: Seq<u8>) -> bool {
    h.len() >= 4 && h[0] == 0xFF && h[1] == 0xD8
}

/// `m` with what a JPEG header says: EXIF and frame dimensions, the appended
/// preview image where the MPF index lists one (else the file itself), and
/// the file itself as the full-size image.
pub open spec fn with_jpeg(h: Seq<u8>, file_size: u64, m: meta::MetaView) -> meta::MetaView {
    let f = after_segments(h, file_size, Found { meta: m, mpf: None }, segments(h, 2));
    let whole = PreviewInfo {
        range: ByteRange { offset: 0, len: file_size },
        width: f.meta.width,
        height: f.meta.height,
        is_bare_jpeg: true,
    };
    meta::MetaView {
        preview: match f.mpf {
            Some(range) => Some(PreviewInfo { range, width: 0, height: 0, is_bare_jpeg: true }),
            None => Some(whole),
        },
        fullsize: Some(whole),
        ..f.meta
    }
}

/// Reads one marker segment whose body starts at `body`.
fn apply_segment(
    header: &[u8],
    file_size: u64,
    marker: u8,
    body: usize,
    end: usize,
    meta: &mut FileMeta,
    mpf: &mut Option<ByteRange>,
)
    requires
        body <= header.len(),
    ensures
        ({
            let s = Segment { marker, body: body as int, end: end as int };
            let f = after_segment(header@, file_size, Found { meta: old(meta)@, mpf: *old(mpf) }, s);
            final(meta)@ == f.meta && *final(mpf) == f.mpf
        }),
{
    assert(EXIF_ID@ =~= exif_id());
    assert(MPF_ID@ =~= mpf_id());
    if marker == 0xE1 {
        // APP1 Exif
        if bytes::has_at(header, body, EXIF_ID.as_slice()) {
            let tiff_end: usize = if end <= header.len() {
                end
            } else {
                header.len()
            };
            if let Some(tiff_bytes) = bytes::slice_of(header, body + 6, tiff_end) {
                if let Ok(t) = Tiff::parse(tiff_bytes) {
                    exif::apply_ifd0(&t, meta);
                }
            }
        }
    } else if marker == 0xE2 {
        // APP2 MPF: index of appended images (Canon: 1620px preview)
        if bytes::has_at(header, body, MPF_ID.as_slice()) {
            *mpf = parse_mpf(header, body + 4, file_size);
        }
    } else if marker >= 0xC0 && marker <= 0xCF && marker != 0xC4 && marker != 0xC8 && marker
        != 0xCC {
        if header.len() >= 5 && body <= header.len() - 5 {
            meta.height = bytes::be16(header, body + 1).unwrap() as u32;
            meta.width = bytes::be16(header, body + 3).unwrap() as u32;
        }
    }
}

/// Reads a JPEG file's header; false if it does not start a JPEG stream.
pub fn parse(header: &[u8], file_size: u64, meta: &mut FileMeta) -> (r: bool)
    ensures
        r == is_jpeg(header@),
        r ==> final(meta)@ == with_jpeg(header@, file_size, old(meta)@),
        !r ==> final(meta)@ == old(meta)@,
{
    if header.len() < 4 || header[0] != 0xFF || header[1] != 0xD8 {
        return false;
    }
    let ghost want = after_segments(
        header@,
        file_size,
        Found { meta: meta@, mpf: None },
        segments(header@, 2),
    );
    let mut mpf_preview: Option<ByteRange> = None;
    let mut pos: usize = 2;
    while header.len() >= 4 && pos <= header.len() - 4 && header[pos] == 0xFF
        invariant_except_break
            want == after_segments(
                header@,
                file_size,
                Found { meta: meta@, mpf: mpf_preview },
                segments(header@, pos as int),
            ),
        ensures
            want == (Found { meta: meta@, mpf: mpf_preview }),
        decreases header.len() - pos,
    {
        let marker: u8 = header[pos + 1];
        // Standalone markers without length
        if (marker >= 0xD0 && marker <= 0xD9) || marker == 0x01 {
            pos += 2;
            continue;
        }
        let seg_len: usize = bytes::be16(header, pos + 2).unwrap() as usize;
        if seg_len < 2 || marker == 0xDA {
            break;
        }
        let ghost seg = Segment { marker, body: pos + 4, end: pos + 2 + seg_len };
        let ghost f0 = Found { meta: meta@, mpf: mpf_preview };
        let ghost rest = segments(header@, pos as int);
        assert(rest[0] == seg);
        let past_end = seg_len > header.len() - pos - 2;
        let end: usize = if past_end {
            header.len()
        } else {
            pos + 2 + seg_len
        };
        assert(app1_tiff(header@, seg) == app1_tiff(
            header@,
            Segment { marker, body: pos + 4, end: end as int },
        ));
        apply_segment(header, file_size, marker, pos + 4, end, meta, &mut mpf_preview);
        if past_end || (marker >= 0xC0 && marker <= 0xCF && marker != 0xC4 && marker != 0xC8
            && marker != 0xCC) {
            proof {
                reveal_with_fuel(after_segments, 2);
                assert(rest.drop_first() =~= Seq::<Segment>::empty());
            }
            break;  // dims found; EXIF always precedes SOF in camera JPEGs
        }
        assert(rest.drop_first() =~= segments(header@, pos + 2 + seg_len));
        pos += 2 + seg_len;
    }
    let whole = PreviewInfo {
        range: ByteRange { offset: 0, len: file_size },
        width: meta.width,
        height: meta.height,
        is_bare_jpeg: true,
    };
    meta.preview = Some(
        match mpf_preview {
            Some(range) => PreviewInfo { range, width: 0, height: 0, is_bare_jpeg: true },
            None => whole,
        },
    );
    meta.fullsize = Some(whole);
    true
}

/// The first entry of `es` with the given tag.
pub open spec fn first_tag(es: Seq<tiff::EntryView>, tag: u16) -> Option<tiff::EntryView>
    decreases es.len(),
{
    if es.len() == 0 {
        None
    } else if es[0].tag == tag {
        Some(es[0])
    } else {
        first_tag(es.drop_first(), tag)
    }
}

/// Byte range of image `j` of an MPF index `v` whose offsets count from
/// `start`; nothing for the primary image and for one that does not lie in
/// the file.
pub open spec fn mp_image(
    v: Seq<u8>,
    le: bool,
    start: int,
    file_size: u64,
    j: int,
) -> Option<ByteRange> {
    let size = tiff::long_at(v, le, j * 16 + 4) as int;
    let off = tiff::long_at(v, le, j * 16 + 8) as int;
    if off != 0 && start + off + size <= file_size {
        Some(ByteRange { offset: (start + off) as u64, len: size as u64 })
    } else {
        None
    }
}

/// The largest of the first `n` images of an MPF index, the first among
/// equals.
pub open spec fn largest_image(
    v: Seq<u8>,
    le: bool,
    start: int,
    file_size: u64,
    n: int,
) -> Option<ByteRange>
    decreases n,
{
    if n <= 0 {
        None
    } else {
        let best = largest_image(v, le, start, file_size, n - 1);
        match (mp_image(v, le, start, file_size, n - 1), best) {
            (Some(i), Some(b)) => if i.len > b.len {
                Some(i)
            } else {
                Some(b)
            },
            (Some(i), None) => Some(i),
            (None, b) => b,
        }
    }
}

/// No image of an MPF index that lies in the file is larger than the one that
/// is picked, and one is picked if there is any.
pub proof fn picked_image_is_largest(
    v: Seq<u8>,
    le: bool,
    start: int,
    file_size: u64,
    n: int,
    j: int,
)
    requires
        0 <= j < n,
        mp_image(v, le, start, file_size, j) is Some,
    ensures
        largest_image(v, le, start, file_size, n) is Some,
        mp_image(v, le, start, file_size, j)->0.len <= largest_image(
            v,
            le,
            start,
            file_size,
            n,
        )->0.len,
    decreases n,
{
    if j < n - 1 {
        picked_image_is_largest(v, le, start, file_size, n - 1, j);
    }
}

/// The largest appended image that the MPF index at `start` lists.
pub open spec fn mpf_image(h: Seq<u8>, start: int, file_size: u64) -> Option<ByteRange> {
    match tiff::tiff_header(h.skip(start)) {
        Ok(t) => match first_tag(t.entries(t.first_ifd as int), TAG_MP_ENTRY) {
            Some(e) => match t.payload(e) {
                Some(v) => largest_image(v, t.le, start, file_size, e.count as int / 16),
                None => None,
            },
            None => None,
        },
        Err(_) => None,
    }
}

/// MPF index: TIFF structure at `tiff_start`; tag 0xB002 holds 16-byte MP
/// entries (attr, size, offset). Offsets are relative to the TIFF header;
/// image 0 (offset 0) is the primary. Returns the largest non-primary image.
fn parse_mpf(header: &[u8], tiff_start: usize, file_size: u64) -> (r: Option<ByteRange>)
    requires
        tiff_start <= header.len(),
    ensures
        r == mpf_image(header@, tiff_start as int, file_size),
{
    let body = vstd::slice::slice_subrange(header, tiff_start, header.len());
    assert(body@ =~= header@.skip(tiff_start as int));
    let t = match Tiff::parse(body) {
        Ok(t) => t,
        Err(_) => return None,
    };
    let (entries, _) = t.ifd(t.first_ifd);
    let ghost es = t@.entries(t.first_ifd as int);
    let mut k: usize = 0;
    assert(es.skip(0) =~= es);
    while k < entries.len() && entries[k].tag != TAG_MP_ENTRY
        invariant
            k <= entries.len(),
            tiff::entry_views(entries@) == es,
            first_tag(es, TAG_MP_ENTRY) == first_tag(es.skip(k as int), TAG_MP_ENTRY),
        decreases entries.len() - k,
    {
        assert(es.skip(k as int)[0] == entries[k as int]@);
        assert(es.skip(k as int).drop_first() =~= es.skip(k + 1));
        k += 1;
    }
    if k >= entries.len() {
        return None;
    }
    let e = &entries[k];
    assert(es.skip(k as int)[0] == e@);
    let v = t.value_bytes(e)?;
    let n: usize = e.count as usize / 16;
    let start: u64 = tiff_start as u64;
    assert(v@.len() >= 16 * n) by {
        let w = tiff::type_width(e.kind);
        let c = e.count as int;
        assert(w * c >= c) by (nonlinear_arith)
            requires
                w >= 1,
                c >= 0,
        ;
    }
    let mut best: Option<ByteRange> = None;
    let mut j: usize = 0;
    while j < n
        invariant
            j <= n,
            16 * n <= v.len(),
            best == largest_image(v@, t.le, start as int, file_size, j as int),
        decreases n - j,
    {
        let size: u64 = t.long_in(v, j * 16 + 4).unwrap() as u64;
        let off: u64 = t.long_in(v, j * 16 + 8).unwrap() as u64;
        if off != 0 && size <= file_size && off <= file_size - size && start <= file_size - size
            - off {
            let larger = match best {
                Some(b) => size > b.len,
                None => true,
            };
            if larger {
                best = Some(ByteRange { offset: start + off, len: size });
            }
        }
        j += 1;
    }
    best
}

/// A segment is read back from its bytes wherever it stands; the next one is
/// looked for behind it, unless it is a start of frame.
pub proof fn segments_read_back(pre: Seq<u8>, marker: u8, body: Seq<u8>, rest: Seq<u8>)
    requires
        !(0xD0 <= marker <= 0xDA),
        marker != 0x01,
        body.len() + 2 <= 0xffff,
    ensures
        ({
            let h = pre + seq![0xFFu8, marker] + bytes::be16_bytes((body.len() + 2) as u16) + body
                + rest;
            let pos = pre.len() as int;
            let seg = Segment { marker, body: pos + 4, end: pos + 4 + body.len() };
            let frame = 0xC0 <= marker <= 0xCF && marker != 0xC4 && marker != 0xC8 && marker
                != 0xCC;
            &&& frame ==> segments(h, pos) == seq![seg]
            &&& !frame ==> segments(h, pos) == seq![seg] + segments(h, pos + 4 + body.len())
            &&& h.subrange(seg.body, seg.end) == body
        }),
{
    let n = (body.len() + 2) as u16;
    let h = pre + seq![0xFFu8, marker] + bytes::be16_bytes(n) + body + rest;
    let pos = pre.len() as int;
    assert(h[pos] == 0xFF && h[pos + 1] == marker);
    assert(h.subrange(pos + 2, pos + 4) =~= bytes::be16_bytes(n));
    bytes::numbers_read_back(h, pos + 2, n, 0, 0);
    assert(h.subrange(pos + 4, pos + 4 + body.len()) =~= body);
}

/// A start of frame gives the dimensions: height in its bytes 1 and 2, width
/// in 3 and 4. Nothing else of the file changes.
pub proof fn frames_give_the_dimensions(h: Seq<u8>, file_size: u64, f: Found, s: Segment)
    requires
        0xC0 <= s.marker <= 0xCF,
        s.marker != 0xC4 && s.marker != 0xC8 && s.marker != 0xCC,
        0 <= s.body,
        s.body + 5 <= h.len(),
    ensures
        ({
            let g = after_segment(h, file_size, f, s);
            &&& g.meta.height == 256 * h[s.body + 1] + h[s.body + 2]
            &&& g.meta.width == 256 * h[s.body + 3] + h[s.body + 4]
            &&& g.mpf == f.mpf && g.meta.ts == f.meta.ts && g.meta.make == f.meta.make
            &&& g.meta.orientation == f.meta.orientation && g.meta.serial == f.meta.serial
        }),
{
}

/// A JPEG file is its own full-size image; its preview is the one that its
/// index of appended images gives, else the file itself.
pub proof fn a_jpeg_is_its_own_image(h: Seq<u8>, file_size: u64, m: meta::MetaView)
    ensures
        ({
            let r = with_jpeg(h, file_size, m);
            let f = after_segments(h, file_size, Found { meta: m, mpf: None }, segments(h, 2));
            &&& r.fullsize matches Some(p) && p.range.offset == 0 && p.range.len == file_size
                && p.width == r.width && p.height == r.height && p.is_bare_jpeg
            &&& f.mpf is None ==> r.preview == r.fullsize
            &&& f.mpf matches Some(range) ==> (r.preview matches Some(p) && p.range == range
                && p.is_bare_jpeg)
        }),
{
}

/// An appended image stands where its entry says, counted from the index: its
/// size in the second number of the entry, its place in the third. The primary
/// image, at 0, is none of them, nor is one that runs past the file.
pub proof fn appended_images_lie_in_the_file(
    v: Seq<u8>,
    le: bool,
    start: int,
    file_size: u64,
    j: int,
    size: u32,
    off: u32,
)
    requires
        0 <= start,
        0 <= j,
        16 * j + 12 <= v.len(),
        v.subrange(16 * j + 4, 16 * j + 8) == tiff::long_bytes(le, size),
        v.subrange(16 * j + 8, 16 * j + 12) == tiff::long_bytes(le, off),
    ensures
        off == 0 || start + off + size > file_size ==> mp_image(v, le, start, file_size, j) is None,
        off != 0 && start + off + size <= file_size ==> (mp_image(
            v,
            le,
            start,
            file_size,
            j,
        ) matches Some(r) && r.offset == start + off && r.len == size),
{
    bytes::numbers_read_back(v, 16 * j + 4, 0, size, 0);
    bytes::numbers_read_back(v, 16 * j + 8, 0, off, 0);
}

/// What names a file stays, whatever its segments say.
pub(crate) proof fn lemma_file_stays(h: Seq<u8>, file_size: u64, f: Found, segs: Seq<Segment>)
    ensures
        ({
            let g = after_segments(h, file_size, f, segs).meta;
            g.path == f.meta.path && g.size == f.meta.size && g.kind == f.meta.kind
                && g.content_key == f.meta.content_key
        }),
    decreases segs.len(),
{
    if segs.len() > 0 {
        lemma_file_stays(
            h,
            file_size,
            after_segment(h, file_size, f, segs[0]),
            segs.drop_first(),
        );
    }
}

} // verus!
