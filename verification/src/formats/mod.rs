//! Header parsers of the supported file formats.

use vstd::prelude::*;
use crate::io::{past_end, ReadRange};
use crate::meta;
use crate::meta::{FileKind, FileMeta, PreviewInfo};
use crate::path;
use crate::text;

pub mod canon;
pub mod cr2;
pub mod cr3;
pub mod exif;
pub mod jpeg;
pub mod tiff;

verus! {

#[derive(Debug)]
pub enum ParseError {
    /// Unsupported file type.
    Unsupported,
    /// Reading failed.
    Io(std::io::Error),
    /// Not a sound CR3 file.
    Cr3(cr3::Cr3Error),
}

/// The kind of file that a lower-case extension stands for.
pub open spec fn kind_named(ext: Seq<char>) -> Option<FileKind> {
    if ext == "cr3"@ {
        Some(FileKind::Cr3)
    } else if ext == "cr2"@ {
        Some(FileKind::Cr2)
    } else if ext == "jpg"@ || ext == "jpeg"@ {
        Some(FileKind::Jpeg)
    } else if ext == "hif"@ || ext == "heif"@ || ext == "heic"@ {
        Some(FileKind::Heif)
    } else {
        None
    }
}

/// The kind of file that an extension, in any case, stands for.
pub fn kind_of_extension(ext: &str) -> (r: Option<FileKind>)
    ensures
        r == kind_named(text::lower(ext@)),
{
    let e = text::to_lower(ext);
    let s = e.as_str();
    if text::str_eq(s, "cr3") {
        Some(FileKind::Cr3)
    } else if text::str_eq(s, "cr2") {
        Some(FileKind::Cr2)
    } else if text::str_eq(s, "jpg") || text::str_eq(s, "jpeg") {
        Some(FileKind::Jpeg)
    } else if text::str_eq(s, "hif") || text::str_eq(s, "heif") || text::str_eq(s, "heic") {
        Some(FileKind::Heif)
    } else {
        None
    }
}

/// The kind of file that the extension of a path stands for.
pub open spec fn kind_of_path(p: Seq<char>) -> Option<FileKind> {
    match path::shared_extension(p) {
        Some(e) => kind_named(text::lower(e)),
        None => None,
    }
}

/// The kind of file that a path's extension stands for.
pub fn kind_from_ext(path: &str) -> (r: Option<FileKind>)
    ensures
        path::typed(path@) ==> r == kind_of_path(path@),
{
    proof {
        if path::readable(path@) {
            path::lemma_readable(path@);
        }
    }
    match path::extension(path) {
        Some(e) => kind_of_extension(e.as_str()),
        None => None,
    }
}

/// Which embedded JPEG the main preview, sharpness scoring and tracking are
/// computed from. Thumbnails always use the embedded preview.
#[derive(Debug, Clone, Copy, PartialEq, Eq, Structural)]
pub enum Source {
    /// The camera's embedded preview (Canon JPG: 1620px MPF appendix; CR3: PRVW).
    Embedded,
    /// The full-size image (JPG: the file itself; CR3: the native-res embedded
    /// JPEG). CR2 has none and falls back to its IFD0 preview.
    Full,
}

impl Default for Source {
    fn default() -> (r: Self)
        ensures
            r == Source::Embedded,
    {
        Source::Embedded
    }
}

impl Source {
    /// The source of the given name.
    pub fn named(s: &str) -> (r: Result<Source, String>)
        ensures
            s@ == "embedded"@ ==> r == Ok::<Source, String>(Source::Embedded),
            s@ == "full"@ ==> r == Ok::<Source, String>(Source::Full),
            s@ != "embedded"@ && s@ != "full"@ ==> r is Err && r->Err_0@
                == "expected embedded|full, got "@ + s@,
    {
        proof {
            reveal_strlit("embedded");
            reveal_strlit("full");
            assert("embedded"@.len() != "full"@.len());
        }
        if text::str_eq(s, "embedded") {
            Ok(Source::Embedded)
        } else if text::str_eq(s, "full") {
            Ok(Source::Full)
        } else {
            Err(text::joined("expected embedded|full, got ", s))
        }
    }
}

impl std::str::FromStr for Source {
    type Err = String;

    /// The source of the given name, as `Source::named` reads it.
    fn from_str(s: &str) -> (r: Result<Self, String>)
        ensures
            s@ == "embedded"@ ==> r == Ok::<Source, String>(Source::Embedded),
            s@ == "full"@ ==> r == Ok::<Source, String>(Source::Full),
            s@ != "embedded"@ && s@ != "full"@ ==> r is Err && r->Err_0@
                == "expected embedded|full, got "@ + s@,
    {
        Source::named(s)
    }
}

/// The 64-bit XXH3 hash of some bytes.
pub uninterp spec fn xxh3(b: Seq<u8>) -> u64;

/// `xxhash_rust::xxh3::xxh3_64`: the XXH3 hash with the default secret and
/// seed 0. It depends on the bytes alone; which number it is is left to the
/// name `xxh3`.
#[verifier::external_body]
fn xxh3_64(b: &[u8]) -> (r: u64)
    ensures
        r == xxh3(b@),
{
    xxhash_rust::xxh3::xxh3_64(b)
}

/// Bytes at the start of a file that its content key covers.
pub const KEY_BYTES: usize = 65536;

/// The key of a file that starts with `header`.
pub open spec fn key_of(header: Seq<u8>) -> u64 {
    xxh3(
        if header.len() < KEY_BYTES {
            header
        } else {
            header.take(KEY_BYTES as int)
        },
    )
}

/// The key of a file that starts with `header`.
pub fn content_key(header: &[u8]) -> (r: u64)
    ensures
        r == key_of(header@),
{
    if header.len() < KEY_BYTES {
        xxh3_64(header)
    } else {
        let head = vstd::slice::slice_subrange(header, 0, KEY_BYTES);
        assert(head@ =~= header@.take(KEY_BYTES as int));
        xxh3_64(head)
    }
}

/// What is known of a file after its header is read, if it is sound: `m` says
/// what was known before, `file` is all of the file.
pub open spec fn header_meta(
    header: Seq<u8>,
    file: Seq<u8>,
    m: meta::MetaView,
) -> Option<meta::MetaView> {
    let k = meta::MetaView { content_key: key_of(header), ..m };
    match m.kind {
        FileKind::Cr3 => match cr3::moov_box(header) {
            Some(b) => Some(
                cr3::with_cr3(header, cr3::moov_bytes(header, file, b), b.start as u64, k),
            ),
            None => None,
        },
        FileKind::Cr2 => match tiff::tiff_header(header) {
            Ok(t) if cr2::cr2_mark(header) => Some(cr2::with_cr2(t, k)),
            _ => None,
        },
        FileKind::Jpeg => if jpeg::is_jpeg(header) {
            Some(jpeg::with_jpeg(header, m.size, k))
        } else {
            None
        },
        FileKind::Heif => Some(k),
    }
}

/// Whether the header says all that is read of the file.
pub open spec fn says_all(header: Seq<u8>, kind: FileKind) -> bool {
    kind == FileKind::Cr3 && cr3::moov_box(header) is Some ==> cr3::payload(
        header,
        cr3::moov_box(header)->0,
    ) is Some
}

/// Whether all that is read of the file is sure to be had: the header says it
/// all, or `r` cannot fail to give the rest.
pub open spec fn suffices<R: ReadRange>(r: R, header: Seq<u8>, kind: FileKind) -> bool {
    says_all(header, kind) || {
        let b = cr3::moov_box(header)->0;
        b.len <= usize::MAX && r.sure(b.start as int, b.start + b.len)
    }
}

/// Reads the header of a file of which path, size and kind are known.
pub fn apply_header<R: ReadRange>(r: &mut R, header: &[u8], meta: &mut FileMeta) -> (res: Result<
    (),
    ParseError,
>)
    ensures
        ({
            let want = header_meta(header@, old(r).content(), old(meta)@);
            &&& res is Ok ==> want == Some(final(meta)@)
            &&& want is None ==> res is Err
            &&& want is Some && suffices(*old(r), header@, old(meta).kind) ==> res is Ok
            &&& res matches Err(e) ==> if old(meta).kind == FileKind::Cr3 {
                &&& e is Cr3
                &&& want is None <==> e->Cr3_0 is NotCr3
            } else {
                e is Unsupported
            }
        }),
        final(r).content() == old(r).content(),
        says_all(header@, old(meta).kind) ==> *final(r) == *old(r),
{
    meta.content_key = content_key(header);
    match meta.kind {
        FileKind::Cr3 => match cr3::parse(r, header, meta) {
            Ok(()) => Ok(()),
            Err(e) => Err(ParseError::Cr3(e)),
        },
        FileKind::Cr2 => {
            if !cr2::is_cr2(header) || !cr2::parse(header, meta) {
                Err(ParseError::Unsupported)
            } else {
                Ok(())
            }
        },
        FileKind::Jpeg => {
            let size: u64 = meta.size;
            if !jpeg::parse(header, size, meta) {
                Err(ParseError::Unsupported)
            } else {
                Ok(())
            }
        },
        FileKind::Heif => Ok(()),
    }
}

/// Stage-A header parse: extract metadata and preview byte ranges of the file
/// at `path`, whose start is `header` and which `r` reads.
pub fn parse_header<R: ReadRange>(path: &str, r: &mut R, header: &[u8]) -> (res: Result<
    FileMeta,
    ParseError,
>)
    ensures
        final(r).content() == old(r).content(),
        path::typed(path@) && (kind_of_path(path@) matches Some(kind) ==> says_all(header@, kind))
            ==> *final(r) == *old(r),
        path::typed(path@) ==> match kind_of_path(path@) {
            None => res matches Err(ParseError::Unsupported),
            Some(kind) => {
                let m = meta::MetaView {
                    file_number: meta::number_of_stem(path::shared_stem(path@)),
                    ..meta::blank_meta(path@, old(r).content().len() as u64, kind)
                };
                let want = header_meta(header@, old(r).content(), m);
                &&& res is Ok ==> want == Some(res->Ok_0@)
                &&& want is None ==> res is Err
                &&& want is Some && suffices(*old(r), header@, kind) ==> res is Ok
                &&& res matches Err(e) ==> if kind == FileKind::Cr3 {
                    &&& e is Cr3
                    &&& want is None <==> e->Cr3_0 is NotCr3
                } else {
                    e is Unsupported
                }
            },
        },
{
    let kind = match kind_from_ext(path) {
        Some(k) => k,
        None => return Err(ParseError::Unsupported),
    };
    let size: u64 = r.len();
    let mut meta = FileMeta::new(text::copy_of(path), size, kind);
    match apply_header(r, header, &mut meta) {
        Ok(()) => Ok(meta),
        Err(e) => Err(e),
    }
}

/// Where the JPEG to work from stands: `Embedded` = preview (thumb fallback);
/// `Full` = full-size JPEG, falling back to the preview where a format has
/// none (CR2).
pub open spec fn jpeg_place(m: meta::MetaView, source: Source) -> Option<PreviewInfo> {
    let small = match m.preview {
        Some(p) => Some(p),
        None => m.thumb,
    };
    match (source, m.fullsize) {
        (Source::Full, Some(p)) => Some(p),
        _ => small,
    }
}

/// Where the JPEG to work from stands.
pub fn find_jpeg(meta: &FileMeta, source: Source) -> (r: Option<PreviewInfo>)
    ensures
        r == jpeg_place(meta@, source),
{
    if source == Source::Full && meta.fullsize.is_some() {
        meta.fullsize
    } else if meta.preview.is_some() {
        meta.preview
    } else {
        meta.thumb
    }
}

/// The JPEG stream and its dimensions in the bytes `area` that `info` locates.
pub open spec fn jpeg_in(info: PreviewInfo, area: Seq<u8>) -> Option<(Seq<u8>, int, int)> {
    if info.is_bare_jpeg {
        Some((area, info.width as int, info.height as int))
    } else {
        match cr3::prvw_jpeg(area) {
            Some(p) => Some((area.subrange(p.start, p.start + p.len), p.width, p.height)),
            None => None,
        }
    }
}

/// Stage-B extraction: the JPEG bytes to work from, read by `r`. Second and
/// third value = pixel dims if known.
pub fn extract_jpeg<R: ReadRange>(r: &mut R, meta: &FileMeta, source: Source) -> (res: Result<
    Option<(Vec<u8>, u32, u32)>,
    ParseError,
>)
    ensures
        final(r).content() == old(r).content(),
        res is Err ==> res->Err_0 is Io,
        jpeg_place(meta@, source) matches Some(info) && info.range.len <= usize::MAX && old(r).sure(
            info.range.offset as int,
            info.range.offset + info.range.len,
        ) ==> res is Ok,
        match jpeg_place(meta@, source) {
            None => res matches Ok(None),
            Some(info) => res matches Ok(got) ==> {
                let lo = info.range.offset as int;
                let hi = lo + info.range.len;
                let want = jpeg_in(info, old(r).content().subrange(lo, hi));
                &&& hi <= old(r).content().len()
                &&& got is Some <==> want is Some
                &&& got matches Some(g) ==> {
                    let w = want->0;
                    g.0@ == w.0 && g.1 == w.1 && g.2 == w.2
                }
            },
        },
{
    let info = match find_jpeg(meta, source) {
        Some(i) => i,
        None => return Ok(None),
    };
    if info.range.len > usize::MAX as u64 {
        return Err(ParseError::Io(past_end()));
    }
    let buf = match r.read_range(info.range.offset, info.range.len as usize) {
        Ok(b) => b,
        Err(e) => return Err(ParseError::Io(e)),
    };
    if info.is_bare_jpeg {
        return Ok(Some((buf, info.width, info.height)));
    }
    // CR3 preview uuid area: locate PRVW jpeg within
    match cr3::locate_prvw_jpeg(&buf) {
        Some((start, len, w, h)) => {
            let part = vstd::slice::slice_subrange(buf.as_slice(), start, start + len);
            let mut out: Vec<u8> = Vec::new();
            out.extend_from_slice(part);
            assert(out@ =~= part@);
            Ok(Some((out, w, h)))
        },
        None => Ok(None),
    }
}

/// The key of a file depends on its first 65536 bytes alone, and on all of
/// them.
pub proof fn keys_cover_the_start(a: Seq<u8>, b: Seq<u8>)
    ensures
        a.len() >= 65536 && b.len() >= 65536 && a.take(65536) == b.take(65536) ==> key_of(a)
            == key_of(b),
        a.len() <= 65536 ==> key_of(a) == xxh3(a),
        a.len() > 65536 ==> key_of(a) == xxh3(a.take(65536)),
{
    if a.len() == 65536 {
        assert(a.take(65536) =~= a);
    }
}

/// What kind of file an extension stands for does not depend on its case, and
/// an extension of more than four letters or fewer than three stands for none.
pub proof fn extensions_are_told_apart(ext: Seq<char>, kind: FileKind)
    ensures
        kind_named(ext) == Some(kind) <==> match kind {
            FileKind::Cr3 => ext == seq!['c', 'r', '3'],
            FileKind::Cr2 => ext == seq!['c', 'r', '2'],
            FileKind::Jpeg => ext == seq!['j', 'p', 'g'] || ext == seq!['j', 'p', 'e', 'g'],
            FileKind::Heif => ext == seq!['h', 'i', 'f'] || ext == seq!['h', 'e', 'i', 'f'] || ext
                == seq!['h', 'e', 'i', 'c'],
        },
{
    reveal_strlit("cr3");
    reveal_strlit("cr2");
    reveal_strlit("jpg");
    reveal_strlit("jpeg");
    reveal_strlit("hif");
    reveal_strlit("heif");
    reveal_strlit("heic");
    assert("cr3"@ =~= seq!['c', 'r', '3']);
    assert("cr2"@ =~= seq!['c', 'r', '2']);
    assert("jpg"@ =~= seq!['j', 'p', 'g']);
    assert("jpeg"@ =~= seq!['j', 'p', 'e', 'g']);
    assert("hif"@ =~= seq!['h', 'i', 'f']);
    assert("heif"@ =~= seq!['h', 'e', 'i', 'f']);
    assert("heic"@ =~= seq!['h', 'e', 'i', 'c']);
    assert(ext == "cr3"@ ==> ext[2] == '3');
    assert(ext == "cr2"@ ==> ext[2] == '2');
    assert(ext == "jpg"@ ==> ext[0] == 'j');
    assert(ext == "jpeg"@ ==> ext[0] == 'j');
    assert(ext == "hif"@ ==> ext[0] == 'h');
    assert(ext == "heif"@ ==> ext[0] == 'h');
    assert(ext == "heic"@ ==> ext[0] == 'h');
}

/// What is worked from: the full-size image where that is wanted and there is
/// one, else the preview, else the thumbnail. There is something wherever
/// there is a preview or a thumbnail.
pub proof fn the_best_image_at_hand_is_taken(m: meta::MetaView)
    ensures
        m.fullsize is Some ==> jpeg_place(m, Source::Full) == m.fullsize,
        m.fullsize is None ==> jpeg_place(m, Source::Full) == jpeg_place(m, Source::Embedded),
        m.preview is Some ==> jpeg_place(m, Source::Embedded) == m.preview,
        m.preview is None ==> jpeg_place(m, Source::Embedded) == m.thumb,
{
}

/// A header gives a file its key and never another name, size or kind. A CR2
/// header is a TIFF one with "CR" and 2 behind it, a JPEG header starts with
/// the start-of-image marker, a CR3 header has a moov box; others are refused.
pub proof fn headers_are_told_by_their_marks(
    header: Seq<u8>,
    file: Seq<u8>,
    m: meta::MetaView,
)
    ensures
        header_meta(header, file, m) matches Some(r) ==> r.content_key == key_of(header) && r.path
            == m.path && r.size == m.size && r.kind == m.kind,
        m.kind == FileKind::Jpeg ==> (header_meta(header, file, m) is Some <==> header.len() >= 4
            && header[0] == 0xFF && header[1] == 0xD8),
        m.kind == FileKind::Cr2 ==> (header_meta(header, file, m) is Some <==> tiff::tiff_header(
            header,
        ) is Ok && header.len() >= 12 && header[8] == 'C' as u8 && header[9] == 'R' as u8
            && header[10] == 2),
        m.kind == FileKind::Cr3 ==> (header_meta(header, file, m) is Some <==> cr3::moov_box(
            header,
        ) is Some),
        m.kind == FileKind::Heif ==> header_meta(header, file, m) == Some(
            meta::MetaView { content_key: key_of(header), ..m },
        ),
{
    let k = meta::MetaView { content_key: key_of(header), ..m };
    if m.kind == FileKind::Jpeg {
        jpeg::lemma_file_stays(
            header,
            m.size,
            jpeg::Found { meta: k, mpf: None },
            jpeg::segments(header, 2),
        );
    } else if m.kind == FileKind::Cr3 && cr3::moov_box(header) is Some {
        let b = cr3::moov_box(header)->0;
        cr3::canon_previews_count_first(
            header,
            cr3::moov_bytes(header, file, b),
            b.start as u64,
            k,
        );
    }
}

} // verus!
