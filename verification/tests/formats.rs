use fd_core::formats::canon::af_box_from_words;
use fd_core::formats::cr2::is_cr2;
use fd_core::formats::cr3::{locate_prvw_jpeg, missing_moov, Cr3Error};
use fd_core::formats::tiff::{Tiff, TiffError};
use fd_core::formats::{
    content_key, extract_jpeg, kind_from_ext, parse_header, ParseError, Source,
};
use fd_core::io::{header_len, plan_read, Chunks, ReadPlan, ReadRange, HEADER_READ};
use fd_core::meta::{ByteRange, FileKind, FileMeta, PreviewInfo};

/// A file that is in memory as a whole.
fn whole(bytes: Vec<u8>) -> Chunks {
    Chunks::new(bytes.len() as u64, bytes, 0, vec![])
}

fn parse(path: &str, bytes: Vec<u8>) -> Result<FileMeta, ParseError> {
    let header: Vec<u8> = bytes[..header_len(bytes.len() as u64)].to_vec();
    parse_header(path, &mut whole(bytes), &header)
}

fn extract(bytes: &[u8], m: &FileMeta, s: Source) -> Option<(Vec<u8>, u32, u32)> {
    extract_jpeg(&mut whole(bytes.to_vec()), m, s).ok().expect("readable")
}

/// One tag of a directory: number, type, count, and the value's bytes.
type Tag = (u16, u16, u32, Vec<u8>);

fn short(tag: u16, v: u16) -> Tag {
    (tag, 3, 1, v.to_le_bytes().to_vec())
}

fn long(tag: u16, v: u32) -> Tag {
    (tag, 4, 1, v.to_le_bytes().to_vec())
}

fn ascii(tag: u16, s: &str) -> Tag {
    let mut b = s.as_bytes().to_vec();
    b.push(0);
    (tag, 2, b.len() as u32, b)
}

fn rational(tag: u16, n: u32, d: u32) -> Tag {
    let mut b = n.to_le_bytes().to_vec();
    b.extend_from_slice(&d.to_le_bytes());
    (tag, 5, 1, b)
}

/// A little-endian directory that starts at offset `at`, with its values
/// after it.
fn ifd(at: usize, tags: &[Tag], next: u32) -> Vec<u8> {
    let mut head: Vec<u8> = (tags.len() as u16).to_le_bytes().to_vec();
    let mut tail: Vec<u8> = Vec::new();
    let tail_at = at + 2 + 12 * tags.len() + 4;
    for (tag, kind, count, value) in tags {
        head.extend_from_slice(&tag.to_le_bytes());
        head.extend_from_slice(&kind.to_le_bytes());
        head.extend_from_slice(&count.to_le_bytes());
        if value.len() <= 4 {
            let mut raw = value.clone();
            raw.resize(4, 0);
            head.extend_from_slice(&raw);
        } else {
            head.extend_from_slice(&((tail_at + tail.len()) as u32).to_le_bytes());
            tail.extend_from_slice(value);
        }
    }
    head.extend_from_slice(&next.to_le_bytes());
    head.extend_from_slice(&tail);
    head
}

fn tiff_header(first: u32) -> Vec<u8> {
    let mut t = b"II\x2a\x00".to_vec();
    t.extend_from_slice(&first.to_le_bytes());
    t
}

/// A TIFF structure with one directory.
fn tiff(tags: &[Tag]) -> Vec<u8> {
    let mut t = tiff_header(8);
    t.extend_from_slice(&ifd(8, tags, 0));
    t
}

fn exif_tags() -> Vec<Tag> {
    vec![
        rational(0x829A, 1, 2000),
        rational(0x829D, 56, 10),
        long(0x8827, 640),
        ascii(0x9003, "2025:05:03 15:12:50"),
        ascii(0x9291, "07"),
        rational(0x920A, 500, 1),
        ascii(0xA431, "012345"),
        ascii(0xA434, "RF500mm"),
    ]
}

/// AF words of one small area, in focus.
fn af_words() -> Vec<u16> {
    words(&[(199, 199, 1969, 349)], 1)
}

fn words(areas: &[(u16, u16, i16, i16)], in_focus: u16) -> Vec<u16> {
    let n = areas.len();
    let mut w = vec![0u16, 22, n as u16, 1, 8192, 5464, 8192, 5464];
    w.extend(areas.iter().map(|a| a.0));
    w.extend(areas.iter().map(|a| a.1));
    w.extend(areas.iter().map(|a| a.2 as u16));
    w.extend(areas.iter().map(|a| a.3 as u16));
    w.push(in_focus);
    w.push(in_focus);
    w[0] = 2 * w.len() as u16;
    w
}

fn af_tag() -> Tag {
    let w = af_words();
    (0x0026, 3, w.len() as u32, w.iter().flat_map(|v| v.to_le_bytes()).collect())
}

/// IFD0 with the Exif directory behind it.
fn camera_tiff() -> Vec<u8> {
    let ifd0 = |exif_at: u32| {
        ifd(
            8,
            &[
                ascii(0x010F, "Canon"),
                ascii(0x0110, "Canon EOS R5m2"),
                short(0x0112, 6),
                long(0x8769, exif_at),
            ],
            0,
        )
    };
    let exif_at = 8 + ifd0(0).len();
    let mut t = tiff_header(8);
    t.extend_from_slice(&ifd0(exif_at as u32));
    let mut tags = exif_tags();
    // the MakerNote is a directory of its own, behind the Exif directory
    let note_len = ifd(0, &[af_tag()], 0).len();
    tags.push((0x927C, 7, note_len as u32, vec![0; note_len]));
    let body_len = ifd(exif_at, &tags, 0).len();
    let note_at = exif_at + body_len - note_len;
    let mut body = ifd(exif_at, &tags, 0);
    body.truncate(body_len - note_len);
    t.extend_from_slice(&body);
    t.extend_from_slice(&ifd(note_at, &[af_tag()], 0));
    t
}

fn segment(marker: u8, body: &[u8]) -> Vec<u8> {
    let mut s = vec![0xff, marker];
    s.extend_from_slice(&((body.len() + 2) as u16).to_be_bytes());
    s.extend_from_slice(body);
    s
}

fn sof(w: u16, h: u16) -> Vec<u8> {
    let mut b = vec![8];
    b.extend_from_slice(&h.to_be_bytes());
    b.extend_from_slice(&w.to_be_bytes());
    b.extend_from_slice(&[1, 1, 0x11, 0]);
    segment(0xc0, &b)
}

/// A camera JPEG with Exif, an index of appended images, and a preview of
/// `preview` bytes at its end.
fn camera_jpeg(preview: usize) -> Vec<u8> {
    let mut f = vec![0xff, 0xd8];
    let mut app1 = b"Exif\0\0".to_vec();
    app1.extend_from_slice(&camera_tiff());
    f.extend_from_slice(&segment(0xe1, &app1));
    let mpf_tiff_at = f.len() + 4 + 4;
    let mpf = |off: u32| {
        let mut v: Vec<u8> = Vec::new();
        for (size, at) in [(9999u32, 0u32), (preview as u32, off), (7, off)] {
            v.extend_from_slice(&0u32.to_le_bytes());
            v.extend_from_slice(&size.to_le_bytes());
            v.extend_from_slice(&at.to_le_bytes());
            v.extend_from_slice(&0u32.to_le_bytes());
        }
        let mut b = b"MPF\0".to_vec();
        b.extend_from_slice(&tiff(&[(0xB002, 7, 48, v)]));
        segment(0xe2, &b)
    };
    let rest_at = f.len() + mpf(0).len() + sof(8192, 5464).len();
    f.extend_from_slice(&mpf((rest_at - mpf_tiff_at) as u32));
    f.extend_from_slice(&sof(8192, 5464));
    assert_eq!(f.len(), rest_at);
    f.extend_from_slice(&[0xff, 0xd8]);
    f.extend(vec![0x11u8; preview - 2]);
    f
}

#[test]
fn jpeg_headers_are_read() {
    let f = camera_jpeg(300);
    let m = parse("/cards/4P4A1410.JPG", f.clone()).ok().expect("parses");
    assert_eq!(m.kind, FileKind::Jpeg);
    assert_eq!(m.make.as_deref(), Some("Canon"));
    assert_eq!(m.model.as_deref(), Some("Canon EOS R5m2"));
    assert_eq!(m.serial.as_deref(), Some("012345"));
    assert_eq!(m.lens.as_deref(), Some("RF500mm"));
    assert_eq!(m.ts.unwrap().unix_centis, 1746285170_07);
    assert_eq!(m.exposure.iso, Some(640));
    assert_eq!(m.exposure.time, Some((1, 2000)));
    let fno = m.exposure.f_number.expect("an aperture");
    assert_eq!(fno, (56, 10));
    assert_eq!(m.orientation, 6);
    assert_eq!((m.width, m.height), (8192, 5464));
    assert_eq!(m.display_dims(), (5464, 8192));
    assert_eq!(m.file_number, Some(1410));
    let eye = m.af_box_eye().expect("an eye frame");
    assert_eq!((eye.x, eye.y, eye.w, eye.h, eye.mode), (1969, 349, 199, 199, 22));
    // the largest appended image is the preview, the file itself the rest
    let at = f.len() as u64 - 300;
    assert_eq!(m.preview.unwrap().range, ByteRange { offset: at, len: 300 });
    assert_eq!(m.fullsize.unwrap().range, ByteRange { offset: 0, len: f.len() as u64 });
    let (jpeg, w, h) = extract(&f, &m, Source::Embedded).unwrap();
    assert_eq!((jpeg.len(), w, h), (300, 0, 0));
    assert_eq!(&jpeg[0..2], &[0xff, 0xd8]);
    let (full, w, h) = extract(&f, &m, Source::Full).unwrap();
    assert_eq!(full, f);
    assert_eq!((w, h), (8192, 5464));
}

#[test]
fn jpegs_without_an_appendix_are_their_own_preview() {
    let mut f = vec![0xff, 0xd8];
    f.extend_from_slice(&sof(30, 20));
    let m = parse("/x/a.jpeg", f.clone()).ok().expect("parses");
    assert_eq!(m.preview, m.fullsize);
    assert_eq!(
        m.preview,
        Some(PreviewInfo {
            range: ByteRange { offset: 0, len: f.len() as u64 },
            width: 30,
            height: 20,
            is_bare_jpeg: true,
        })
    );
    assert!(m.ts.is_none() && m.af_box.is_none());
    assert!(matches!(parse("/x/a.jpg", vec![1, 2, 3, 4]), Err(ParseError::Unsupported)));
}

fn cr2_file() -> Vec<u8> {
    let mut f = tiff_header(16);
    f.extend_from_slice(b"CR\x02\x00\0\0\0\0");
    let ifd0 = |next: u32| {
        ifd(
            16,
            &[
                ascii(0x0110, "Canon EOS 5D Mark III"),
                long(0x0111, 500),
                long(0x0117, 40),
            ],
            next,
        )
    };
    let second = 16 + ifd0(0).len();
    f.extend_from_slice(&ifd0(second as u32));
    f.extend_from_slice(&ifd(second, &[long(0x0201, 600), long(0x0202, 20)], 0));
    f.resize(700, 0x22);
    f[500] = 0xff;
    f[501] = 0xd8;
    f
}

#[test]
fn cr2_headers_are_read() {
    let f = cr2_file();
    assert!(is_cr2(&f));
    let m = parse("/x/5d3.CR2", f.clone()).ok().expect("parses");
    assert_eq!(m.model.as_deref(), Some("Canon EOS 5D Mark III"));
    assert_eq!(m.preview.unwrap().range, ByteRange { offset: 500, len: 40 });
    assert_eq!(m.thumb.unwrap().range, ByteRange { offset: 600, len: 20 });
    let (jpeg, _, _) = extract(&f, &m, Source::Embedded).unwrap();
    assert_eq!(&jpeg[0..2], &[0xff, 0xd8]);
    // there is no full-size JPEG: Full falls back to the same stream
    assert_eq!(extract(&f, &m, Source::Full).unwrap().0, jpeg);
    let mut other = f;
    other[10] = 1;
    assert!(!is_cr2(&other));
    assert!(matches!(parse("/x/5d3.CR2", other), Err(ParseError::Unsupported)));
}

fn boxed(kind: &[u8; 4], body: &[u8]) -> Vec<u8> {
    let mut b = ((body.len() + 8) as u32).to_be_bytes().to_vec();
    b.extend_from_slice(kind);
    b.extend_from_slice(body);
    b
}

const CANON_META: [u8; 16] = [
    0x85, 0xc0, 0xb6, 0x87, 0x82, 0x0f, 0x11, 0xe0, 0x81, 0x11, 0xf4, 0xce, 0x46, 0x2b, 0x6a, 0x48,
];
const PREVIEW: [u8; 16] = [
    0xea, 0xf4, 0x2b, 0x5e, 0x1c, 0x98, 0x4b, 0x88, 0xb9, 0xfb, 0xb7, 0xdc, 0x40, 0x6e, 0x4d, 0x16,
];

/// A track whose first sample has the given range.
fn trak(format: &[u8; 4], w: u16, h: u16, off: u64, size: u32) -> Vec<u8> {
    let mut entry = vec![0u8; 32];
    entry.extend_from_slice(&w.to_be_bytes());
    entry.extend_from_slice(&h.to_be_bytes());
    entry.extend_from_slice(&[0; 8]);
    entry.extend_from_slice(format);
    let mut stsd = vec![0u8; 8];
    stsd.extend_from_slice(&entry);
    let mut stsz = vec![0u8; 4];
    stsz.extend_from_slice(&size.to_be_bytes());
    stsz.extend_from_slice(&1u32.to_be_bytes());
    let mut co64 = vec![0u8; 8];
    co64.extend_from_slice(&off.to_be_bytes());
    let mut stbl = boxed(b"stsd", &stsd);
    stbl.extend_from_slice(&boxed(b"stsz", &stsz));
    stbl.extend_from_slice(&boxed(b"co64", &co64));
    boxed(b"trak", &boxed(b"mdia", &boxed(b"minf", &boxed(b"stbl", &stbl))))
}

fn prvw(jpeg: &[u8]) -> Vec<u8> {
    let mut p = vec![0u8; 4];
    p.extend_from_slice(&[0, 1]);
    p.extend_from_slice(&1620u16.to_be_bytes());
    p.extend_from_slice(&1080u16.to_be_bytes());
    p.extend_from_slice(&[0, 1]);
    p.extend_from_slice(&(jpeg.len() as u32).to_be_bytes());
    p.extend_from_slice(jpeg);
    boxed(b"PRVW", &p)
}

fn cr3_file(with_index: bool) -> Vec<u8> {
    let jpeg: Vec<u8> = vec![0xff, 0xd8, 1, 2, 3, 4, 5, 6, 0xff, 0xd9];
    let mut preview_body = PREVIEW.to_vec();
    preview_body.extend_from_slice(&[0; 8]);
    preview_body.extend_from_slice(&prvw(&jpeg));
    let preview = boxed(b"uuid", &preview_body);
    let ftyp = boxed(b"ftyp", b"crx \0\0\0\0crx isom");
    let moov = |preview_at: u64, full_at: u64| {
        let mut meta_body = CANON_META.to_vec();
        meta_body.extend_from_slice(&boxed(
            b"CMT1",
            &tiff(&[ascii(0x010F, "Canon"), ascii(0x0110, "Canon EOS R5m2"), short(0x0112, 1)]),
        ));
        meta_body.extend_from_slice(&boxed(b"CMT2", &tiff(&exif_tags())));
        meta_body.extend_from_slice(&boxed(b"CMT3", &tiff(&[af_tag()])));
        let mut thmb = vec![0u8; 4];
        thmb.extend_from_slice(&160u16.to_be_bytes());
        thmb.extend_from_slice(&120u16.to_be_bytes());
        thmb.extend_from_slice(&6u32.to_be_bytes());
        thmb.extend_from_slice(&[0, 1, 0, 0, 0xff, 0xd8, 9, 9, 9, 9]);
        meta_body.extend_from_slice(&boxed(b"THMB", &thmb));
        if with_index {
            let mut ctbo = 2u32.to_be_bytes().to_vec();
            for (idx, off, len) in [(1u32, 1u64, 1u64), (2, preview_at, preview.len() as u64)] {
                ctbo.extend_from_slice(&idx.to_be_bytes());
                ctbo.extend_from_slice(&off.to_be_bytes());
                ctbo.extend_from_slice(&len.to_be_bytes());
            }
            meta_body.extend_from_slice(&boxed(b"CTBO", &ctbo));
        }
        let mut body = boxed(b"uuid", &meta_body);
        body.extend_from_slice(&trak(b"JPEG", 8192, 5464, full_at, 12));
        body.extend_from_slice(&trak(b"CMP1", 8000, 5000, 77, 99));
        boxed(b"moov", &body)
    };
    let preview_at = ftyp.len() + moov(0, 0).len();
    let full_at = preview_at + preview.len() + 8;
    let mut f = ftyp;
    f.extend_from_slice(&moov(preview_at as u64, full_at as u64));
    f.extend_from_slice(&preview);
    let mut full = vec![0xff, 0xd8];
    full.extend_from_slice(&[7; 10]);
    f.extend_from_slice(&boxed(b"mdat", &full));
    f
}

#[test]
fn cr3_headers_are_read() {
    for with_index in [true, false] {
        let f = cr3_file(with_index);
        let m = parse("/x/4P4A9687.CR3", f.clone()).ok().expect("parses");
        assert_eq!(m.kind, FileKind::Cr3);
        assert_eq!(m.model.as_deref(), Some("Canon EOS R5m2"));
        assert_eq!(m.make.as_deref(), Some("Canon"));
        assert_eq!(m.serial.as_deref(), Some("012345"));
        assert_eq!(m.exposure.iso, Some(640));
        assert_eq!((m.width, m.height), (8192, 5464));
        let th = m.thumb.expect("a thumbnail");
        assert!(th.is_bare_jpeg && th.width == 160 && th.height == 120 && th.range.len == 6);
        let (jpeg, w, h) = extract(&f, &m, Source::Embedded).expect("a preview");
        assert_eq!((w, h), (1620, 1080));
        assert_eq!(jpeg, vec![0xff, 0xd8, 1, 2, 3, 4, 5, 6, 0xff, 0xd9]);
        let fs = m.fullsize.expect("a full-size track");
        assert_eq!((fs.width, fs.height, fs.range.len), (8192, 5464, 12));
        let (full, w, h) = extract(&f, &m, Source::Full).expect("a full-size JPEG");
        assert_eq!(&full[0..2], &[0xff, 0xd8]);
        assert_eq!((full.len(), w, h), (12, 8192, 5464));
        assert!(m.af_box_eye().is_some());
        assert_eq!(m.af_box.unwrap().mode, 22);
    }
}

/// A movie box larger than the header chunk is read from the file.
#[test]
fn a_long_movie_box_is_fetched() {
    let f = cr3_file(true);
    let header: Vec<u8> = f[..60].to_vec();
    let r = missing_moov(&header).expect("moov is not all there");
    let moov: Vec<u8> = f[r.offset as usize..(r.offset + r.len) as usize].to_vec();
    let mut chunks = Chunks::new(f.len() as u64, header.clone(), r.offset, moov);
    let m = parse_header("/x/a.CR3", &mut chunks, &header).ok().expect("parses");
    assert!(missing_moov(&f).is_none());
    let mut cut = Chunks::new(f.len() as u64, header.clone(), 0, vec![]);
    assert!(matches!(
        parse_header("/x/a.CR3", &mut cut, &header),
        Err(ParseError::Cr3(Cr3Error::Io(_)))
    ));
    assert_eq!(m.model.as_deref(), Some("Canon EOS R5m2"));
    assert_eq!(m.exposure.iso, Some(640));
}

#[test]
fn what_is_no_cr3_is_refused() {
    let short = vec![0u8; 11];
    assert!(matches!(parse("/x/a.CR3", short), Err(ParseError::Cr3(Cr3Error::NotCr3))));
    let mut f = cr3_file(true);
    f[8] = b'x';
    assert!(matches!(parse("/x/a.CR3", f), Err(ParseError::Cr3(Cr3Error::NotCr3))));
    // a movie box that goes on past the end of the file
    let mut f = boxed(b"ftyp", b"crx ");
    f.extend_from_slice(&1000u32.to_be_bytes());
    f.extend_from_slice(b"moov");
    assert!(matches!(parse("/x/a.CR3", f), Err(ParseError::Cr3(Cr3Error::Io(_)))));
}

/// Whatever the bytes, parsing ends.
#[test]
fn damaged_files_do_no_harm() {
    for f in [cr3_file(true), camera_jpeg(40), cr2_file()] {
        let path = if f[0] == 0xff { "/x/a.JPG" } else if f[4] == b'f' { "/x/a.CR3" } else { "/x/a.CR2" };
        for i in 0..f.len().min(900) {
            for v in [0u8, 1, 0x7f, 0xff] {
                let mut g = f.clone();
                g[i] = v;
                let _ = parse(path, g);
            }
            let _ = parse(path, f[..i].to_vec());
        }
    }
}

#[test]
fn previews_are_found_in_their_area() {
    let jpeg = vec![0xff, 0xd8, 9, 9];
    let area = prvw(&jpeg);
    assert_eq!(locate_prvw_jpeg(&area), Some((area.len() - 4, 4, 1620, 1080)));
    assert_eq!(locate_prvw_jpeg(&area[..10]), None);
    assert_eq!(locate_prvw_jpeg(&[0; 64]), None);
    // a length beyond the buffer is cut off
    let mut long = prvw(&jpeg);
    let at = long.len() - 8;
    long[at] = 0xff;
    assert_eq!(locate_prvw_jpeg(&long).map(|p| p.1), Some(4));
}

#[test]
fn kinds_follow_the_extension() {
    assert_eq!(kind_from_ext("/x/a.CR3"), Some(FileKind::Cr3));
    assert_eq!(kind_from_ext("a.cr2"), Some(FileKind::Cr2));
    assert_eq!(kind_from_ext("a.JPeg"), Some(FileKind::Jpeg));
    assert_eq!(kind_from_ext("a.b.hif"), Some(FileKind::Heif));
    assert_eq!(kind_from_ext("a.png"), None);
    assert_eq!(kind_from_ext("/x.cr3/a"), None);
    assert_eq!(kind_from_ext(".cr3"), None);
    assert!(matches!(parse("/x/a.png", vec![0; 20]), Err(ParseError::Unsupported)));
    assert!(parse("/x/a.heic", vec![0; 20]).is_ok());
}

#[test]
fn keys_are_of_the_first_bytes() {
    // xxh3 of the empty input, as its authors publish it
    assert_eq!(content_key(&[]), 0x2D06_8005_38D3_94C2);
    let mut a = vec![5u8; 70_000];
    let k = content_key(&a);
    a[65_536] = 6;
    assert_eq!(content_key(&a), k);
    a[65_535] = 6;
    assert_ne!(content_key(&a), k);
    let m = parse("/x/a.heic", vec![1, 2, 3]).ok().expect("parses");
    assert_eq!(m.content_key, content_key(&[1, 2, 3]));
    assert_eq!(m.size, 3);
}

#[test]
fn sources_are_named() {
    assert_eq!("embedded".parse::<Source>(), Ok(Source::Embedded));
    assert_eq!("full".parse::<Source>(), Ok(Source::Full));
    assert_eq!("x".parse::<Source>(), Err("expected embedded|full, got x".to_string()));
    assert_eq!(Source::default(), Source::Embedded);
}

#[test]
fn tiff_values() {
    let t = tiff(&[ascii(0x010F, "Canon"), rational(0x829A, 1, 50), short(0x0112, 8), long(0x8827, 70_000)]);
    let t = Tiff::parse(&t).ok().expect("a TIFF");
    let (entries, next) = t.ifd(t.first_ifd);
    assert_eq!((entries.len(), next), (4, 0));
    assert_eq!(t.ascii(&entries[0]).as_deref(), Some("Canon"));
    assert_eq!(t.rational(&entries[1]), Some((1, 50)));
    assert_eq!(t.uint(&entries[2]), Some(8));
    assert_eq!(t.uint(&entries[3]), Some(70_000));
    assert_eq!(t.uint(&entries[0]), None);
    assert_eq!(t.u16(0), Some(0x4949));
    assert_eq!(t.u32(1_000_000), None);
    assert_eq!(t.value_offset(&entries[1]), Some(8 + 2 + 48 + 4 + 6));

    let be = b"MM\0\x2a\0\0\0\x08\0\x01\x01\x12\0\x03\0\0\0\x01\0\x06\0\0\0\0\0\0".to_vec();
    let t = Tiff::parse(&be).ok().expect("a TIFF");
    assert!(!t.le);
    let (entries, _) = t.ifd(t.first_ifd);
    assert_eq!(t.uint(&entries[0]), Some(6));

    assert!(matches!(Tiff::parse(b"XX\0\x2a\0\0\0\x08"), Err(TiffError::BadMagic)));
    assert!(matches!(Tiff::parse(b"II\x2a"), Err(TiffError::Truncated)));
    assert_eq!(TiffError::BadMagic.message(), "not a TIFF structure");
    assert_eq!(TiffError::Truncated.message(), "truncated TIFF data");
}

#[test]
fn text_that_is_not_utf8_is_replaced() {
    let t = tiff(&[(0x010F, 2, 6, vec![b'C', b'a', 0xff, b'n', 0, 0])]);
    let t = Tiff::parse(&t).ok().expect("a TIFF");
    let (entries, _) = t.ifd(t.first_ifd);
    assert_eq!(t.ascii(&entries[0]).as_deref(), Some("Ca\u{fffd}n"));
}

#[test]
fn single_area_maps_to_centre_relative_y_up() {
    let b = af_box_from_words(&words(&[(0, 0, 0, 0), (246, 251, -144, 349)], 0b10)).unwrap();
    let (aw, ah) = (b.af_w as f32, b.af_h as f32);
    let (cx, cy) = (0.5 + b.x as f32 / aw, 0.5 - b.y as f32 / ah);
    assert!((cx - (0.5 - 144.0 / 8192.0)).abs() < 1e-6);
    assert!((cy - (0.5 - 349.0 / 5464.0)).abs() < 1e-6);
    assert!((b.w as f32 / aw - 246.0 / 8192.0).abs() < 1e-6);
    assert!((b.h as f32 / ah - 251.0 / 5464.0).abs() < 1e-6);
    assert_eq!(b.mode, 22);
}

#[test]
fn grids_and_bad_sizes_are_ignored() {
    let grid: Vec<(u16, u16, i16, i16)> = (0..5).map(|i| (100, 100, i * 300, 0)).collect();
    assert!(af_box_from_words(&words(&grid, 0)).is_none());
    let mut bad = words(&[(246, 251, 0, 0)], 1);
    bad[0] += 2;
    assert!(af_box_from_words(&bad).is_none());
    assert!(af_box_from_words(&words(&[(0, 0, 0, 0)], 0)).is_none());
}

#[test]
fn the_focused_area_counts() {
    let areas = [(10, 10, 1, 1), (20, 20, 2, 2), (30, 30, 3, 3)];
    assert_eq!(af_box_from_words(&words(&areas, 0b100)).unwrap().w, 30);
    assert_eq!(af_box_from_words(&words(&areas, 0)).unwrap().w, 10);
}

#[test]
fn reads_are_served_from_the_header() {
    assert_eq!(header_len(10), 10);
    assert_eq!(header_len(1 << 40), HEADER_READ);
    assert!(matches!(plan_read(100, 1000, 90, 10), ReadPlan::Cached(90)));
    assert!(matches!(plan_read(100, 1000, 90, 11), ReadPlan::Fetch));
    assert!(matches!(plan_read(100, 1000, 990, 11), ReadPlan::PastEnd));
    assert!(matches!(plan_read(100, 1000, u64::MAX, 11), ReadPlan::PastEnd));
    assert!(whole(vec![]).is_empty());
    assert!(!whole(vec![1]).is_empty());
    let mut c = Chunks::new(20, vec![0, 1, 2, 3], 3, vec![9, 4, 5, 6]);
    assert_eq!(c.len(), 20);
    assert_eq!(c.read_range(1, 2).ok(), Some(vec![1, 2]));
    assert_eq!(c.read_range(2, 5).ok(), Some(vec![2, 3, 4, 5, 6]));
    assert_eq!(c.read_range(5, 2).ok(), Some(vec![5, 6]));
    assert!(c.read_range(5, 3).is_err());
    assert!(c.read_range(u64::MAX, 3).is_err());
    assert!(c.read_range(19, 2).is_err());
    let mut gap = Chunks::new(20, vec![0, 1], 5, vec![9, 4]);
    assert_eq!(gap.read_range(5, 2).ok(), Some(vec![9, 4]));
    assert!(gap.read_range(1, 5).is_err());
}

#[test]
fn kinds_do_not_depend_on_the_separator() {
    assert_eq!(kind_from_ext("C:\\cards\\IMG_1.CR3"), Some(FileKind::Cr3));
    assert_eq!(kind_from_ext("C:a.jpg"), Some(FileKind::Jpeg));
    assert_eq!(kind_from_ext("x\\a.b.heic"), Some(FileKind::Heif));
    let m = parse("C:\\cards\\IMG_0042.HIF", vec![0; 20]).ok().expect("parses");
    assert_eq!((m.kind, m.file_number), (FileKind::Heif, Some(42)));
}

#[test]
fn a_directory_that_is_cut_off_has_no_next() {
    // two entries are announced and one is there
    let mut t = tiff_header(8);
    t.extend_from_slice(&[2, 0, 0x12, 0x01, 3, 0, 1, 0, 0, 0, 6, 0, 0, 0, 9, 9, 9, 9, 9, 9]);
    let t = Tiff::parse(&t).ok().expect("a TIFF");
    let (entries, next) = t.ifd(t.first_ifd);
    assert_eq!((entries.len(), next), (1, 0));
    assert_eq!(t.uint(&entries[0]), Some(6));
}

#[test]
fn short_values_stand_in_the_entry() {
    let t = tiff(&[
        (0x0001, 2, 3, b"ab\0".to_vec()),
        (0x0002, 3, 3, vec![5, 0, 6, 0, 7, 0]),
        (0x0003, 4, 2, vec![1, 0, 1, 0, 9, 0, 0, 0]),
        (0x0004, 1, 2, vec![8, 9]),
    ]);
    let t = Tiff::parse(&t).ok().expect("a TIFF");
    let (e, _) = t.ifd(t.first_ifd);
    assert_eq!(t.value_bytes(&e[0]), Some(&b"ab\0"[..]));
    assert_eq!(t.value_bytes(&e[3]), Some(&[8u8, 9][..]));
    assert_eq!(t.value_bytes(&e[1]), Some(&[5u8, 0, 6, 0, 7, 0][..]));
    // a number is the first of several, wherever they stand
    assert_eq!(t.uint(&e[1]), Some(5));
    assert_eq!(t.uint(&e[2]), Some(0x1_0001));
}

#[test]
fn a_cr3_whose_header_says_all_is_not_read_on() {
    let bytes = cr3_file(true);
    let header: Vec<u8> = bytes[..header_len(bytes.len() as u64)].to_vec();
    // nothing of the file can be read
    let mut r = Chunks::new(bytes.len() as u64, vec![], 0, vec![]);
    let m = parse_header("/x/a.CR3", &mut r, &header).ok().expect("parses");
    let want = parse("/x/a.CR3", bytes).ok().expect("parses");
    assert_eq!((m.width, m.height, m.ts.is_some()), (want.width, want.height, want.ts.is_some()));
}

#[test]
fn a_path_without_a_dot_has_no_kind() {
    for p in ["C:\\cards\\README", "a:b", "cr3", "/x.cr3/a:b", "C:", "\\\\host\\share"] {
        assert_eq!(kind_from_ext(p), None, "{p}");
        assert!(matches!(parse(p, vec![0; 20]), Err(ParseError::Unsupported)));
    }
}
