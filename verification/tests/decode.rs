use fd_core::decode::{
    auto_brighten, crop, decode_luma, decode_luma_crop, decode_luma_scaled, decode_rgba_scaled, inverse_orientation,
    lossless_window, peaking_overlay, plan_scale, point_map, DecodeError, Luma, Rgba, Window,
};
use fd_core::decode::Pixels;
use fd_core::stream;

fn luma3x2() -> Luma {
    Luma { pixels: vec![1, 2, 3, 4, 5, 6], width: 3, height: 2 }
}

/// Normalized stored -> display coordinates for an orientation.
fn orient_norm(x: f32, y: f32, orientation: u16) -> (f32, f32) {
    let m = point_map(orientation);
    let (a, b) = if m.swap { (y, x) } else { (x, y) };
    (if m.flip_x { 1.0 - a } else { a }, if m.flip_y { 1.0 - b } else { b })
}

/// The eight EXIF cases on a 3x2 pattern; 5..=8 come out 2x3.
#[test]
fn orient_all_exif_cases() {
    let cases: [(u16, &[u8], usize, usize); 8] = [
        (1, &[1, 2, 3, 4, 5, 6], 3, 2),
        (2, &[3, 2, 1, 6, 5, 4], 3, 2),
        (3, &[6, 5, 4, 3, 2, 1], 3, 2),
        (4, &[4, 5, 6, 1, 2, 3], 3, 2),
        (5, &[1, 4, 2, 5, 3, 6], 2, 3),
        (6, &[4, 1, 5, 2, 6, 3], 2, 3),
        (7, &[6, 3, 5, 2, 4, 1], 2, 3),
        (8, &[3, 6, 2, 5, 1, 4], 2, 3),
    ];
    for (o, want, w, h) in cases {
        let l = luma3x2().upright(o);
        assert_eq!((l.pixels.as_slice(), l.width, l.height), (want, w, h), "orientation {o}");
    }
}

#[test]
fn orient_out_of_range_is_identity() {
    for o in [0, 9, 42] {
        let l = luma3x2().upright(o);
        assert_eq!((l.pixels, l.width, l.height), (vec![1, 2, 3, 4, 5, 6], 3, 2));
    }
}

/// Larger than one tile in both directions, so tile edges are exercised:
/// every case composed with its inverse (6 <-> 8, the rest themselves)
/// must give the original back.
#[test]
fn orient_round_trips_across_tiles() {
    let (w, h) = (150, 70);
    let pixels: Vec<u8> = (0..w * h).map(|i| (i * 7 % 251) as u8).collect();
    for (o, inv) in [(2, 2), (3, 3), (4, 4), (5, 5), (6, 8), (7, 7), (8, 6)] {
        let once = Luma { pixels: pixels.clone(), width: w, height: h }.upright(o);
        let back = once.upright(inv);
        assert_eq!((back.width, back.height), (w, h), "orientation {o}");
        assert!(back.pixels == pixels, "orientation {o} did not round-trip");
    }
}

/// The point mapping must agree with `upright` pixel for pixel: mark one
/// pixel, rotate the image, and find it where the mapping says.
#[test]
fn orient_norm_matches_orient() {
    let (w, h) = (150usize, 70usize);
    let (sx, sy) = (37usize, 12usize);
    for o in 1..=8u16 {
        let mut px = vec![0u8; w * h];
        px[sy * w + sx] = 255;
        let l = Luma { pixels: px, width: w, height: h }.upright(o);
        let i = l.pixels.iter().position(|&v| v == 255).unwrap();
        let found = ((i % l.width) as f32 + 0.5) / l.width as f32;
        let found_y = ((i / l.width) as f32 + 0.5) / l.height as f32;
        let (ex, ey) = orient_norm((sx as f32 + 0.5) / w as f32, (sy as f32 + 0.5) / h as f32, o);
        assert!((found - ex).abs() < 1e-3 && (found_y - ey).abs() < 1e-3, "orientation {o}");
        let (bx, by) = orient_norm(ex, ey, inverse_orientation(o));
        assert!((bx - (sx as f32 + 0.5) / w as f32).abs() < 1e-3);
        assert!((by - (sy as f32 + 0.5) / h as f32).abs() < 1e-3);
    }
}

fn ramp(max: u8) -> Rgba {
    let mut pixels: Vec<u8> = Vec::new();
    for i in 0..256u32 {
        let v = (i * max as u32 / 255) as u8;
        pixels.extend_from_slice(&[v, v, v, 255]);
    }
    Rgba { pixels, width: 16, height: 16 }
}

/// A dark frame is lifted so its highlights land near 235; a frame that
/// already reaches the highlights is left untouched.
#[test]
fn auto_brighten_lifts_dark_frames_only() {
    let mut dark = ramp(100);
    auto_brighten(&mut dark);
    let top = *dark.pixels.chunks_exact(4).map(|p| &p[0]).max().unwrap();
    assert!((225..=245).contains(&top), "dark frame lifted to {top}");
    let mut bright = ramp(250);
    let before = bright.pixels.clone();
    auto_brighten(&mut bright);
    assert_eq!(bright.pixels, before);
}

/// Multi-byte pixels move as a unit: a 2x1 RGBA row rotated CCW (8) is
/// a 1x2 column with the right-hand pixel on top.
#[test]
fn orient_keeps_rgba_pixels_intact() {
    let r = Rgba { pixels: vec![1, 2, 3, 4, 5, 6, 7, 8], width: 2, height: 1 }.upright(8);
    assert_eq!((r.pixels, r.width, r.height), (vec![5, 6, 7, 8, 1, 2, 3, 4], 1, 2));
}

/// What brightening does, in single precision.
fn brightened(px: &[u8]) -> Vec<u8> {
    let mut hist = [0u32; 256];
    for p in px.chunks_exact(4) {
        let y = (p[0] as u32 * 54 + p[1] as u32 * 183 + p[2] as u32 * 19) >> 8;
        hist[y.min(255) as usize] += 1;
    }
    let n = (px.len() / 4) as u32;
    let cutoff = n - n / 200;
    let mut acc = 0u32;
    let mut p995 = 255usize;
    for (v, &c) in hist.iter().enumerate() {
        acc += c;
        if acc >= cutoff {
            p995 = v;
            break;
        }
    }
    let gain = (235.0f32 / p995.max(1) as f32).clamp(1.0, 4.0);
    let mut out = px.to_vec();
    if gain <= 1.0 {
        return out;
    }
    for p in out.chunks_exact_mut(4) {
        for c in p.iter_mut().take(3) {
            *c = (*c as f32 * gain).min(255.0) as u8;
        }
    }
    out
}

/// Every highlight level, every channel value: the integer arithmetic gives
/// what single precision gives.
#[test]
fn brightening_agrees_with_single_precision() {
    for top in 0..=255u8 {
        let mut pixels: Vec<u8> = Vec::new();
        for _ in 0..300 {
            pixels.extend_from_slice(&[top, top, top, 7]);
        }
        // one pixel of every value, few enough not to move the percentile
        if top == 255 {
            for v in 0..=255u8 {
                pixels.extend_from_slice(&[v, v, v, 9]);
            }
        } else {
            pixels.extend_from_slice(&[top / 3, top / 2, top / 5, 9]);
        }
        let n = pixels.len() / 4;
        let want = brightened(&pixels);
        let mut img = Rgba { pixels, width: n, height: 1 };
        auto_brighten(&mut img);
        assert_eq!(img.pixels, want, "highlights at {top}");
    }
}

#[test]
fn brightening_maps_every_channel_value() {
    for p995 in [1u8, 40, 59, 117, 200, 232, 233, 234, 235, 236] {
        let mut pixels: Vec<u8> = Vec::new();
        for _ in 0..60_000 {
            pixels.extend_from_slice(&[p995, p995, p995, 0]);
        }
        for v in 0..=255u8 {
            pixels.extend_from_slice(&[v, 0, 0, 0]);
        }
        let n = pixels.len() / 4;
        let want = brightened(&pixels);
        let mut img = Rgba { pixels, width: n, height: 1 };
        auto_brighten(&mut img);
        assert!(img.pixels == want, "highlights at {p995}");
    }
}

#[test]
fn peaking_paints_edges_red() {
    let (w, h) = (16usize, 16usize);
    let mut pixels: Vec<u8> = Vec::new();
    for i in 0..w * h {
        let v = if i % w < 8 { 10u8 } else { 240u8 };
        pixels.extend_from_slice(&[v, v, v, 255]);
    }
    let before = pixels.clone();
    let mut img = Rgba { pixels, width: w, height: h };
    peaking_overlay(&mut img);
    let at = |x: usize, y: usize| img.pixels[(y * w + x) * 4..(y * w + x) * 4 + 4].to_vec();
    assert_eq!(at(8, 8), vec![255, 48, 48, 255]);
    assert_eq!(at(7, 8), vec![255, 48, 48, 255]);
    assert_eq!(at(2, 8), before[(8 * w + 2) * 4..(8 * w + 2) * 4 + 4].to_vec());
    assert_eq!(at(8, 0), before[8 * 4..8 * 4 + 4].to_vec(), "the border is never painted");
}

#[test]
fn scale_keeps_the_long_edge() {
    assert_eq!(plan_scale(8192, 5464, 1600), (4, 2048, 1366));
    assert_eq!(plan_scale(1620, 1080, 200), (8, 203, 135));
    assert_eq!(plan_scale(1620, 1080, 1600), (1, 1620, 1080));
    assert_eq!(plan_scale(100, 4000, 2000), (2, 50, 2000));
    assert_eq!(plan_scale(8191, 5461, 2048), (4, 2048, 1366));
}

#[test]
fn lossless_windows_start_on_the_grid() {
    let want = Window { x: 1000, y: 700, w: 300, h: 200 };
    let w = lossless_window(8192, 5464, 16, 8, want).unwrap();
    assert_eq!((w.x, w.y), (992, 696));
    assert_eq!((w.w, w.h), (308, 204));
    let edge = lossless_window(1024, 800, 16, 8, Window { x: 1000, y: 790, w: 300, h: 200 }).unwrap();
    assert_eq!((edge.x, edge.y, edge.w, edge.h), (992, 784, 32, 16));
    assert!(lossless_window(1024, 800, 16, 8, Window { x: 1024, y: 0, w: 9, h: 9 }).is_none());
}

#[test]
fn crops_hold_the_window() {
    let full = Luma { pixels: (0..60).collect(), width: 10, height: 6 };
    let (c, x0, y0) = crop(&full, Window { x: 7, y: 4, w: 9, h: 9 });
    assert_eq!((x0, y0, c.width, c.height), (7, 4, 3, 2));
    assert_eq!(c.pixels, vec![47, 48, 49, 57, 58, 59]);
}

#[test]
fn what_is_no_jpeg_is_refused() {
    let e = decode_luma(&[1, 2, 3, 4]).err().expect("an error");
    assert!(e.message().starts_with("jpeg decode failed: "));
    assert!(decode_rgba_scaled(&[], 100).is_err());
    assert!(decode_luma_crop(&[0xff, 0xd8], 0, 0, 4, 4).is_err());
    assert_eq!(DecodeError("x".to_string()).message(), "jpeg decode failed: x");
}

/// A baseline 8x8 grey JPEG of one level: DC difference 0 gives 128.
fn grey_jpeg() -> Vec<u8> {
    let mut j: Vec<u8> = vec![0xff, 0xd8, 0xff, 0xdb, 0, 67, 0];
    j.extend_from_slice(&[1u8; 64]);
    j.extend_from_slice(&[0xff, 0xc0, 0, 11, 8, 0, 8, 0, 8, 1, 1, 0x11, 0]);
    // DC table: one code of length 1 (value 0); AC table likewise (end of block)
    for class in [0x00u8, 0x10] {
        j.extend_from_slice(&[0xff, 0xc4, 0, 20, class, 1]);
        j.extend_from_slice(&[0u8; 15]);
        j.push(0);
    }
    j.extend_from_slice(&[0xff, 0xda, 0, 8, 1, 1, 0, 0, 63, 0]);
    // codes 0 (DC) and 0 (end of block), padded with ones
    j.extend_from_slice(&[0b0011_1111, 0xff, 0xd9]);
    j
}

#[test]
fn a_grey_jpeg_decodes_to_grey() {
    let l = decode_luma(&grey_jpeg()).ok().expect("decodes");
    assert_eq!((l.width, l.height), (8, 8));
    assert_eq!(l.pixels.len(), 64);
    assert!(l.pixels.iter().all(|&v| v == 128), "{:?}", l.pixels);
    let small = decode_luma_scaled(&grey_jpeg(), 4).ok().expect("decodes");
    assert_eq!((small.width, small.height, small.pixels), (8, 8, l.pixels));
    // a single component stays one
    let c = decode_rgba_scaled(&grey_jpeg(), 4).ok().expect("decodes");
    assert_eq!((c.width, c.height), (8, 8));
    assert_eq!(c.pixels, vec![128u8; 64]);
    let (c, x0, y0) = decode_luma_crop(&grey_jpeg(), 3, 2, 4, 3).ok().expect("decodes");
    assert_eq!((c.width, c.height, x0, y0), (4, 3, 3, 2));
}

/// Whether the stream can be decoded to luma and to colour.
fn is_decodable(j: &[u8]) -> bool {
    stream::is_decodable(j, Pixels::Luma) && stream::is_decodable(j, Pixels::Rgba)
}

/// A 16x16 JPEG of one level, with these sampling factors and these
/// components in its first scan.
fn level_jpeg(sof: u8, sampling: &[u8], scan: &[u8]) -> Vec<u8> {
    let mut j: Vec<u8> = vec![0xff, 0xd8, 0xff, 0xdb, 0, 67, 0];
    j.extend_from_slice(&[1u8; 64]);
    let n = sampling.len() as u8;
    j.extend_from_slice(&[0xff, sof, 0, 8 + 3 * n, 8, 0, 16, 0, 16, n]);
    for (i, s) in sampling.iter().enumerate() {
        j.extend_from_slice(&[i as u8 + 1, *s, 0]);
    }
    for class in [0x00u8, 0x10] {
        j.extend_from_slice(&[0xff, 0xc4, 0, 20, class, 1]);
        j.extend_from_slice(&[0u8; 15]);
        j.push(0);
    }
    j.extend_from_slice(&[0xff, 0xda, 0, 6 + 2 * scan.len() as u8, scan.len() as u8]);
    for c in scan {
        j.extend_from_slice(&[*c, 0]);
    }
    j.extend_from_slice(&[0, 63, 0, 0, 0, 0, 0xff, 0xd9]);
    j
}

#[test]
fn a_colour_jpeg_decodes_to_four_bytes_a_pixel() {
    for sampling in [[0x22, 0x11, 0x11], [0x21, 0x11, 0x11], [0x11, 0x11, 0x11], [0x22, 0x21, 0x12]] {
        let j = level_jpeg(0xc0, &sampling, &[1, 2, 3]);
        assert!(is_decodable(&j));
        let c = decode_rgba_scaled(&j, 100).ok().expect("decodes");
        assert_eq!((c.width, c.height, c.pixels.len()), (16, 16, 16 * 16 * 4));
        assert!(c.pixels.chunks(4).all(|p| p == [128, 128, 128, 255]), "{sampling:?}");
        let l = decode_luma(&j).ok().expect("decodes");
        assert_eq!(l.pixels, vec![128u8; 256]);
    }
}

/// The stream with another scan at its end, of the second component.
fn with_scan(mut j: Vec<u8>, tables: u8) -> Vec<u8> {
    j.truncate(j.len() - 2);
    j.extend_from_slice(&[0xff, 0xda, 0, 8, 1, 2, tables, 0, 63, 0, 0, 0, 0, 0xff, 0xd9]);
    j
}

#[test]
fn components_may_come_in_scans_of_their_own() {
    let j = with_scan(level_jpeg(0xc0, &[0x11, 0x11, 0x11], &[1]), 0x00);
    assert!(is_decodable(&j));
    let l = decode_luma(&j).ok().expect("decodes");
    assert_eq!((l.width, l.height, l.pixels.len()), (16, 16, 256));
    assert_eq!(l.pixels[..128], [128u8; 128]);
    assert_eq!(decode_rgba_scaled(&j, 100).ok().expect("decodes").pixels.len(), 16 * 16 * 4);
    let j = with_scan(level_jpeg(0xc0, &[0x22, 0x11, 0x11], &[1]), 0x00);
    assert!(decode_luma(&j).is_ok() && decode_rgba_scaled(&j, 100).is_ok());
}

#[test]
fn layouts_that_the_decoder_cannot_take_are_refused() {
    let refused = |j: Vec<u8>| {
        assert!(!stream::is_decodable(&j, Pixels::Luma) && !stream::is_decodable(&j, Pixels::Rgba));
        let e = decode_luma(&j).err().expect("refused");
        assert_eq!(e.message(), DecodeError("unsupported JPEG layout".to_string()).message());
        assert!(decode_rgba_scaled(&j, 100).is_err());
        assert!(decode_luma_scaled(&j, 100).is_err());
        assert!(decode_luma_crop(&j, 0, 0, 4, 4).is_err());
    };
    // a later scan that names a table which the header does not define
    refused(with_scan(level_jpeg(0xc0, &[0x11, 0x11, 0x11], &[1]), 0x01));
    refused(with_scan(level_jpeg(0xc0, &[0x11, 0x11, 0x11], &[1]), 0x10));
    // factors that are no powers of two
    refused(level_jpeg(0xc0, &[0x31, 0x11, 0x11], &[1, 2, 3]));
    // no frame, two frames, no scan
    let scan = [0xff, 0xda, 0, 8, 1, 1, 0, 0, 63, 0];
    refused([&[0xff, 0xd8][..], &scan].concat());
    let frame = [0xff, 0xc0, 0, 11, 8, 0, 8, 0, 8, 1, 1, 0x11, 0];
    assert!(is_decodable(&[&[0xff, 0xd8][..], &frame, &scan].concat()));
    refused([&[0xff, 0xd8][..], &frame, &frame, &scan].concat());
    refused([&[0xff, 0xd8][..], &frame].concat());
    refused([&[0xff, 0xd8][..], &frame, &[0xff, 0xd9], &scan].concat());
    // an APP0 segment of six bytes takes one more
    let app0 = [0xff, 0xd8, 0xff, 0xe0, 0, 6, 1, 2, 3, 4];
    assert!(is_decodable(&[&app0[..], &[0], &frame, &scan].concat()));
    refused([&app0[..], &frame[..], &scan].concat());
}

#[test]
fn motion_jpegs_have_the_usual_tables() {
    let avi = [0xff, 0xe0, 0, 7, b'A', b'V', b'I', b'1', 0];
    let table = |t: u8| {
        let mut j = with_scan(level_jpeg(0xc0, &[0x11, 0x11, 0x11], &[1]), t);
        let rest = j.split_off(2);
        [&j[..], &avi, &rest].concat()
    };
    let j = table(0x11);
    assert!(is_decodable(&j));
    assert!(decode_luma(&j).is_ok() && decode_rgba_scaled(&j, 100).is_ok());
    assert!(!is_decodable(&table(0x22)));
}

#[test]
fn what_fits_depends_on_what_is_wanted() {
    let fits = |sampling: &[u8], scan: &[u8]| {
        let j = level_jpeg(0xc0, sampling, scan);
        let (l, c) = (stream::is_decodable(&j, Pixels::Luma), stream::is_decodable(&j, Pixels::Rgba));
        if l {
            assert_eq!(decode_luma(&j).ok().expect("decodes").pixels.len(), 256);
        } else {
            assert!(decode_luma(&j).is_err());
        }
        if c {
            assert_eq!(decode_rgba_scaled(&j, 9).ok().expect("decodes").pixels.len(), 1024);
        } else {
            assert!(decode_rgba_scaled(&j, 9).is_err());
        }
        (l, c)
    };
    // 4:1:1, 4:1:0 and twice that
    assert_eq!(fits(&[0x41, 0x11, 0x11], &[1, 2, 3]), (true, true));
    assert_eq!(fits(&[0x42, 0x11, 0x11], &[1, 2, 3]), (true, true));
    assert_eq!(fits(&[0x44, 0x11, 0x11], &[1, 2, 3]), (true, true));
    assert_eq!(fits(&[0x81, 0x11, 0x11], &[1, 2, 3]), (true, true));
    // more of the second component than of the first
    assert_eq!(fits(&[0x11, 0x21, 0x11], &[1, 2, 3]), (true, true));
    assert_eq!(fits(&[0x11, 0x12, 0x11], &[1, 2, 3]), (false, true));
    // components between the first and the smallest
    assert_eq!(fits(&[0x44, 0x24, 0x11], &[1, 2, 3]), (true, false));
    assert_eq!(fits(&[0x44, 0x22, 0x11], &[1, 2, 3]), (true, false));
    // scans of their own
    assert_eq!(fits(&[0x12, 0x11, 0x11], &[1]), (false, true));
    assert_eq!(fits(&[0x41, 0x11, 0x11], &[1]), (true, true));
}

#[test]
fn a_late_transform_matters_in_progressive_streams_only() {
    let adobe = |t: u8| [0xff, 0xee, 0, 14, b'A', b'd', b'o', b'b', b'e', 0, 0, 0, 0, 0, 0, t];
    let scan = [0xff, 0xda, 0, 8, 1, 1, 0, 0, 63, 0];
    for (sof, t, want) in [(0xc0, 2, true), (0xc2, 2, false), (0xc2, 1, true), (0xc2, 0, true)] {
        let frame = [0xff, sof, 0, 11, 8, 0, 8, 0, 8, 1, 1, 0x11, 0];
        let late = [&[0xff, 0xd8][..], &frame, &adobe(t), &scan].concat();
        assert_eq!(is_decodable(&late), want, "{sof:x} {t}");
        assert!(is_decodable(&[&[0xff, 0xd8][..], &adobe(t), &frame, &scan].concat()));
        // another says otherwise
        let last = [&[0xff, 0xd8][..], &frame, &adobe(t), &adobe(1), &scan].concat();
        assert!(is_decodable(&last));
    }
    // a grey JPEG decodes all the same
    let mut j = grey_jpeg();
    let at = j.iter().position(|&b| b == 0xc0).expect("a frame") + 12;
    let rest = j.split_off(at);
    j.extend_from_slice(&adobe(2));
    j.extend_from_slice(&rest);
    assert_eq!(decode_luma(&j).ok().expect("decodes").pixels, vec![128u8; 64]);
}

/// A JPEG with these scans, each of these components and coefficients, and no
/// data to speak of.
fn empty_jpeg(sof: u8, w: u16, h: u16, sampling: &[u8], scans: &[(&[u8], u8, u8)]) -> Vec<u8> {
    let mut j: Vec<u8> = vec![0xff, 0xd8, 0xff, 0xdb, 0, 67, 0];
    j.extend_from_slice(&[1u8; 64]);
    let n = sampling.len() as u8;
    j.extend_from_slice(&[0xff, sof, 0, 8 + 3 * n, 8]);
    j.extend_from_slice(&h.to_be_bytes());
    j.extend_from_slice(&w.to_be_bytes());
    j.push(n);
    for (i, s) in sampling.iter().enumerate() {
        j.extend_from_slice(&[i as u8 + 1, *s, 0]);
    }
    for class in [0x00u8, 0x10] {
        j.extend_from_slice(&[0xff, 0xc4, 0, 20, class, 1]);
        j.extend_from_slice(&[0u8; 15]);
        j.push(0);
    }
    for (ids, from, to) in scans {
        j.extend_from_slice(&[0xff, 0xda, 0, 6 + 2 * ids.len() as u8, ids.len() as u8]);
        for c in *ids {
            j.extend_from_slice(&[*c, 0]);
        }
        j.extend_from_slice(&[*from, *to, 0, 0]);
    }
    j.extend_from_slice(&[0xff, 0xd9]);
    j
}

/// Every layout that is let through is decoded, or fails, without a panic.
fn try_layouts(sof: u8, scans: &[(&[u8], u8, u8)]) -> (usize, usize) {
    let (mut tried, mut done) = (0, 0);
    let factors = [1u8, 2, 4, 8];
    let all: Vec<u8> = factors.iter().flat_map(|x| factors.iter().map(move |y| x * 16 + y)).collect();
    for (w, h) in [(8u16, 8u16), (9, 20), (16, 17), (33, 16), (20, 40)] {
        for &a in &all {
            for &b in &all {
                for c in [0x11u8, 0x21, 0x12, 0x22, 0x41, 0x24] {
                    let j = empty_jpeg(sof, w, h, &[a, b, c], scans);
                    for to in [Pixels::Luma, Pixels::Rgba] {
                        tried += 1;
                        if stream::is_decodable(&j, to) {
                            let ok = match to {
                                Pixels::Luma => decode_luma(&j).is_ok(),
                                Pixels::Rgba => decode_rgba_scaled(&j, 1).is_ok(),
                            };
                            done += ok as usize;
                        }
                    }
                }
            }
        }
    }
    (tried, done)
}

#[test]
fn no_layout_that_is_let_through_panics() {
    let (tried, done) = try_layouts(0xc0, &[(&[1, 2, 3], 0, 63)]);
    assert!(done > tried / 10, "{done} of {tried}");
}

#[test]
fn no_layout_with_single_scans_panics() {
    let (_, done) = try_layouts(0xc0, &[(&[1], 0, 63), (&[2], 0, 63), (&[3], 0, 63)]);
    assert!(done > 0);
}

#[test]
fn no_progressive_layout_panics() {
    let (_, done) = try_layouts(
        0xc2,
        &[(&[1, 2, 3], 0, 0), (&[1], 1, 63), (&[2], 1, 63), (&[3], 1, 63)],
    );
    assert!(done > 0);
    let (_, done) = try_layouts(0xc2, &[(&[1], 0, 0), (&[2], 0, 0), (&[3], 0, 0)]);
    assert!(done > 0);
}

#[test]
fn progressive_streams_come_to_an_end() {
    // several scans are in order
    let j = level_jpeg(0xc2, &[0x11, 0x11, 0x11], &[1]);
    assert!(is_decodable(&j));
    // a restart marker with nothing behind it is not
    let mut open = j.clone();
    open.extend_from_slice(&[0xff, 0xd3]);
    assert!(!is_decodable(&open));
    open.extend_from_slice(&[0xff, 0, 7, 0xff, 0xff, 0xd9]);
    assert!(is_decodable(&open));
}

#[test]
fn fill_and_stuffing_before_a_marker_are_passed_over() {
    let mut j = grey_jpeg();
    let rest = j.split_off(2);
    j.extend_from_slice(&[7, 0xff, 0, 0xff, 0xff]);
    j.extend_from_slice(&rest[1..]);
    assert_eq!(decode_luma(&j).ok().expect("decodes").pixels, vec![128u8; 64]);
}
