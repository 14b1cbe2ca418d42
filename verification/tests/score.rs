use fd_core::decode::Luma;
use fd_core::score::{score_global, score_region, GlobalStats, Rect, Stats, TILES_X, TILES_Y};

/// Contrast-normalized Laplacian energy (x100), and the variance.
fn norm(s: &Stats) -> (f32, f64) {
    if s.n == 0 {
        return (0.0, 0.0);
    }
    let n = s.n as f64;
    let mean = s.sum as f64 / n;
    let var = (s.sum2 as f64 / n - mean * mean).max(1.0);
    ((100.0 * s.energy as f64 / n / var) as f32, var)
}

/// Max over tiles, weighted toward the centre and gated by contrast.
fn global(l: &Luma) -> f32 {
    match score_global(l) {
        GlobalStats::Whole(s) => norm(&s).0,
        GlobalStats::Tiles(ts) => {
            let mut best = 0.0f32;
            for (i, s) in ts.iter().enumerate() {
                let (score, var) = norm(s);
                let gate = (var / 400.0).min(1.0) as f32;
                let dx = ((i % TILES_X) as f32 + 0.5) / TILES_X as f32 - 0.5;
                let dy = ((i / TILES_X) as f32 + 0.5) / TILES_Y as f32 - 0.5;
                let w = 1.0 - 0.8 * (dx * dx + dy * dy).sqrt();
                best = best.max(score * gate * w);
            }
            best
        }
    }
}

fn lcg(state: &mut u32) -> u32 {
    *state = state.wrapping_mul(1664525).wrapping_add(1013904223);
    *state
}

/// Box blur of radius `r` (separable, edge-clamped), in f32.
fn box_blur(src: &[f32], w: usize, h: usize, r: usize) -> Vec<f32> {
    let mut tmp = vec![0f32; w * h];
    for y in 0..h {
        for x in 0..w {
            let (lo, hi) = (x.saturating_sub(r), (x + r).min(w - 1));
            tmp[y * w + x] = (lo..=hi).map(|xx| src[y * w + xx]).sum::<f32>() / (hi - lo + 1) as f32;
        }
    }
    let mut out = vec![0f32; w * h];
    for y in 0..h {
        let (lo, hi) = (y.saturating_sub(r), (y + r).min(h - 1));
        for x in 0..w {
            out[y * w + x] = (lo..=hi).map(|yy| tmp[yy * w + x]).sum::<f32>() / (hi - lo + 1) as f32;
        }
    }
    out
}

/// Separable Gaussian blur in f32 (radius 3 sigma, edge-clamped).
fn gauss(src: &[f32], w: usize, h: usize, sigma: f32) -> Vec<f32> {
    let r = (3.0 * sigma).ceil() as isize;
    let k: Vec<f32> = (-r..=r).map(|i| (-(i * i) as f32 / (2.0 * sigma * sigma)).exp()).collect();
    let norm: f32 = k.iter().sum();
    let at = |v: &[f32], x: isize, y: isize| {
        v[(y.clamp(0, h as isize - 1) as usize) * w + x.clamp(0, w as isize - 1) as usize]
    };
    let mut tmp = vec![0f32; w * h];
    for y in 0..h as isize {
        for x in 0..w as isize {
            tmp[(y * w as isize + x) as usize] =
                k.iter().enumerate().map(|(j, kv)| kv * at(src, x + j as isize - r, y)).sum::<f32>() / norm;
        }
    }
    let mut out = vec![0f32; w * h];
    for y in 0..h as isize {
        for x in 0..w as isize {
            out[(y * w as isize + x) as usize] =
                k.iter().enumerate().map(|(j, kv)| kv * at(&tmp, x, y + j as isize - r)).sum::<f32>() / norm;
        }
    }
    out
}

/// Natural-looking test content: three octaves of smoothed noise,
/// stretched to 30..220 so exposure scaling does not clip.
fn natural(w: usize, h: usize) -> Vec<f32> {
    let mut state = 0xC0FFEEu32;
    let noise: Vec<f32> = (0..w * h).map(|_| (lcg(&mut state) >> 24) as f32).collect();
    let o1 = box_blur(&noise, w, h, 1);
    let o2 = box_blur(&noise, w, h, 4);
    let o3 = box_blur(&noise, w, h, 16);
    let mix: Vec<f32> = (0..w * h).map(|i| o1[i] + 2.0 * o2[i] + 4.0 * o3[i]).collect();
    let (lo, hi) = mix.iter().fold((f32::MAX, f32::MIN), |(a, b), &v| (a.min(v), b.max(v)));
    mix.iter().map(|v| 30.0 + 190.0 * (v - lo) / (hi - lo)).collect()
}

fn add_noise(src: &[f32], sigma: f32, seed: u32) -> Vec<f32> {
    let mut state = seed;
    src.iter()
        .map(|&v| {
            let g: f32 =
                (0..12).map(|_| (lcg(&mut state) >> 8) as f32 / (1u32 << 24) as f32).sum::<f32>() - 6.0;
            v + sigma * g
        })
        .collect()
}

fn luma(px: &[f32], w: usize, h: usize) -> Luma {
    Luma {
        pixels: px.iter().map(|v| v.round().clamp(0.0, 255.0) as u8).collect(),
        width: w,
        height: h,
    }
}

fn s(px: &[f32], w: usize, h: usize) -> f32 {
    norm(&score_region(&luma(px, w, h), Rect { x: 0, y: 0, w, h })).0
}

/// Sub-pixel blur at working resolution (0.5 and 1 px ~ 2 and 4 px
/// native) must be separated clearly and in order.
#[test]
fn fine_blur_is_discriminated() {
    let (w, h) = (256, 256);
    let sharp = natural(w, h);
    let (b05, b1) = (gauss(&sharp, w, h, 0.5), gauss(&sharp, w, h, 1.0));
    let (s0, s05, s1) = (s(&sharp, w, h), s(&b05, w, h), s(&b1, w, h));
    assert!(s0 > s05 && s05 > s1, "sharp={s0} blur0.5={s05} blur1={s1}");
    assert!(s0 / s05 > 1.3, "blur 0.5 px separated only {}x", s0 / s05);
    assert!(s0 / s1 > 2.0, "blur 1 px separated only {}x", s0 / s1);
}

/// Common-mode sensor noise must not rank a blurred frame above a sharp
/// one, and must not blow the score up.
#[test]
fn noise_does_not_invert_ranking() {
    let (w, h) = (256, 256);
    let sharp = natural(w, h);
    let blurred = gauss(&sharp, w, h, 1.0);
    let (sn, bn) = (add_noise(&sharp, 2.0, 5), add_noise(&blurred, 2.0, 5));
    assert!(s(&sn, w, h) > s(&bn, w, h));
    assert!(s(&sn, w, h) / s(&sharp, w, h) < 2.0);
}

#[test]
fn exposure_flicker_is_invisible() {
    let (w, h) = (256, 256);
    let sharp = natural(w, h);
    let dim: Vec<f32> = sharp.iter().map(|v| v * 0.8).collect();
    let (a, b) = (s(&sharp, w, h), s(&dim, w, h));
    assert!((a - b).abs() < 0.05 * a, "exposure moved the score {a} -> {b}");
}

/// A flat, noisy tile (sky) must not win max-over-tiles.
#[test]
fn flat_noise_scores_low() {
    let (w, h) = (256, 256);
    let natural_global = global(&luma(&natural(w, h), w, h));
    let flat = add_noise(&vec![128.0; w * h], 2.0, 9);
    let flat_global = global(&luma(&flat, w, h));
    assert!(flat_global < 0.5 * natural_global, "flat={flat_global} natural={natural_global}");
}

/// Coarse check: a heavily blurred pattern must score well below the sharp
/// one, also through `score_global`.
#[test]
fn coarse_blur_is_monotonic() {
    let w: usize = 256;
    let h: usize = 256;
    // Broad-spectrum pattern (LCG noise): single-frequency patterns like
    // checkerboards defeat contrast normalization, real content doesn't.
    let mut state = 0x12345678u32;
    let sharp: Vec<u8> = (0..w * h)
        .map(|_| {
            state = state.wrapping_mul(1664525).wrapping_add(1013904223);
            (state >> 24) as u8
        })
        .collect();
    // separable 5-tap box blur, horizontal then vertical, applied twice
    let blur_once = |src: &Vec<u8>| -> Vec<u8> {
        let hpass: Vec<u8> = (0..w * h)
            .map(|i| {
                let x = i % w;
                let lo = x.saturating_sub(2);
                let hi = (x + 2).min(w - 1);
                let row = i - x;
                let s: u32 = (lo..=hi).map(|xx| src[row + xx] as u32).sum();
                (s / (hi - lo + 1) as u32) as u8
            })
            .collect();
        (0..w * h)
            .map(|i| {
                let y = i / w;
                let lo = y.saturating_sub(2);
                let hi = (y + 2).min(h - 1);
                let s: u32 = (lo..=hi).map(|yy| hpass[yy * w + i % w] as u32).sum();
                (s / (hi - lo + 1) as u32) as u8
            })
            .collect()
    };
    let blurred = blur_once(&blur_once(&sharp));
    let l1 = Luma { pixels: sharp, width: w, height: h };
    let l2 = Luma { pixels: blurred, width: w, height: h };
    let r = Rect { x: 0, y: 0, w, h };
    let (s1, s2) = (norm(&score_region(&l1, r)).0, norm(&score_region(&l2, r)).0);
    assert!(s1 > s2 * 1.5, "sharp={} blurred={}", s1, s2);
    assert!(global(&l1) > global(&l2));
}

#[test]
fn sums_over_a_small_pattern() {
    // one bright pixel in an 8x8 field of zeros
    let mut pixels = vec![0u8; 64];
    pixels[3 * 8 + 4] = 10;
    let l = Luma { pixels, width: 8, height: 8 };
    let st = score_region(&l, Rect { x: 0, y: 0, w: 8, h: 8 });
    assert_eq!((st.n, st.sum, st.sum2), (36, 10, 100));
    // the pixel itself (-40)^2 and its four neighbours 10^2 each
    assert_eq!(st.energy, 1600 + 4 * 100);
    // regions under 8 px hold nothing
    let none = score_region(&l, Rect { x: 0, y: 0, w: 7, h: 8 });
    assert_eq!((none.n, none.energy), (0, 0));
    // cut off at the image
    let cut = score_region(&l, Rect { x: 0, y: 0, w: 100, h: 100 });
    assert_eq!((cut.n, cut.energy), (36, 2000));
}

#[test]
fn scaling_the_exposure_scales_out() {
    let (w, h) = (16usize, 16usize);
    let pixels: Vec<u8> = (0..w * h).map(|i| (i * 31 % 61) as u8).collect();
    let twice: Vec<u8> = pixels.iter().map(|v| v * 3).collect();
    let r = Rect { x: 0, y: 0, w, h };
    let a = score_region(&Luma { pixels, width: w, height: h }, r);
    let b = score_region(&Luma { pixels: twice, width: w, height: h }, r);
    assert_eq!(b.energy, 9 * a.energy);
    assert_eq!(b.sum2, 9 * a.sum2);
    assert_eq!((b.sum, b.n), (3 * a.sum, a.n));
}

#[test]
fn small_images_are_scored_whole() {
    let l = Luma { pixels: vec![9; 100 * 100], width: 100, height: 100 };
    assert!(matches!(score_global(&l), GlobalStats::Whole(_)));
    let l = Luma { pixels: vec![9; 144 * 96], width: 144, height: 96 };
    match score_global(&l) {
        GlobalStats::Tiles(ts) => {
            assert_eq!(ts.len(), 54);
            assert!(ts.iter().all(|s| s.n == 14 * 14 && s.energy == 0));
        }
        GlobalStats::Whole(_) => panic!("large enough for tiles"),
    }
}
