use fd_core::decode::Luma;
use fd_core::eye::{coverage, peaking_mask};
use fd_core::pupil::{choose_level, flood, grow, Segmenter, MIN_AREA};
use fd_core::score::Rect;
use fd_core::single::Real32;

/// A dark blob as an ellipse: centre, semi-axes (`a >= b`), angle of `a`.
#[derive(Debug, Clone, Copy)]
struct Blob {
    cx: f32,
    cy: f32,
    a: f32,
    b: f32,
    phi: f32,
    area: usize,
}

struct Edge {
    width_px: f32,
    anisotropy: f32,
    rays: usize,
}

/// Ellipse from the mask's moments, where it is plausible.
fn fit_blob(r: Rect, comp: &[bool], max_r: f32) -> Option<Blob> {
    let (w, h) = (r.w, r.h);
    let (mut n, mut mx, mut my) = (0f64, 0f64, 0f64);
    for y in 0..h {
        for x in 0..w {
            if comp[y * w + x] {
                n += 1.0;
                mx += x as f64 + 0.5;
                my += y as f64 + 0.5;
            }
        }
    }
    if n == 0.0 {
        return None;
    }
    let (cx, cy) = (mx / n, my / n);
    let (mut sxx, mut syy, mut sxy) = (0f64, 0f64, 0f64);
    for y in 0..h {
        for x in 0..w {
            if comp[y * w + x] {
                let (dx, dy) = (x as f64 + 0.5 - cx, y as f64 + 0.5 - cy);
                sxx += dx * dx;
                syy += dy * dy;
                sxy += dx * dy;
            }
        }
    }
    let (sxx, syy, sxy) = (sxx / n, syy / n, sxy / n);
    let tr = sxx + syy;
    let det = ((sxx - syy) * (sxx - syy) / 4.0 + sxy * sxy).sqrt();
    let (l1, l2) = (tr / 2.0 + det, (tr / 2.0 - det).max(1e-6));
    let (a, b) = (2.0 * l1.sqrt(), 2.0 * l2.sqrt());
    let phi = 0.5 * (2.0 * sxy).atan2(sxx - syy);
    let area = n as usize;
    let solidity = n / (std::f64::consts::PI * a * b);
    if area < MIN_AREA || a / b > 2.5 || (a * b).sqrt() > max_r as f64 || solidity < 0.6 {
        return None;
    }
    Some(Blob {
        cx: (r.x as f64 + cx) as f32,
        cy: (r.y as f64 + cy) as f32,
        a: a as f32,
        b: b as f32,
        phi: phi as f32,
        area,
    })
}

/// The pupil as the darkest compact blob near the centre of `search`.
fn segment_dark_blob(l: &Luma, search: Rect, max_r: f32) -> Option<Blob> {
    let mut seg = Segmenter::new(l, search)?;
    let (w, h) = (seg.area.w, seg.area.h);
    let (cx0, cy0) = (w as f32 / 2.0, h as f32 / 2.0);
    let reach = 0.25 * w.min(h) as f32;
    let costs: Vec<Option<Real32>> = (0..w * h)
        .map(|i| {
            let d = ((i % w) as f32 - cx0).hypot((i / w) as f32 - cy0);
            if d > reach {
                None
            } else {
                Some(Real32 { bits: (seg.sm[i] as f32 + 0.3 * d).to_bits() })
            }
        })
        .collect();
    for _ in 0..5 {
        let seed = match seg.pick_seed(&costs) {
            Some(s) => s,
            None => break,
        };
        if !seg.take_seed(seed) {
            break;
        }
        let areas = seg.areas(seed);
        let ring = |a: usize| 3.0 * 2.0 * (std::f32::consts::PI * a as f32).sqrt();
        let jumps: Vec<bool> = (0..areas.len())
            .map(|i| i + 1 < areas.len() && (areas[i + 1] - areas[i]) as f32 > ring(areas[i]))
            .collect();
        let big: Vec<bool> =
            areas.iter().map(|&a| (a as f32 / std::f32::consts::PI).sqrt() > max_r).collect();
        if let Some(k) = choose_level(&areas, &jumps, &big) {
            if let Some((comp, _)) = seg.grown(seed, k) {
                if let Some(b) = fit_blob(seg.area, &comp, max_r) {
                    return Some(b);
                }
            }
        }
        seg.exclude_region(seed, areas.len());
    }
    None
}

fn bilinear(l: &Luma, x: f32, y: f32) -> Option<f32> {
    if x < 0.0 || y < 0.0 || x >= (l.width - 1) as f32 || y >= (l.height - 1) as f32 {
        return None;
    }
    let (x0, y0) = (x.floor() as usize, y.floor() as usize);
    let (fx, fy) = (x - x0 as f32, y - y0 as f32);
    let p = |xx: usize, yy: usize| l.pixels[yy * l.width + xx] as f32;
    Some(
        p(x0, y0) * (1.0 - fx) * (1.0 - fy)
            + p(x0 + 1, y0) * fx * (1.0 - fy)
            + p(x0, y0 + 1) * (1.0 - fx) * fy
            + p(x0 + 1, y0 + 1) * fx * fy,
    )
}

/// 10-90% rise width of the transition along one profile.
fn profile_width(s: &[f32], step: f32) -> Option<f32> {
    let m = s.len();
    if m < 7 {
        return None;
    }
    let q: Vec<f32> = (0..m)
        .map(|i| if i == 0 || i == m - 1 { s[i] } else { (s[i - 1] + 2.0 * s[i] + s[i + 1]) / 4.0 })
        .collect();
    let g: Vec<f32> =
        (0..m).map(|i| if i == 0 || i == m - 1 { 0.0 } else { q[i + 1] - q[i - 1] }).collect();
    let (mut peak, mut gp) = (0usize, 0.0f32);
    for i in 2..m - 2 {
        if g[i] > gp {
            gp = g[i];
            peak = i;
        }
    }
    if gp <= 0.0 {
        return None;
    }
    let mut j = peak;
    while j > 1 && g[j] > 0.1 * gp {
        j -= 1;
    }
    let lo = (q[j.saturating_sub(2)] + q[j.saturating_sub(1)] + q[j]) / 3.0;
    let mut k = peak;
    while k < m - 2 && g[k] > 0.1 * gp {
        k += 1;
    }
    let hi = (q[k] + q[(k + 1).min(m - 1)] + q[(k + 2).min(m - 1)]) / 3.0;
    let step_h = hi - lo;
    if step_h < 20.0 {
        return None;
    }
    let (t10, t90) = (lo + 0.1 * step_h, lo + 0.9 * step_h);
    let mut i = peak;
    while i > 0 && q[i] > t10 {
        i -= 1;
    }
    let x10 = if q[i + 1] != q[i] { i as f32 + (t10 - q[i]) / (q[i + 1] - q[i]) } else { i as f32 };
    let mut i = peak;
    while i + 1 < m && q[i] < t90 {
        i += 1;
    }
    let x90 = if i > 0 && q[i] != q[i - 1] {
        (i - 1) as f32 + (t90 - q[i - 1]) / (q[i] - q[i - 1])
    } else {
        i as f32
    };
    let width = (x90 - x10) * step;
    if width > 0.0 && width < (m as f32) * step {
        Some(width)
    } else {
        None
    }
}

/// Edge widths across the blob's rim along `n_rays` outward normals.
fn edge_width(l: &Luma, blob: &Blob, n_rays: usize) -> Option<Edge> {
    let step = 0.5f32;
    let half = (0.6 * (blob.a * blob.b).sqrt()).clamp(6.0, 24.0);
    let m = (2.0 * half / step) as usize + 1;
    let (cphi, sphi) = (blob.phi.cos(), blob.phi.sin());
    let mut widths: Vec<f32> = Vec::new();
    for k in 0..n_rays {
        let psi = std::f32::consts::TAU * k as f32 / n_rays as f32;
        let (lx, ly) = (blob.a * psi.cos(), blob.b * psi.sin());
        let (px, py) = (blob.cx + cphi * lx - sphi * ly, blob.cy + sphi * lx + cphi * ly);
        let (nx0, ny0) = (psi.cos() / blob.a, psi.sin() / blob.b);
        let nn = nx0.hypot(ny0);
        let (nx, ny) = ((cphi * nx0 - sphi * ny0) / nn, (sphi * nx0 + cphi * ny0) / nn);
        let samples: Option<Vec<f32>> = (0..m)
            .map(|i| {
                let d = -half + i as f32 * step;
                bilinear(l, px + d * nx, py + d * ny)
            })
            .collect();
        if let Some(w) = samples.and_then(|s| profile_width(&s, step)) {
            widths.push(w);
        }
    }
    if widths.len() < 16 {
        return None;
    }
    widths.sort_by(|a, b| a.partial_cmp(b).unwrap());
    let pct = |p: f32| widths[((widths.len() - 1) as f32 * p).round() as usize];
    Some(Edge {
        width_px: pct(0.75),
        anisotropy: pct(0.9) / pct(0.5).max(1e-3),
        rays: widths.len(),
    })
}

fn measure_eye(l: &Luma, search: Rect, max_r: f32) -> Option<Edge> {
    let blob = segment_dark_blob(l, search, max_r)?;
    edge_width(l, &blob, 64)
}

fn gauss(src: &[f32], w: usize, h: usize, sigma: f32) -> Vec<f32> {
    if sigma <= 0.0 {
        return src.to_vec();
    }
    let r = (3.0 * sigma).ceil() as isize;
    let k: Vec<f32> = (-r..=r).map(|i| (-(i * i) as f32 / (2.0 * sigma * sigma)).exp()).collect();
    let norm: f32 = k.iter().sum();
    let at = |v: &[f32], x: isize, y: isize| {
        v[(y.clamp(0, h as isize - 1) as usize) * w + x.clamp(0, w as isize - 1) as usize]
    };
    let mut tmp = vec![0f32; w * h];
    for y in 0..h as isize {
        for x in 0..w as isize {
            tmp[(y * w as isize + x) as usize] =
                k.iter().enumerate().map(|(j, kv)| kv * at(src, x + j as isize - r, y)).sum::<f32>() / norm;
        }
    }
    let mut out = vec![0f32; w * h];
    for y in 0..h as isize {
        for x in 0..w as isize {
            out[(y * w as isize + x) as usize] =
                k.iter().enumerate().map(|(j, kv)| kv * at(&tmp, x, y + j as isize - r)).sum::<f32>() / norm;
        }
    }
    out
}

/// Horizontal box blur of `len` px (1-D motion).
fn motion(src: &[f32], w: usize, h: usize, len: usize) -> Vec<f32> {
    let mut out = vec![0f32; w * h];
    for y in 0..h {
        for x in 0..w {
            let lo = x.saturating_sub(len / 2);
            let hi = (x + len / 2).min(w - 1);
            out[y * w + x] = (lo..=hi).map(|xx| src[y * w + xx]).sum::<f32>() / (hi - lo + 1) as f32;
        }
    }
    out
}

/// Background 140, dark disc (25) of radius `r` at `c`, catchlight (250) r=3 inside.
fn eye_image(w: usize, h: usize, c: (f32, f32), r: f32) -> Vec<f32> {
    (0..w * h)
        .map(|i| {
            let (x, y) = ((i % w) as f32 + 0.5, (i / w) as f32 + 0.5);
            let d = (x - c.0).hypot(y - c.1);
            if (x - (c.0 - 10.0)).hypot(y - (c.1 - 10.0)) < 3.0 {
                250.0
            } else if d < r {
                25.0
            } else {
                140.0
            }
        })
        .collect()
}

fn luma(px: &[f32], w: usize, h: usize) -> Luma {
    Luma {
        pixels: px.iter().map(|v| v.round().clamp(0.0, 255.0) as u8).collect(),
        width: w,
        height: h,
    }
}

fn noise(src: &[f32], sigma: f32, seed: u32) -> Vec<f32> {
    let mut state = seed;
    src.iter()
        .map(|&v| {
            let g: f32 = (0..12)
                .map(|_| {
                    state = state.wrapping_mul(1664525).wrapping_add(1013904223);
                    (state >> 8) as f32 / (1u32 << 24) as f32
                })
                .sum::<f32>()
                - 6.0;
            v + sigma * g
        })
        .collect()
}

const W: usize = 300;
const H: usize = 300;
const ALL: Rect = Rect { x: 0, y: 0, w: W, h: H };

#[test]
fn segments_disc_with_catchlight_filled() {
    let img = gauss(&eye_image(W, H, (150.0, 150.0), 35.0), W, H, 1.0);
    let b = segment_dark_blob(&luma(&img, W, H), ALL, 100.0).expect("blob");
    assert!((b.cx - 150.0).abs() < 1.0 && (b.cy - 150.0).abs() < 1.0, "{b:?}");
    let r = (b.a * b.b).sqrt();
    assert!((r - 35.0).abs() < 0.05 * 35.0, "radius {r}");
    let disc = std::f32::consts::PI * 35.0 * 35.0;
    assert!((b.area as f32 - disc).abs() < 0.06 * disc, "area {} (hole not filled?)", b.area);
}

#[test]
fn border_touching_blob_is_rejected() {
    let img = eye_image(W, H, (20.0, 150.0), 35.0);
    assert!(segment_dark_blob(&luma(&img, W, H), ALL, 100.0).is_none());
}

#[test]
fn widths_grow_with_blur_and_match_gaussian_rise() {
    let base = eye_image(W, H, (150.0, 150.0), 35.0);
    let mut last = 0.0;
    for sigma in [0.5f32, 1.0, 1.5, 2.0, 3.0, 4.0] {
        let l = luma(&gauss(&base, W, H, sigma), W, H);
        let m = measure_eye(&l, ALL, 100.0).expect("measure");
        assert!(m.width_px > last, "sigma {sigma}: {} <= {last}", m.width_px);
        last = m.width_px;
        if sigma >= 1.0 {
            let ratio = m.width_px / (2.563 * sigma);
            assert!((0.85..=1.25).contains(&ratio), "sigma {sigma}: width {} ratio {ratio}", m.width_px);
        }
        assert!(m.rays >= 48, "sigma {sigma}: only {} rays", m.rays);
    }
}

#[test]
fn motion_blur_shows_as_anisotropy() {
    let base = gauss(&eye_image(W, H, (150.0, 150.0), 35.0), W, H, 1.0);
    let iso = measure_eye(&luma(&base, W, H), ALL, 100.0).unwrap();
    assert!(iso.anisotropy < 1.15, "isotropic anisotropy {}", iso.anisotropy);
    let mv = measure_eye(&luma(&motion(&base, W, H, 8), W, H), ALL, 100.0).unwrap();
    assert!(mv.anisotropy > 1.3, "motion anisotropy {}", mv.anisotropy);
    assert!(mv.width_px > iso.width_px);
}

fn fraction(c: (usize, usize)) -> f32 {
    c.0 as f32 / c.1.max(1) as f32
}

/// Fine texture passes the peaking test while sharp and fails it once
/// blurred. (A single hard edge is different: moderate blur widens the
/// band above threshold, which is why coverage is a texture measure and
/// the edge width, not coverage, is the primary sharpness score.)
#[test]
fn coverage_drops_with_blur() {
    let texture = gauss(&noise(&vec![128.0; W * H], 60.0, 7), W, H, 1.0);
    let sharp = fraction(coverage(&luma(&texture, W, H), ALL));
    let soft = fraction(coverage(&luma(&gauss(&texture, W, H, 3.0), W, H), ALL));
    assert!(sharp > 0.05 && sharp > 3.0 * soft, "sharp {sharp} soft {soft}");
}

#[test]
fn noise_barely_moves_the_width() {
    let base = gauss(&eye_image(W, H, (150.0, 150.0), 35.0), W, H, 1.0);
    let clean = measure_eye(&luma(&base, W, H), ALL, 100.0).unwrap().width_px;
    let noisy = measure_eye(&luma(&noise(&base, 4.0, 3), W, H), ALL, 100.0).unwrap().width_px;
    assert!((noisy - clean).abs() < 0.15 * clean, "clean {clean} noisy {noisy}");
}

#[test]
fn regions_fill_their_holes() {
    // a dark ring with a bright middle, in a bright 7x7 field
    let (w, h) = (7usize, 7usize);
    let mut sm = vec![200u8; w * h];
    for y in 2..5 {
        for x in 2..5 {
            sm[y * w + x] = 10;
        }
    }
    sm[3 * w + 3] = 250;
    let (comp, area) = grow(&sm, w, h, 2 * w + 2, 50).expect("a blob");
    assert_eq!(area, 9);
    assert!(comp[3 * w + 3]);
    assert_eq!(comp.iter().filter(|&&c| c).count(), 9);
    // from a pixel that is not below the threshold nothing grows
    assert!(grow(&sm, w, h, 3 * w + 3, 50).is_none());
    // everything is below 255, so the region reaches the border
    assert!(grow(&sm, w, h, 2 * w + 2, 255).is_none());
}

#[test]
fn flooding_stops_at_walls() {
    // open corridor in row 0, wall in row 1, open row 2
    let open = vec![true, true, true, false, false, false, true, true, true];
    let from = vec![true, false, false, false, false, false, false, false, false];
    assert_eq!(
        flood(&open, 3, &from),
        vec![true, true, true, false, false, false, false, false, false]
    );
}

#[test]
fn levels_stop_before_a_merge() {
    let areas = vec![50usize, 120, 130, 140, 900, 950];
    let none = vec![false; 6];
    // first level big enough is 1; without a jump the middle of 1..=5 is 3
    assert_eq!(choose_level(&areas, &none, &none), Some(3));
    let jump = vec![false, false, false, true, false, false];
    // up to and with level 3: the middle of 1..=3
    assert_eq!(choose_level(&areas, &jump, &none), Some(2));
    let big = vec![false, true, true, true, true, true];
    assert_eq!(choose_level(&areas, &none, &big), None);
    assert_eq!(choose_level(&vec![5, 6], &vec![false; 2], &vec![false; 2]), None);
}

#[test]
fn peaking_needs_a_steep_gradient() {
    // a vertical edge of 48 levels: smoothed over 3 px, 16 per px at most
    let (w, h) = (9usize, 5usize);
    let px: Vec<u8> = (0..w * h).map(|i| if i % w < 4 { 0 } else { 48 }).collect();
    let all = Rect { x: 0, y: 0, w, h };
    let m = peaking_mask(&px, w, h, all);
    let row: Vec<bool> = m[2 * w..3 * w].to_vec();
    assert_eq!(row, vec![false, false, false, true, true, false, false, false, false]);
    assert!(m[..w].iter().all(|&b| !b), "the border never passes");
    let l = Luma { pixels: px, width: w, height: h };
    assert_eq!(coverage(&l, all), (6, 45));
}
