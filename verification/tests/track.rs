use fd_core::decode::Luma;
use fd_core::single::Real32;
use fd_core::track::{extract_patch, find_peak, plan_step, round_offsets, Round, CONF_OK, SEARCH, TEMPLATE};

fn num(v: f32) -> Real32 {
    Real32 { bits: v.to_bits() }
}

fn normalize(mut v: Vec<f32>) -> Option<Vec<f32>> {
    let n = v.len() as f32;
    let mean = v.iter().sum::<f32>() / n;
    let mut ss = 0.0;
    for p in v.iter_mut() {
        *p -= mean;
        ss += *p * *p;
    }
    if ss < 1e-3 {
        return None; // flat patch, untrackable
    }
    let inv = ss.sqrt().recip();
    for p in v.iter_mut() {
        *p *= inv;
    }
    Some(v)
}

fn template(l: &Luma, cx: f32, cy: f32) -> Option<Vec<f32>> {
    let half = TEMPLATE as f32 / 2.0;
    let (x0, y0) = ((cx - half).round() as i64, (cy - half).round() as i64);
    let patch = extract_patch(l, x0, y0, TEMPLATE)?;
    normalize(patch.iter().map(|&p| p as f32).collect())
}

/// Correlation of a template with the patch at (cx, cy), -1..1.
fn ncc_at(l: &Luma, t: &[f32], cx: f32, cy: f32) -> f32 {
    match template(l, cx, cy) {
        Some(patch) => t.iter().zip(&patch).map(|(a, b)| a * b).sum(),
        None => -1.0,
    }
}

/// Coarse-to-fine search around `prev`: position and confidence.
fn search(l: &Luma, t: &[f32], prev: (f32, f32)) -> ((f32, f32), f32) {
    let at = |o: (i32, i32)| (prev.0 + o.0 as f32, prev.1 + o.1 as f32);
    let mut best = ((0, 0), -1.0f32);
    for round in [Round::Coarse, Round::Fine, Round::Finest] {
        let offsets = round_offsets(round, best.0);
        let values: Vec<Real32> =
            offsets.iter().map(|&o| num(ncc_at(l, t, at(o).0, at(o).1))).collect();
        if let Some(i) = find_peak(&values, num(best.1)) {
            best = (offsets[i], f32::from_bits(values[i].bits));
        }
    }
    (at(best.0), best.1)
}

struct Tracker {
    original: Vec<f32>,
    current: Vec<f32>,
    pos: (f32, f32),
}

impl Tracker {
    fn new(seed: &Luma, x: f32, y: f32) -> Option<Tracker> {
        let t = template(seed, x, y)?;
        Some(Tracker { original: t.clone(), current: t, pos: (x, y) })
    }

    fn step(&mut self, l: &Luma) -> (f32, f32, f32) {
        let (p_orig, c_orig) = search(l, &self.original, self.pos);
        let (p_cur, c_cur) = search(l, &self.current, self.pos);
        let plan = plan_step(num(c_orig), num(c_cur));
        let (pos, conf) = if plan.use_original { (p_orig, c_orig) } else { (p_cur, c_cur) };
        if plan.moves {
            self.pos = pos;
            if plan.refresh {
                if let Some(t) = template(l, pos.0, pos.1) {
                    self.current = t;
                }
            }
        }
        (self.pos.0, self.pos.1, conf)
    }
}

/// Smoothed noise: real images have spatial autocorrelation; the coarse
/// stride-8 search relies on it (pure white noise has none).
fn noise_image(w: usize, h: usize, seed: u32) -> Luma {
    let mut state = seed;
    let mut px: Vec<u8> = (0..w * h)
        .map(|_| {
            state = state.wrapping_mul(1664525).wrapping_add(1013904223);
            (state >> 24) as u8
        })
        .collect();
    for _ in 0..2 {
        let mut out = vec![0u8; w * h];
        for y in 0..h {
            for x in 0..w {
                let mut sum = 0u32;
                let mut n = 0u32;
                for dy in -3i32..=3 {
                    for dx in -3i32..=3 {
                        let (sx, sy) = (x as i32 + dx, y as i32 + dy);
                        if sx >= 0 && sy >= 0 && (sx as usize) < w && (sy as usize) < h {
                            sum += px[sy as usize * w + sx as usize] as u32;
                            n += 1;
                        }
                    }
                }
                out[y * w + x] = (sum / n) as u8;
            }
        }
        px = out;
    }
    // Re-stretch contrast after smoothing so patches aren't near-flat.
    let (mut lo, mut hi) = (255u8, 0u8);
    for &p in &px {
        lo = lo.min(p);
        hi = hi.max(p);
    }
    let span = (hi - lo).max(1) as u32;
    for p in px.iter_mut() {
        *p = ((*p as u32 - lo as u32) * 255 / span) as u8;
    }
    Luma { pixels: px, width: w, height: h }
}

fn shift(l: &Luma, dx: i32, dy: i32) -> Luma {
    let mut out = vec![128u8; l.pixels.len()];
    for y in 0..l.height as i32 {
        for x in 0..l.width as i32 {
            let (sx, sy) = (x - dx, y - dy);
            if sx >= 0 && sy >= 0 && (sx as usize) < l.width && (sy as usize) < l.height {
                out[y as usize * l.width + x as usize] = l.pixels[sy as usize * l.width + sx as usize];
            }
        }
    }
    Luma { pixels: out, width: l.width, height: l.height }
}

#[test]
fn tracks_translation() {
    let base = noise_image(400, 300, 7);
    let mut tr = Tracker::new(&base, 200.0, 150.0).unwrap();
    // Move the scene in steps; tracker must follow with high confidence.
    for (dx, dy) in [(15, -9), (30, 4), (42, 20)] {
        let moved = shift(&base, dx, dy);
        let (x, y, conf) = tr.step(&moved);
        assert!(conf > 0.8, "conf {conf}");
        assert!(
            (x - (200.0 + dx as f32)).abs() <= 1.5 && (y - (150.0 + dy as f32)).abs() <= 1.5,
            "pos ({x},{y}) expected ({},{})",
            200 + dx,
            150 + dy
        );
    }
}

#[test]
fn lost_track_has_low_confidence() {
    let base = noise_image(400, 300, 7);
    let unrelated = noise_image(400, 300, 999);
    let mut tr = Tracker::new(&base, 200.0, 150.0).unwrap();
    let (_, _, conf) = tr.step(&unrelated);
    assert!(conf < 0.5, "conf {conf} should be low on unrelated frame");
}

#[test]
fn rounds_get_finer() {
    let coarse = round_offsets(Round::Coarse, (0, 0));
    assert_eq!(coarse.len(), 25 * 25);
    assert_eq!(coarse[0], (-SEARCH, -SEARCH));
    assert_eq!(coarse[1], (-88, -96));
    assert_eq!(coarse[624], (96, 96));
    let fine = round_offsets(Round::Fine, (16, -24));
    assert_eq!((fine.len(), fine[0], fine[80]), (81, (8, -32), (24, -16)));
    let finest = round_offsets(Round::Finest, (17, -20));
    assert_eq!((finest.len(), finest[0], finest[80]), (81, (13, -24), (21, -16)));
}

#[test]
fn searches_stay_within_their_radius() {
    // only the quarter of the grid inside the window is left in its corner
    let fine = round_offsets(Round::Fine, (96, -96));
    assert_eq!((fine.len(), fine[0], fine[24]), (25, (88, -96), (96, -88)));
    let finest = round_offsets(Round::Finest, (94, 0));
    assert_eq!((finest.len(), finest[0]), (7 * 9, (90, -4)));
    for r in [Round::Fine, Round::Finest] {
        for c in [(96, 96), (-96, 3), (0, 0)] {
            assert!(round_offsets(r, c).iter().all(|o| o.0.abs() <= SEARCH && o.1.abs() <= SEARCH));
        }
    }
}

#[test]
fn peaks_are_the_first_of_the_best() {
    let v: Vec<Real32> = [0.1f32, 0.7, f32::NAN, 0.7, -0.2].iter().map(|&x| num(x)).collect();
    assert_eq!(find_peak(&v, num(-1.0)), Some(1));
    assert_eq!(find_peak(&v, num(0.7)), None);
    assert_eq!(find_peak(&vec![], num(-1.0)), None);
}

#[test]
fn steps_follow_the_confidence() {
    let p = plan_step(num(0.6), num(0.5));
    assert!(p.use_original && p.moves && !p.refresh);
    let p = plan_step(num(0.5), num(0.85));
    assert!(!p.use_original && p.moves && p.refresh);
    let p = plan_step(num(0.54), num(0.3));
    assert!(p.use_original && !p.moves && !p.refresh);
    assert_eq!(f32::from_bits(CONF_OK), 0.55);
    assert!(plan_step(num(0.55), num(0.55)).moves);
    assert!(plan_step(num(0.8), num(0.1)).refresh);
}

#[test]
fn patches_lie_inside_the_image() {
    let l = Luma { pixels: (0..48).collect(), width: 8, height: 6 };
    assert_eq!(extract_patch(&l, 6, 4, 2), Some(vec![38, 39, 46, 47]));
    assert_eq!(extract_patch(&l, 7, 4, 2), None);
    assert_eq!(extract_patch(&l, -1, 0, 2), None);
    assert_eq!(extract_patch(&l, 0, 5, 2), None);
}

#[test]
fn numbers_order_like_floats() {
    let xs = [0.0f32, -0.0, 1.0, -1.0, 1e-40, f32::INFINITY, f32::NEG_INFINITY, f32::NAN, 0.55];
    for &a in &xs {
        assert_eq!(num(a).is_nan(), a.is_nan());
        for &b in &xs {
            assert_eq!(num(a).lt(&num(b)), a < b, "{a} < {b}");
            assert_eq!(num(a).equals(&num(b)), a == b, "{a} == {b}");
        }
    }
}
