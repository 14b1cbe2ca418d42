//! The focus area of a frame: focus peaking and how much of the area passes
//! it, and the segmentation of the pupil (or the whole dark eye) inside a
//! search window. Rays across the rim of the blob found here give the blur
//! at the eye.

use vstd::prelude::*;
use vstd::arithmetic::div_mod::*;
use crate::decode::Luma;
use crate::score;
use crate::score::Rect;

verus! {

/// Focus-peaking threshold in luma levels per pixel: the gradient magnitude
/// of the 3x3-smoothed luma above this counts as "in focus" (a 100-level
/// edge 5 px wide is ~20/px; the same edge blurred to 15 px is ~7/px). The
/// display overlay paints exactly the pixels that `coverage` counts.
pub const PEAK_THRESHOLD: i32 = 8;

/// The index before `i`, at least 0.
pub open spec fn before(i: int) -> int {
    if i > 0 {
        i - 1
    } else {
        0
    }
}

/// The index after `i`, at most the last of `n`.
pub open spec fn after(i: int, n: int) -> int {
    if i + 1 < n {
        i + 1
    } else {
        n - 1
    }
}

/// Sum of a pixel and its neighbours to the left and right; the edge repeats.
pub open spec fn row3(px: Seq<u8>, w: int, x: int, y: int) -> int {
    score::at(px, w, before(x), y) + score::at(px, w, x, y) + score::at(px, w, after(x, w), y)
}

/// Mean of the 3x3 pixels around `(x, y)`; the edge repeats.
pub open spec fn smooth_at(px: Seq<u8>, w: int, h: int, x: int, y: int) -> int {
    (row3(px, w, x, before(y)) + row3(px, w, x, y) + row3(px, w, x, after(y, h))) / 9
}

/// 3x3 box-smoothed copy of an 8-bit plane.
pub open spec fn smoothed(px: Seq<u8>, w: int, h: int) -> Seq<u8> {
    Seq::new((w * h) as nat, |i: int| smooth_at(px, w, h, i % w, i / w) as u8)
}

/// The pixel `(x, y)` of a `w` by `h` image, and its row and column.
pub proof fn lemma_pix(w: int, h: int, x: int, y: int)
    requires
        0 <= x < w,
        0 <= y < h,
    ensures
        0 <= y * w,
        0 <= y * w + x < w * h,
        (y * w + x) / w == y,
        (y * w + x) % w == x,
        (y + 1) * w == y * w + w,
        (y - 1) * w == y * w - w,
{
    assert(0 <= y * w) by (nonlinear_arith)
        requires
            0 <= y,
            0 <= w,
    ;
    assert(y * w + x < w * h) by (nonlinear_arith)
        requires
            x < w,
            y <= h - 1,
            w > 0,
    ;
    lemma_fundamental_div_mod_converse(y * w + x, w, y, x);
    assert((y + 1) * w == y * w + w) by (nonlinear_arith);
    assert((y - 1) * w == y * w - w) by (nonlinear_arith);
}

/// Row and column of the pixel `i` of a `w` by `h` image.
pub proof fn lemma_unpix(w: int, h: int, i: int)
    requires
        0 <= i < w * h,
        w >= 0,
        h >= 0,
    ensures
        w > 0,
        0 <= i % w < w,
        0 <= i / w < h,
        i == (i / w) * w + i % w,
{
    assert(w > 0) by (nonlinear_arith)
        requires
            0 < w * h,
            w >= 0,
            h >= 0,
    ;
    lemma_fundamental_div_mod(i, w);
    lemma_mod_bound(i, w);
    lemma_div_pos_is_pos(i, w);
    assert(i / w < h) by (nonlinear_arith)
        requires
            w * (i / w) <= i,
            i < w * h,
            w > 0,
    ;
    assert((i / w) * w == w * (i / w)) by (nonlinear_arith);
}

/// Row and column of the pixel after `i`.
fn step(x: &mut usize, y: &mut usize, w: usize)
    requires
        *old(x) < w,
        *old(y) < usize::MAX,
    ensures
        *final(y) * w + *final(x) == *old(y) * w + *old(x) + 1,
        *final(x) < w,
        *final(y) == *old(y) || (*final(y) == *old(y) + 1 && *final(x) == 0),
{
    let ghost y0 = *y as int;
    if *x + 1 < w {
        *x = *x + 1;
    } else {
        *x = 0;
        *y = *y + 1;
        assert((y0 + 1) * w == y0 * w + w) by (nonlinear_arith);
    }
}

/// 3x3 box-smoothed copy of an 8-bit plane (edge-clamped), two passes.
fn smooth3(px: &Vec<u8>, w: usize, h: usize) -> (r: Vec<u8>)
    requires
        w * h <= px@.len(),
    ensures
        r@ == smoothed(px@, w as int, h as int),
{
    let total: usize = px.len();
    if w == 0 || h == 0 {
        let out: Vec<u8> = Vec::new();
        assert(w * h == 0) by (nonlinear_arith)
            requires
                w == 0 || h == 0,
        ;
        assert(out@ =~= smoothed(px@, w as int, h as int));
        return out;
    }
    let n: usize = w * h;
    assert(n >= w && n >= h) by (nonlinear_arith)
        requires
            n == w * h,
            w >= 1,
            h >= 1,
    ;
    let mut tmp: Vec<u16> = Vec::new();
    let mut x: usize = 0;
    let mut y: usize = 0;
    let mut i: usize = 0;
    while i < n
        invariant
            n == w * h,
            n <= total,
            total == px@.len(),
            w > 0,
            h > 0,
            i <= n,
            x < w,
            y <= h,
            h <= n,
            i == y * w + x,
            tmp@ == Seq::new(
                i as nat,
                |k: int| row3(px@, w as int, k % w as int, k / w as int) as u16,
            ),
        decreases n - i,
    {
        proof {
            lemma_unpix(w as int, h as int, i as int);
            lemma_fundamental_div_mod_converse(i as int, w as int, y as int, x as int);
            lemma_pix(w as int, h as int, x as int, y as int);
            lemma_pix(w as int, h as int, before(x as int), y as int);
            lemma_pix(w as int, h as int, after(x as int, w as int), y as int);
        }
        let a: usize = if x > 0 {
            i - 1
        } else {
            i
        };
        let b: usize = if x + 1 < w {
            i + 1
        } else {
            i
        };
        tmp.push(px[a] as u16 + px[i] as u16 + px[b] as u16);
        assert(tmp@ =~= Seq::new(
            (i + 1) as nat,
            |k: int| row3(px@, w as int, k % w as int, k / w as int) as u16,
        ));
        step(&mut x, &mut y, w);
        i += 1;
    }
    let mut out: Vec<u8> = Vec::new();
    x = 0;
    y = 0;
    i = 0;
    while i < n
        invariant
            n == w * h,
            n <= total,
            total == px@.len(),
            w > 0,
            h > 0,
            i <= n,
            x < w,
            y <= h,
            h <= n,
            i == y * w + x,
            tmp@ == Seq::new(
                n as nat,
                |k: int| row3(px@, w as int, k % w as int, k / w as int) as u16,
            ),
            out@ == smoothed(px@, w as int, h as int).take(i as int),
        decreases n - i,
    {
        proof {
            lemma_unpix(w as int, h as int, i as int);
            lemma_fundamental_div_mod_converse(i as int, w as int, y as int, x as int);
            lemma_pix(w as int, h as int, x as int, y as int);
            lemma_pix(w as int, h as int, x as int, before(y as int));
            lemma_pix(w as int, h as int, x as int, after(y as int, h as int));
        }
        let a: usize = if y > 0 {
            i - w
        } else {
            i
        };
        let b: usize = if y + 1 < h {
            i + w
        } else {
            i
        };
        assert(a == before(y as int) * w + x);
        assert(b == after(y as int, h as int) * w + x);
        proof {
            lemma_row3(px@, w as int, h as int, x as int, before(y as int));
            lemma_row3(px@, w as int, h as int, x as int, y as int);
            lemma_row3(px@, w as int, h as int, x as int, after(y as int, h as int));
        }
        out.push(((tmp[a] + tmp[i] + tmp[b]) / 9) as u8);
        assert(out@ =~= smoothed(px@, w as int, h as int).take(i + 1));
        step(&mut x, &mut y, w);
        i += 1;
    }
    assert(out@ =~= smoothed(px@, w as int, h as int));
    out
}

proof fn lemma_row3(px: Seq<u8>, w: int, h: int, x: int, y: int)
    requires
        0 <= x < w,
        0 <= y < h,
        w * h <= px.len(),
    ensures
        0 <= row3(px, w, x, y) <= 765,
{
}

/// Whether the pixel `(x, y)` passes the peaking test: not on the edge of the
/// image, and the gradient of the smoothed luma there above the threshold.
pub open spec fn peaks(px: Seq<u8>, w: int, h: int, x: int, y: int) -> bool {
    let dx = smooth_at(px, w, h, x + 1, y) - smooth_at(px, w, h, x - 1, y);
    let dy = smooth_at(px, w, h, x, y + 1) - smooth_at(px, w, h, x, y - 1);
    // The gradient is half of each difference.
    &&& 0 < x && x + 1 < w && 0 < y && y + 1 < h
    &&& dx * dx + dy * dy > 4 * PEAK_THRESHOLD * PEAK_THRESHOLD
}

/// Which pixels of `r` pass the peaking test, row by row.
pub open spec fn peak_mask(px: Seq<u8>, w: int, h: int, r: Rect) -> Seq<bool> {
    Seq::new(
        (r.w * r.h) as nat,
        |k: int| peaks(px, w, h, r.x + k % r.w as int, r.y + k / r.w as int),
    )
}

/// Whether the pixel `(x, y)` passes the peaking test on the smoothed plane.
fn peak_at(sm: &Vec<u8>, w: usize, h: usize, x: usize, y: usize, Ghost(px): Ghost<Seq<u8>>) -> (r:
    bool)
    requires
        w * h <= px.len(),
        sm@ == smoothed(px, w as int, h as int),
        x < w,
        y < h,
    ensures
        r == peaks(px, w as int, h as int, x as int, y as int),
{
    if x == 0 || x + 1 >= w || y == 0 || y + 1 >= h {
        return false;
    }
    let total: usize = sm.len();
    proof {
        lemma_pix(w as int, h as int, x as int, y as int);
        lemma_pix(w as int, h as int, x - 1, y as int);
        lemma_pix(w as int, h as int, x + 1, y as int);
        lemma_pix(w as int, h as int, x as int, y - 1);
        lemma_pix(w as int, h as int, x as int, y + 1);
        lemma_smooth_range(px, w as int, h as int, x - 1, y as int);
        lemma_smooth_range(px, w as int, h as int, x + 1, y as int);
        lemma_smooth_range(px, w as int, h as int, x as int, y - 1);
        lemma_smooth_range(px, w as int, h as int, x as int, y + 1);
    }
    let i: usize = y * w + x;
    let dx: i32 = sm[i + 1] as i32 - sm[i - 1] as i32;
    let dy: i32 = sm[i + w] as i32 - sm[i - w] as i32;
    assert(0 <= dx * dx <= 65_025 && 0 <= dy * dy <= 65_025) by (nonlinear_arith)
        requires
            -255 <= dx <= 255,
            -255 <= dy <= 255,
    ;
    dx * dx + dy * dy > 4 * PEAK_THRESHOLD * PEAK_THRESHOLD
}

proof fn lemma_smooth_range(px: Seq<u8>, w: int, h: int, x: int, y: int)
    requires
        0 <= x < w,
        0 <= y < h,
        w * h <= px.len(),
    ensures
        0 <= smooth_at(px, w, h, x, y) <= 255,
{
    lemma_row3(px, w, h, x, before(y));
    lemma_row3(px, w, h, x, y);
    lemma_row3(px, w, h, x, after(y, h));
}

/// Which pixels of `r` pass the peaking test (row-major, `r.w` x `r.h`).
pub fn peaking_mask(px: &Vec<u8>, w: usize, h: usize, r: Rect) -> (m: Vec<bool>)
    requires
        w * h <= px@.len(),
        r.w * r.h <= usize::MAX,
    ensures
        m@ == peak_mask(px@, w as int, h as int, r),
{
    let sm = smooth3(px, w, h);
    let mut mask: Vec<bool> = Vec::new();
    if r.w == 0 || r.h == 0 {
        assert(r.w * r.h == 0) by (nonlinear_arith)
            requires
                r.w == 0 || r.h == 0,
        ;
        assert(mask@ =~= peak_mask(px@, w as int, h as int, r));
        return mask;
    }
    let n: usize = r.w * r.h;
    assert(n >= r.h) by (nonlinear_arith)
        requires
            n == r.w * r.h,
            r.w >= 1,
            r.h >= 1,
    ;
    let mut x: usize = 0;
    let mut y: usize = 0;
    let mut k: usize = 0;
    while k < n
        invariant
            w * h <= px@.len(),
            sm@ == smoothed(px@, w as int, h as int),
            n == r.w * r.h,
            r.w > 0,
            r.h > 0,
            r.h <= n,
            k <= n,
            x < r.w,
            y <= r.h,
            k == y * r.w + x,
            mask@ == peak_mask(px@, w as int, h as int, r).take(k as int),
        decreases n - k,
    {
        proof {
            lemma_unpix(r.w as int, r.h as int, k as int);
            lemma_fundamental_div_mod_converse(k as int, r.w as int, y as int, x as int);
        }
        let on = if r.x < w && x < w - r.x && r.y < h && y < h - r.y {
            peak_at(&sm, w, h, r.x + x, r.y + y, Ghost(px@))
        } else {
            false
        };
        assert(on == peaks(px@, w as int, h as int, r.x + x, r.y + y));
        mask.push(on);
        assert(mask@ =~= peak_mask(px@, w as int, h as int, r).take(k + 1));
        step(&mut x, &mut y, r.w);
        k += 1;
    }
    assert(mask@ =~= peak_mask(px@, w as int, h as int, r));
    mask
}

/// How many of `s` are true.
pub open spec fn count_true(s: Seq<bool>) -> int
    decreases s.len(),
{
    if s.len() == 0 {
        0
    } else {
        count_true(s.drop_last()) + if s.last() {
            1int
        } else {
            0
        }
    }
}

proof fn lemma_count_bound(s: Seq<bool>)
    ensures
        0 <= count_true(s) <= s.len(),
    decreases s.len(),
{
    if s.len() > 0 {
        lemma_count_bound(s.drop_last());
    }
}

/// How many of `m` are true.
pub(crate) fn count(m: &Vec<bool>) -> (r: usize)
    ensures
        r == count_true(m@),
{
    let mut n: usize = 0;
    let mut i: usize = 0;
    assert(m@.take(0) =~= Seq::<bool>::empty());
    while i < m.len()
        invariant
            i <= m.len(),
            n <= i,
            n == count_true(m@.take(i as int)),
        decreases m.len() - i,
    {
        assert(m@.take(i + 1).drop_last() =~= m@.take(i as int));
        if m[i] {
            n += 1;
        }
        i += 1;
    }
    assert(m@.take(m@.len() as int) =~= m@);
    n
}

/// `r` moved inside a `w` by `h` image where it starts outside, and cut off
/// there.
pub open spec fn clamped(w: int, h: int, r: Rect) -> Rect {
    let x = if r.x < w {
        r.x as int
    } else if w > 0 {
        w - 1
    } else {
        0
    };
    let y = if r.y < h {
        r.y as int
    } else if h > 0 {
        h - 1
    } else {
        0
    };
    Rect {
        x: x as usize,
        y: y as usize,
        w: (if r.w <= w - x {
            r.w as int
        } else {
            w - x
        }) as usize,
        h: (if r.h <= h - y {
            r.h as int
        } else {
            h - y
        }) as usize,
    }
}

/// `r` moved inside the image and cut off there.
pub(crate) fn clamp_rect(l: &Luma, r: Rect) -> (c: Rect)
    ensures
        c == clamped(l.width as int, l.height as int, r),
        c.x + c.w <= l.width,
        c.y + c.h <= l.height,
{
    let x: usize = if r.x < l.width {
        r.x
    } else if l.width > 0 {
        l.width - 1
    } else {
        0
    };
    let y: usize = if r.y < l.height {
        r.y
    } else if l.height > 0 {
        l.height - 1
    } else {
        0
    };
    Rect {
        x,
        y,
        w: if r.w <= l.width - x {
            r.w
        } else {
            l.width - x
        },
        h: if r.h <= l.height - y {
            r.h
        } else {
            l.height - y
        },
    }
}

/// How many pixels of `r`, cut off at the image, pass the peaking test, and
/// how many there are: their ratio says how much of the focus area is in
/// focus.
pub fn coverage(l: &Luma, r: Rect) -> (c: (usize, usize))
    requires
        l.wf(),
    ensures
        ({
            let m = peak_mask(
                l.pixels@,
                l.width as int,
                l.height as int,
                clamped(l.width as int, l.height as int, r),
            );
            c.0 == count_true(m) && c.1 == m.len()
        }),
        c.0 <= c.1,
{
    let total: usize = l.pixels.len();
    let k = clamp_rect(l, r);
    assert(k.w * k.h <= l.width * l.height) by (nonlinear_arith)
        requires
            0 <= k.w <= l.width,
            0 <= k.h <= l.height,
    ;
    let m = peaking_mask(&l.pixels, l.width, l.height, k);
    proof {
        lemma_count_bound(m@);
    }
    (count(&m), m.len())
}

/// Whether the mask of a whole `w` by `h` image says that the pixel `(x, y)`
/// is in focus.
pub open spec fn in_focus(px: Seq<u8>, w: usize, h: usize, x: int, y: int) -> bool {
    peak_mask(px, w as int, h as int, (Rect { x: 0, y: 0, w, h }))[y * w + x]
}

pub proof fn lemma_in_focus(px: Seq<u8>, w: usize, h: usize, x: int, y: int)
    requires
        0 <= x < w,
        0 <= y < h,
    ensures
        in_focus(px, w, h, x, y) == peaks(px, w as int, h as int, x, y),
        peak_mask(px, w as int, h as int, (Rect { x: 0, y: 0, w, h })).len() == w * h,
{
    lemma_pix(w as int, h as int, x, y);
}

/// Whatever rectangle is looked at, the same pixels are in focus, and none
/// outside the image.
pub proof fn regions_agree(px: Seq<u8>, w: usize, h: usize, r: Rect, i: int, j: int)
    requires
        0 <= i < r.w,
        0 <= j < r.h,
    ensures
        peak_mask(px, w as int, h as int, r).len() == r.w * r.h,
        peak_mask(px, w as int, h as int, r)[j * r.w + i] == (r.x + i < w && r.y + j < h && in_focus(
            px,
            w,
            h,
            r.x + i,
            r.y + j,
        )),
{
    lemma_pix(r.w as int, r.h as int, i, j);
    if r.x + i < w && r.y + j < h {
        lemma_in_focus(px, w, h, r.x + i, r.y + j);
    }
}

/// The outermost pixels are never in focus.
pub proof fn edges_are_out_of_focus(px: Seq<u8>, w: usize, h: usize, x: int, y: int)
    requires
        0 <= x < w,
        0 <= y < h,
        x == 0 || y == 0 || x == w - 1 || y == h - 1,
    ensures
        !in_focus(px, w, h, x, y),
{
    lemma_in_focus(px, w, h, x, y);
}

/// Peaking favours no direction: where one image is the other with rows and
/// columns swapped, so is what is in focus.
pub proof fn peaking_favours_no_direction(
    px: Seq<u8>,
    turned: Seq<u8>,
    w: usize,
    h: usize,
    x: int,
    y: int,
)
    requires
        0 <= x < w,
        0 <= y < h,
        forall|i: int, j: int|
            0 <= i < w && 0 <= j < h ==> #[trigger] px[j * w + i] == turned[i * h + j],
    ensures
        in_focus(px, w, h, x, y) == in_focus(turned, h, w, y, x),
{
    lemma_in_focus(px, w, h, x, y);
    lemma_in_focus(turned, h, w, y, x);
    if 0 < x && x + 1 < w && 0 < y && y + 1 < h {
        lemma_turned(px, turned, w, h, x + 1, y);
        lemma_turned(px, turned, w, h, x - 1, y);
        lemma_turned(px, turned, w, h, x, y + 1);
        lemma_turned(px, turned, w, h, x, y - 1);
    }
}

proof fn lemma_turned(px: Seq<u8>, turned: Seq<u8>, w: usize, h: usize, x: int, y: int)
    requires
        0 <= x < w,
        0 <= y < h,
        forall|i: int, j: int|
            0 <= i < w && 0 <= j < h ==> #[trigger] px[j * w + i] == turned[i * h + j],
    ensures
        smooth_at(px, w as int, h as int, x, y) == smooth_at(turned, h as int, w as int, y, x),
{
    let (a, b, c, d) = (before(x), after(x, w as int), before(y), after(y, h as int));
    assert(px[c * w + a] == turned[a * h + c]);
    assert(px[c * w + x] == turned[x * h + c]);
    assert(px[c * w + b] == turned[b * h + c]);
    assert(px[y * w + a] == turned[a * h + y]);
    assert(px[y * w + x] == turned[x * h + y]);
    assert(px[y * w + b] == turned[b * h + y]);
    assert(px[d * w + a] == turned[a * h + d]);
    assert(px[d * w + x] == turned[x * h + d]);
    assert(px[d * w + b] == turned[b * h + d]);
}

/// Nor does it favour a side: mirroring an image mirrors what is in focus.
pub proof fn peaking_favours_no_side(
    px: Seq<u8>,
    mirrored: Seq<u8>,
    w: usize,
    h: usize,
    x: int,
    y: int,
)
    requires
        0 <= x < w,
        0 <= y < h,
        forall|i: int, j: int|
            0 <= i < w && 0 <= j < h ==> #[trigger] px[j * w + i] == mirrored[j * w + (w - 1 - i)],
    ensures
        in_focus(px, w, h, x, y) == in_focus(mirrored, w, h, w - 1 - x, y),
{
    lemma_in_focus(px, w, h, x, y);
    lemma_in_focus(mirrored, w, h, w - 1 - x, y);
    if 0 < x && x + 1 < w && 0 < y && y + 1 < h {
        lemma_mirrored(px, mirrored, w, h, x + 1, y);
        lemma_mirrored(px, mirrored, w, h, x - 1, y);
        lemma_mirrored(px, mirrored, w, h, x, y + 1);
        lemma_mirrored(px, mirrored, w, h, x, y - 1);
        let (p, q) = (
            smooth_at(px, w as int, h as int, x + 1, y),
            smooth_at(px, w as int, h as int, x - 1, y),
        );
        assert((p - q) * (p - q) == (q - p) * (q - p)) by (nonlinear_arith);
    }
}

proof fn lemma_mirrored(px: Seq<u8>, mirrored: Seq<u8>, w: usize, h: usize, x: int, y: int)
    requires
        0 <= x < w,
        0 <= y < h,
        forall|i: int, j: int|
            0 <= i < w && 0 <= j < h ==> #[trigger] px[j * w + i] == mirrored[j * w + (w - 1 - i)],
    ensures
        smooth_at(px, w as int, h as int, x, y) == smooth_at(
            mirrored,
            w as int,
            h as int,
            w - 1 - x,
            y,
        ),
{
    let (a, b, c, d) = (before(x), after(x, w as int), before(y), after(y, h as int));
    assert(after(w - 1 - x, w as int) == w - 1 - a);
    assert(before(w - 1 - x) == w - 1 - b);
    assert(px[c * w + a] == mirrored[c * w + (w - 1 - a)]);
    assert(px[c * w + x] == mirrored[c * w + (w - 1 - x)]);
    assert(px[c * w + b] == mirrored[c * w + (w - 1 - b)]);
    assert(px[y * w + a] == mirrored[y * w + (w - 1 - a)]);
    assert(px[y * w + x] == mirrored[y * w + (w - 1 - x)]);
    assert(px[y * w + b] == mirrored[y * w + (w - 1 - b)]);
    assert(px[d * w + a] == mirrored[d * w + (w - 1 - a)]);
    assert(px[d * w + x] == mirrored[d * w + (w - 1 - x)]);
    assert(px[d * w + b] == mirrored[d * w + (w - 1 - b)]);
}

/// Only differences count: an image that is brighter by the same amount
/// everywhere has the same pixels in focus.
pub proof fn brightness_does_not_matter(
    px: Seq<u8>,
    brighter: Seq<u8>,
    more: int,
    w: usize,
    h: usize,
    x: int,
    y: int,
)
    requires
        0 <= x < w,
        0 <= y < h,
        forall|i: int, j: int|
            0 <= i < w && 0 <= j < h ==> #[trigger] brighter[j * w + i] == px[j * w + i] + more,
    ensures
        in_focus(px, w, h, x, y) == in_focus(brighter, w, h, x, y),
{
    lemma_in_focus(px, w, h, x, y);
    lemma_in_focus(brighter, w, h, x, y);
    if 0 < x && x + 1 < w && 0 < y && y + 1 < h {
        lemma_brighter(px, brighter, more, w, h, x + 1, y);
        lemma_brighter(px, brighter, more, w, h, x - 1, y);
        lemma_brighter(px, brighter, more, w, h, x, y + 1);
        lemma_brighter(px, brighter, more, w, h, x, y - 1);
    }
}

proof fn lemma_brighter(
    px: Seq<u8>,
    brighter: Seq<u8>,
    more: int,
    w: usize,
    h: usize,
    x: int,
    y: int,
)
    requires
        0 <= x < w,
        0 <= y < h,
        forall|i: int, j: int|
            0 <= i < w && 0 <= j < h ==> #[trigger] brighter[j * w + i] == px[j * w + i] + more,
    ensures
        smooth_at(brighter, w as int, h as int, x, y) == smooth_at(px, w as int, h as int, x, y)
            + more,
{
    let (a, b, c, d) = (before(x), after(x, w as int), before(y), after(y, h as int));
    assert(brighter[c * w + a] == px[c * w + a] + more);
    assert(brighter[c * w + x] == px[c * w + x] + more);
    assert(brighter[c * w + b] == px[c * w + b] + more);
    assert(brighter[y * w + a] == px[y * w + a] + more);
    assert(brighter[y * w + x] == px[y * w + x] + more);
    assert(brighter[y * w + b] == px[y * w + b] + more);
    assert(brighter[d * w + a] == px[d * w + a] + more);
    assert(brighter[d * w + x] == px[d * w + x] + more);
    assert(brighter[d * w + b] == px[d * w + b] + more);
}

/// Whether the pixels up to two away from `(x, y)` are those of `f`, by their
/// distance across and down.
pub open spec fn looks_like(
    px: Seq<u8>,
    w: usize,
    h: usize,
    x: int,
    y: int,
    f: spec_fn(int, int) -> int,
) -> bool {
    &&& 2 <= x && x + 2 < w && 2 <= y && y + 2 < h
    &&& forall|i: int, j: int|
        -2 <= i <= 2 && -2 <= j <= 2 ==> px[(y + j) * w + (x + i)] == #[trigger] f(i, j)
}

/// The mean of the nine values around `(i, j)`.
spec fn mean9(f: spec_fn(int, int) -> int, i: int, j: int) -> int {
    (f(i - 1, j - 1) + f(i, j - 1) + f(i + 1, j - 1) + f(i - 1, j) + f(i, j) + f(i + 1, j) + f(
        i - 1,
        j + 1,
    ) + f(i, j + 1) + f(i + 1, j + 1)) / 9
}

proof fn lemma_looks_like(
    px: Seq<u8>,
    w: usize,
    h: usize,
    x: int,
    y: int,
    f: spec_fn(int, int) -> int,
)
    requires
        looks_like(px, w, h, x, y, f),
    ensures
        ({
            let (dx, dy) = (mean9(f, 1, 0) - mean9(f, -1, 0), mean9(f, 0, 1) - mean9(f, 0, -1));
            &&& in_focus(px, w, h, x, y) == (dx * dx + dy * dy > 256)
            &&& dx == 0 ==> dx * dx == 0
            &&& dy == 0 ==> dy * dy == 0
        }),
{
    lemma_in_focus(px, w, h, x, y);
    lemma_mean(px, w, h, x, y, f, 1, 0);
    lemma_mean(px, w, h, x, y, f, -1, 0);
    lemma_mean(px, w, h, x, y, f, 0, 1);
    lemma_mean(px, w, h, x, y, f, 0, -1);
}

proof fn lemma_mean(
    px: Seq<u8>,
    w: usize,
    h: usize,
    x: int,
    y: int,
    f: spec_fn(int, int) -> int,
    i: int,
    j: int,
)
    requires
        looks_like(px, w, h, x, y, f),
        -1 <= i <= 1,
        -1 <= j <= 1,
    ensures
        smooth_at(px, w as int, h as int, x + i, y + j) == mean9(f, i, j),
{
    assert(px[(y + (j - 1)) * w + (x + (i - 1))] == f(i - 1, j - 1));
    assert(px[(y + (j - 1)) * w + (x + i)] == f(i, j - 1));
    assert(px[(y + (j - 1)) * w + (x + (i + 1))] == f(i + 1, j - 1));
    assert(px[(y + j) * w + (x + (i - 1))] == f(i - 1, j));
    assert(px[(y + j) * w + (x + i)] == f(i, j));
    assert(px[(y + j) * w + (x + (i + 1))] == f(i + 1, j));
    assert(px[(y + (j + 1)) * w + (x + (i - 1))] == f(i - 1, j + 1));
    assert(px[(y + (j + 1)) * w + (x + i)] == f(i, j + 1));
    assert(px[(y + (j + 1)) * w + (x + (i + 1))] == f(i + 1, j + 1));
}

/// On an even slope of `a` levels per pixel across and `b` down, a pixel is in
/// focus exactly where the slope is steeper than 8 levels per pixel, in
/// whichever direction it runs.
pub proof fn steep_slopes_are_in_focus(
    px: Seq<u8>,
    w: usize,
    h: usize,
    x: int,
    y: int,
    c: int,
    a: int,
    b: int,
)
    requires
        looks_like(px, w, h, x, y, |i: int, j: int| c + a * i + b * j),
    ensures
        in_focus(px, w, h, x, y) == (a * a + b * b > 8 * 8),
{
    let f = |i: int, j: int| c + a * i + b * j;
    lemma_looks_like(px, w, h, x, y, f);
    assert(f(2, 0) == c + a * 2 + b * 0);
    assert(mean9(f, 1, 0) == c + a) by {
        lemma_slope(c, a, b, 1, 0);
    }
    assert(mean9(f, -1, 0) == c - a) by {
        lemma_slope(c, a, b, -1, 0);
    }
    assert(mean9(f, 0, 1) == c + b) by {
        lemma_slope(c, a, b, 0, 1);
    }
    assert(mean9(f, 0, -1) == c - b) by {
        lemma_slope(c, a, b, 0, -1);
    }
    assert((2 * a) * (2 * a) + (2 * b) * (2 * b) == 4 * (a * a + b * b)) by (nonlinear_arith);
}

proof fn lemma_slope(c: int, a: int, b: int, i: int, j: int)
    requires
        -1 <= i <= 1,
        -1 <= j <= 1,
    ensures
        mean9(|i: int, j: int| c + a * i + b * j, i, j) == c + a * i + b * j,
{
    assert(a * (i - 1) == a * i - a && a * (i + 1) == a * i + a) by (nonlinear_arith);
    assert(b * (j - 1) == b * j - b && b * (j + 1) == b * j + b) by (nonlinear_arith);
}

/// A pixel beside a step is in focus exactly where the step rises by 26 levels
/// or more or falls by 25 or more (means are rounded down), whether it runs
/// down the image or across.
pub proof fn sharp_steps_are_in_focus(
    px: Seq<u8>,
    w: usize,
    h: usize,
    x: int,
    y: int,
    c: int,
    d: int,
)
    requires
        looks_like(
            px,
            w,
            h,
            x,
            y,
            |i: int, j: int|
                if i > 0 {
                    c + d
                } else {
                    c
                },
        ) || looks_like(
            px,
            w,
            h,
            x,
            y,
            |i: int, j: int|
                if j > 0 {
                    c + d
                } else {
                    c
                },
        ),
    ensures
        in_focus(px, w, h, x, y) == (d >= 26 || d <= -25),
{
    let f = |i: int, j: int|
        if i > 0 {
            c + d
        } else {
            c
        };
    let g = |i: int, j: int|
        if j > 0 {
            c + d
        } else {
            c
        };
    let e = (9 * c + 6 * d) / 9 - c;
    assert((9 * c) / 9 == c);
    assert((e * e > 256) == (e > 16 || e < -16)) by (nonlinear_arith);
    if looks_like(px, w, h, x, y, f) {
        lemma_looks_like(px, w, h, x, y, f);
        assert(mean9(f, 1, 0) - mean9(f, -1, 0) == e);
        assert(mean9(f, 0, 1) - mean9(f, 0, -1) == 0);
    } else {
        lemma_looks_like(px, w, h, x, y, g);
        assert(mean9(g, 1, 0) - mean9(g, -1, 0) == 0);
        assert(mean9(g, 0, 1) - mean9(g, 0, -1) == e);
    }
}

/// A lone pixel on even ground does not put the one beside it in focus unless
/// it is 153 levels brighter: each pixel is averaged with its eight
/// neighbours.
pub proof fn specks_are_smoothed_away(
    px: Seq<u8>,
    w: usize,
    h: usize,
    x: int,
    y: int,
    c: int,
    d: int,
)
    requires
        0 <= d,
        looks_like(
            px,
            w,
            h,
            x,
            y,
            |i: int, j: int|
                if i == 1 && j == 0 {
                    c + d
                } else {
                    c
                },
        ),
    ensures
        in_focus(px, w, h, x, y) == (d >= 153),
{
    let f = |i: int, j: int|
        if i == 1 && j == 0 {
            c + d
        } else {
            c
        };
    lemma_looks_like(px, w, h, x, y, f);
    let e = (9 * c + d) / 9 - c;
    assert((9 * c) / 9 == c);
    assert(mean9(f, 1, 0) - mean9(f, -1, 0) == e);
    assert(mean9(f, 0, 1) - mean9(f, 0, -1) == 0);
    assert((e * e > 256) == (e > 16)) by (nonlinear_arith)
        requires
            e >= 0,
    ;
}

/// Nothing further away than two pixels counts.
pub proof fn focus_is_local(
    px: Seq<u8>,
    other: Seq<u8>,
    w: usize,
    h: usize,
    x: int,
    y: int,
)
    requires
        0 <= x < w,
        0 <= y < h,
        forall|i: int, j: int|
            0 <= i < w && 0 <= j < h && x - 2 <= i <= x + 2 && y - 2 <= j <= y + 2
                ==> #[trigger] px[j * w + i] == other[j * w + i],
    ensures
        in_focus(px, w, h, x, y) == in_focus(other, w, h, x, y),
{
    lemma_in_focus(px, w, h, x, y);
    lemma_in_focus(other, w, h, x, y);
    if 0 < x && x + 1 < w && 0 < y && y + 1 < h {
        lemma_local(px, other, w, h, x, y, x + 1, y);
        lemma_local(px, other, w, h, x, y, x - 1, y);
        lemma_local(px, other, w, h, x, y, x, y + 1);
        lemma_local(px, other, w, h, x, y, x, y - 1);
    }
}

proof fn lemma_local(
    px: Seq<u8>,
    other: Seq<u8>,
    w: usize,
    h: usize,
    x: int,
    y: int,
    s: int,
    t: int,
)
    requires
        0 <= s < w,
        0 <= t < h,
        x - 1 <= s <= x + 1,
        y - 1 <= t <= y + 1,
        forall|i: int, j: int|
            0 <= i < w && 0 <= j < h && x - 2 <= i <= x + 2 && y - 2 <= j <= y + 2
                ==> #[trigger] px[j * w + i] == other[j * w + i],
    ensures
        smooth_at(px, w as int, h as int, s, t) == smooth_at(other, w as int, h as int, s, t),
{
    let (a, b, c, d) = (before(s), after(s, w as int), before(t), after(t, h as int));
    assert(px[c * w + a] == other[c * w + a]);
    assert(px[c * w + s] == other[c * w + s]);
    assert(px[c * w + b] == other[c * w + b]);
    assert(px[t * w + a] == other[t * w + a]);
    assert(px[t * w + s] == other[t * w + s]);
    assert(px[t * w + b] == other[t * w + b]);
    assert(px[d * w + a] == other[d * w + a]);
    assert(px[d * w + s] == other[d * w + s]);
    assert(px[d * w + b] == other[d * w + b]);
}

/// What is counted is how many are true.
pub proof fn counting_counts_each_once(s: Seq<bool>)
    ensures
        count_true(s) == Set::new(|i: int| 0 <= i < s.len() && s[i]).len(),
        Set::new(|i: int| 0 <= i < s.len() && s[i]).finite(),
    decreases s.len(),
{
    let all = Set::new(|i: int| 0 <= i < s.len() && s[i]);
    if s.len() > 0 {
        let init = s.drop_last();
        let rest = Set::new(|i: int| 0 <= i < init.len() && init[i]);
        counting_counts_each_once(init);
        let n = s.len() - 1;
        if s.last() {
            assert(all =~= rest.insert(n));
        } else {
            assert(all =~= rest);
        }
    } else {
        assert(all =~= Set::empty());
    }
}

/// A rectangle that starts inside an image is cut off at it: what is left are
/// its pixels that lie in the image.
pub proof fn cut_off_is_what_lies_inside(w: usize, h: usize, r: Rect, x: int, y: int)
    requires
        r.x < w,
        r.y < h,
    ensures
        ({
            let c = clamped(w as int, h as int, r);
            (c.x <= x < c.x + c.w && c.y <= y < c.y + c.h) <==> (r.x <= x < r.x + r.w && r.y <= y < r.y
                + r.h && x < w && y < h)
        }),
{
}

} // verus!
