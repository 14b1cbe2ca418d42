//! Sharpness statistics: contrast and Laplacian energy at the working
//! resolution (~1620-2048 px). The score is the mean squared Laplacian
//! divided by the luma variance, so exposure flicker within a burst does not
//! move it; scores are comparable across frames of a burst, absolute values
//! only relative to each other. The sums that score is made of are whole
//! numbers and computed here.

use vstd::prelude::*;
use vstd::arithmetic::mul::*;
use crate::decode::Luma;

verus! {

/// Bumped whenever the formula changes so cached scores from an older
/// formula are never mixed with new ones (folded into `cache::file_key`).
pub const SCORE_VERSION: u32 = 2;

/// Tiles across and down for the global score.
pub const TILES_X: usize = 9;
pub const TILES_Y: usize = 6;

/// A rectangle of pixels.
#[derive(Debug, Clone, Copy, PartialEq, Eq, Structural)]
pub struct Rect {
    pub x: usize,
    pub y: usize,
    pub w: usize,
    pub h: usize,
}

/// Sums over the interior of a region: squared Laplacian, luma, squared
/// luma, and how many pixels.
#[derive(Debug, Clone, Copy, PartialEq, Eq, Structural)]
pub struct Stats {
    pub energy: u128,
    pub sum: u128,
    pub sum2: u128,
    pub n: u128,
}

/// Sum of `f` over `x0 <= x < x1` in row `y`.
pub open spec fn row_sum(f: spec_fn(int, int) -> int, x0: int, x1: int, y: int) -> int
    decreases x1 - x0,
{
    if x1 <= x0 {
        0
    } else {
        row_sum(f, x0, x1 - 1, y) + f(x1 - 1, y)
    }
}

/// Sum of `f` over `x0 <= x < x1`, `y0 <= y < y1`.
pub open spec fn area_sum(
    f: spec_fn(int, int) -> int,
    x0: int,
    x1: int,
    y0: int,
    y1: int,
) -> int
    decreases y1 - y0,
{
    if y1 <= y0 {
        0
    } else {
        area_sum(f, x0, x1, y0, y1 - 1) + row_sum(f, x0, x1, y1 - 1)
    }
}

/// Luma of the pixel `(x, y)`.
pub open spec fn at(px: Seq<u8>, stride: int, x: int, y: int) -> int {
    px[y * stride + x] as int
}

/// 5-point Laplacian at `(x, y)`.
pub open spec fn laplacian(px: Seq<u8>, stride: int, x: int, y: int) -> int {
    at(px, stride, x - 1, y) + at(px, stride, x + 1, y) + at(px, stride, x, y - 1) + at(
        px,
        stride,
        x,
        y + 1,
    ) - 4 * at(px, stride, x, y)
}

/// The sums over the interior of `r`, that is `r` without its outermost
/// pixels; all 0 where `r` is less than 8 pixels wide or high.
pub open spec fn is_stats(px: Seq<u8>, stride: int, r: Rect, s: Stats) -> bool {
    if r.w < 8 || r.h < 8 {
        s == (Stats { energy: 0, sum: 0, sum2: 0, n: 0 })
    } else {
        let (x0, x1, y0, y1) = (r.x + 1, r.x + r.w - 1, r.y + 1, r.y + r.h - 1);
        &&& s.energy == area_sum(
            |x: int, y: int| laplacian(px, stride, x, y) * laplacian(px, stride, x, y),
            x0,
            x1,
            y0,
            y1,
        )
        &&& s.sum == area_sum(|x: int, y: int| at(px, stride, x, y), x0, x1, y0, y1)
        &&& s.sum2 == area_sum(
            |x: int, y: int| at(px, stride, x, y) * at(px, stride, x, y),
            x0,
            x1,
            y0,
            y1,
        )
        &&& s.n == (r.w - 2) * (r.h - 2)
    }
}

/// Whether `r` lies inside a buffer of `stride` pixels per row.
pub open spec fn inside(len: int, stride: int, r: Rect) -> bool {
    r.x + r.w <= stride && (r.y + r.h) * stride <= len
}

/// The pixel `(x, y)` lies inside the buffer.
proof fn lemma_at(len: int, stride: int, x: int, y: int, rows: int)
    requires
        0 <= x < stride,
        0 <= y < rows,
        rows * stride <= len,
    ensures
        0 <= y * stride,
        0 <= y * stride + x < len,
        (y + 1) * stride == y * stride + stride,
        (y - 1) * stride == y * stride - stride,
{
    assert(y * stride + stride <= rows * stride) by (nonlinear_arith)
        requires
            y + 1 <= rows,
            stride > 0,
    ;
    assert(0 <= y * stride) by (nonlinear_arith)
        requires
            y >= 0,
            stride > 0,
    ;
    assert((y + 1) * stride == y * stride + stride) by (nonlinear_arith);
    assert((y - 1) * stride == y * stride - stride) by (nonlinear_arith);
}

/// Adds up the interior of one row.
fn row_stats(px: &Vec<u8>, stride: usize, r: Rect, y: usize, s: Stats) -> (t: Stats)
    requires
        inside(px@.len() as int, stride as int, r),
        r.w >= 8,
        r.h >= 8,
        r.y < y < r.y + r.h - 1,
        s.n <= 0xffff_ffff_ffff_ffff,
        s.energy <= 1_040_400 * s.n,
        s.sum <= 255 * s.n,
        s.sum2 <= 65_025 * s.n,
    ensures
        ({
            let (p, d, x0, x1) = (px@, stride as int, r.x + 1, r.x + r.w - 1);
            &&& t.energy == s.energy + row_sum(
                |x: int, y: int| laplacian(p, d, x, y) * laplacian(p, d, x, y),
                x0,
                x1,
                y as int,
            )
            &&& t.sum == s.sum + row_sum(|x: int, y: int| at(p, d, x, y), x0, x1, y as int)
            &&& t.sum2 == s.sum2 + row_sum(
                |x: int, y: int| at(p, d, x, y) * at(p, d, x, y),
                x0,
                x1,
                y as int,
            )
            &&& t.n == s.n + (r.w - 2)
        }),
        t.energy <= 1_040_400 * t.n,
        t.sum <= 255 * t.n,
        t.sum2 <= 65_025 * t.n,
{
    let ghost p = px@;
    let ghost d = stride as int;
    let ghost fe = |x: int, y: int| laplacian(p, d, x, y) * laplacian(p, d, x, y);
    let ghost fs = |x: int, y: int| at(p, d, x, y);
    let ghost fq = |x: int, y: int| at(p, d, x, y) * at(p, d, x, y);
    let total: usize = px.len();
    let mut t = s;
    let x0: usize = r.x + 1;
    let x1: usize = r.x + (r.w - 1);
    let mut x: usize = x0;
    while x < x1
        invariant
            inside(px@.len() as int, stride as int, r),
            p == px@,
            d == stride,
            total == px@.len(),
            r.w >= 8,
            r.h >= 8,
            r.y < y < r.y + r.h - 1,
            x0 == r.x + 1,
            x1 == r.x + r.w - 1,
            x0 <= x <= x1,
            fe == (|x: int, y: int| laplacian(p, d, x, y) * laplacian(p, d, x, y)),
            fs == (|x: int, y: int| at(p, d, x, y)),
            fq == (|x: int, y: int| at(p, d, x, y) * at(p, d, x, y)),
            s.n <= 0xffff_ffff_ffff_ffff,
            t.energy <= 1_040_400 * t.n,
            t.sum <= 255 * t.n,
            t.sum2 <= 65_025 * t.n,
            t.n == s.n + (x - x0),
            t.energy == s.energy + row_sum(fe, x0 as int, x as int, y as int),
            t.sum == s.sum + row_sum(fs, x0 as int, x as int, y as int),
            t.sum2 == s.sum2 + row_sum(fq, x0 as int, x as int, y as int),
        decreases x1 - x,
    {
        proof {
            lemma_at(total as int, d, x as int, y as int, r.y + r.h);
            lemma_at(total as int, d, x - 1, y as int, r.y + r.h);
            lemma_at(total as int, d, x + 1, y as int, r.y + r.h);
            lemma_at(total as int, d, x as int, y - 1, r.y + r.h);
            lemma_at(total as int, d, x as int, y + 1, r.y + r.h);
        }
        let i: usize = y * stride + x;
        let v: i32 = px[i] as i32;
        let lap: i32 = px[i - 1] as i32 + px[i + 1] as i32 + px[i - stride] as i32 + px[i
            + stride] as i32 - 4 * v;
        assert(lap == laplacian(p, d, x as int, y as int));
        assert(0 <= lap * lap <= 1_040_400) by (nonlinear_arith)
            requires
                -1020 <= lap <= 1020,
        ;
        assert(0 <= v * v <= 65_025) by (nonlinear_arith)
            requires
                0 <= v <= 255,
        ;
        t = Stats {
            energy: t.energy + (lap * lap) as u128,
            sum: t.sum + v as u128,
            sum2: t.sum2 + (v * v) as u128,
            n: t.n + 1,
        };
        assert(row_sum(fe, x0 as int, x + 1, y as int) == row_sum(fe, x0 as int, x as int, y as int)
            + fe(x as int, y as int));
        assert(row_sum(fs, x0 as int, x + 1, y as int) == row_sum(fs, x0 as int, x as int, y as int)
            + fs(x as int, y as int));
        assert(row_sum(fq, x0 as int, x + 1, y as int) == row_sum(fq, x0 as int, x as int, y as int)
            + fq(x as int, y as int));
        x += 1;
    }
    t
}

/// The sums that the sharpness of a region is made of.
pub fn laplacian_stats(px: &Vec<u8>, stride: usize, r: Rect) -> (s: Stats)
    requires
        inside(px@.len() as int, stride as int, r),
    ensures
        is_stats(px@, stride as int, r, s),
{
    let mut s = Stats { energy: 0, sum: 0, sum2: 0, n: 0 };
    if r.w < 8 || r.h < 8 {
        return s;
    }
    let total: usize = px.len();
    let ghost p = px@;
    let ghost d = stride as int;
    let ghost fe = |x: int, y: int| laplacian(p, d, x, y) * laplacian(p, d, x, y);
    let ghost fs = |x: int, y: int| at(p, d, x, y);
    let ghost fq = |x: int, y: int| at(p, d, x, y) * at(p, d, x, y);
    let ghost (x0, x1) = (r.x + 1, r.x + r.w - 1);
    proof {
        assert(r.h * r.w <= (r.y + r.h) * d) by (nonlinear_arith)
            requires
                r.w <= d,
                r.y >= 0,
                r.h >= 0,
        ;
        assert(r.y + r.h <= (r.y + r.h) * d) by (nonlinear_arith)
            requires
                d >= 1,
                r.y + r.h >= 0,
        ;
    }
    let y0: usize = r.y + 1;
    let y1: usize = r.y + (r.h - 1);
    let mut y: usize = y0;
    while y < y1
        invariant
            inside(px@.len() as int, stride as int, r),
            p == px@,
            d == stride,
            total == px@.len(),
            r.h * r.w <= total,
            r.w >= 8,
            r.h >= 8,
            x0 == r.x + 1,
            x1 == r.x + r.w - 1,
            y0 == r.y + 1,
            y1 == r.y + r.h - 1,
            y0 <= y <= y1,
            fe == (|x: int, y: int| laplacian(p, d, x, y) * laplacian(p, d, x, y)),
            fs == (|x: int, y: int| at(p, d, x, y)),
            fq == (|x: int, y: int| at(p, d, x, y) * at(p, d, x, y)),
            s.n == (r.w - 2) * (y - y0),
            s.energy <= 1_040_400 * s.n,
            s.sum <= 255 * s.n,
            s.sum2 <= 65_025 * s.n,
            s.energy == area_sum(fe, x0, x1, y0 as int, y as int),
            s.sum == area_sum(fs, x0, x1, y0 as int, y as int),
            s.sum2 == area_sum(fq, x0, x1, y0 as int, y as int),
        decreases y1 - y,
    {
        assert(s.n <= total) by (nonlinear_arith)
            requires
                s.n == (r.w - 2) * (y - y0),
                y - y0 <= r.h,
                y - y0 >= 0,
                r.w >= 2,
                r.h * r.w <= total,
        ;
        assert((r.w - 2) * (y + 1 - y0) == (r.w - 2) * (y - y0) + (r.w - 2)) by (nonlinear_arith);
        s = row_stats(px, stride, r, y, s);
        assert(area_sum(fe, x0, x1, y0 as int, y + 1) == area_sum(fe, x0, x1, y0 as int, y as int)
            + row_sum(fe, x0, x1, y as int));
        assert(area_sum(fs, x0, x1, y0 as int, y + 1) == area_sum(fs, x0, x1, y0 as int, y as int)
            + row_sum(fs, x0, x1, y as int));
        assert(area_sum(fq, x0, x1, y0 as int, y + 1) == area_sum(fq, x0, x1, y0 as int, y as int)
            + row_sum(fq, x0, x1, y as int));
        y += 1;
    }
    s
}

/// A rectangle cut off at a `w` by `h` image; one that starts outside is
/// empty.
pub open spec fn cut_rect(w: int, h: int, r: Rect) -> Rect {
    Rect {
        x: (if r.x < w {
            r.x as int
        } else if w > 0 {
            w - 1
        } else {
            0
        }) as usize,
        y: (if r.y < h {
            r.y as int
        } else if h > 0 {
            h - 1
        } else {
            0
        }) as usize,
        w: (if r.x + r.w <= w {
            r.w as int
        } else if r.x < w {
            w - r.x
        } else {
            0
        }) as usize,
        h: (if r.y + r.h <= h {
            r.h as int
        } else if r.y < h {
            h - r.y
        } else {
            0
        }) as usize,
    }
}

/// The sums that the sharpness of a region is made of; the region is cut off
/// at the image.
pub fn score_region(luma: &Luma, r: Rect) -> (s: Stats)
    requires
        luma.wf(),
    ensures
        is_stats(
            luma.pixels@,
            luma.width as int,
            cut_rect(luma.width as int, luma.height as int, r),
            s,
        ),
{
    let (width, height): (usize, usize) = (luma.width, luma.height);
    let full = Rect {
        x: if r.x < width {
            r.x
        } else if width > 0 {
            width - 1
        } else {
            0
        },
        y: if r.y < height {
            r.y
        } else if height > 0 {
            height - 1
        } else {
            0
        },
        w: if r.x < width {
            if r.w <= width - r.x {
                r.w
            } else {
                width - r.x
            }
        } else {
            0
        },
        h: if r.y < height {
            if r.h <= height - r.y {
                r.h
            } else {
                height - r.y
            }
        } else {
            0
        },
    };
    proof {
        assert((full.y + full.h) * width <= luma.pixels@.len()) by (nonlinear_arith)
            requires
                luma.pixels@.len() == width * height,
                full.y + full.h <= height,
                width >= 0,
        ;
    }
    laplacian_stats(&luma.pixels, width, full)
}

/// The rectangle of tile `(tx, ty)`.
pub open spec fn tile_rect(w: int, h: int, tx: int, ty: int) -> Rect {
    Rect {
        x: (tx * (w / TILES_X as int)) as usize,
        y: (ty * (h / TILES_Y as int)) as usize,
        w: (w / TILES_X as int) as usize,
        h: (h / TILES_Y as int) as usize,
    }
}

/// What the global sharpness is made of.
pub enum GlobalStats {
    /// The image is too small to be divided: the sums over all of it.
    Whole(Stats),
    /// The sums over each tile, row by row.
    Tiles(Vec<Stats>),
}

/// Whether an image is large enough to be divided into tiles.
pub open spec fn divides(w: int, h: int) -> bool {
    w / TILES_X as int >= 16 && h / TILES_Y as int >= 16
}

/// Global sharpness: the maximum over a coarse tile grid, weighted toward the
/// centre and gated by tile contrast, which beats the whole-frame average
/// (that rewards busy backgrounds); the winner tile is usually the subject.
/// Gives the sums over each tile.
pub fn score_global(luma: &Luma) -> (g: GlobalStats)
    requires
        luma.wf(),
    ensures
        match g {
            GlobalStats::Whole(s) => {
                &&& !divides(luma.width as int, luma.height as int)
                &&& is_stats(
                    luma.pixels@,
                    luma.width as int,
                    (Rect { x: 0, y: 0, w: luma.width, h: luma.height }),
                    s,
                )
            },
            GlobalStats::Tiles(ts) => {
                &&& divides(luma.width as int, luma.height as int)
                &&& ts@.len() == TILES_X * TILES_Y
                &&& forall|tx: int, ty: int|
                    0 <= tx < TILES_X && 0 <= ty < TILES_Y ==> is_stats(
                        luma.pixels@,
                        luma.width as int,
                        #[trigger] tile_rect(luma.width as int, luma.height as int, tx, ty),
                        ts@[ty * TILES_X + tx],
                    )
            },
        },
{
    let tw: usize = luma.width / TILES_X;
    let th: usize = luma.height / TILES_Y;
    if tw < 16 || th < 16 {
        return GlobalStats::Whole(
            score_region(luma, Rect { x: 0, y: 0, w: luma.width, h: luma.height }),
        );
    }
    let ghost (w, h) = (luma.width as int, luma.height as int);
    let mut out: Vec<Stats> = Vec::new();
    let mut ty: usize = 0;
    while ty < TILES_Y
        invariant
            luma.wf(),
            (w, h) == (luma.width as int, luma.height as int),
            divides(w, h),
            tw == w / 9,
            th == h / 6,
            ty <= TILES_Y,
            out@.len() == ty * TILES_X,
            forall|tx: int, sy: int|
                0 <= tx < TILES_X && 0 <= sy < ty ==> is_stats(
                    luma.pixels@,
                    w,
                    #[trigger] tile_rect(w, h, tx, sy),
                    out@[sy * TILES_X + tx],
                ),
        decreases TILES_Y - ty,
    {
        let mut tx: usize = 0;
        while tx < TILES_X
            invariant
                luma.wf(),
                (w, h) == (luma.width as int, luma.height as int),
                divides(w, h),
                tw == w / 9,
                th == h / 6,
                ty < TILES_Y,
                tx <= TILES_X,
                out@.len() == ty * TILES_X + tx,
                forall|sx: int, sy: int|
                    0 <= sx < TILES_X && 0 <= sy && (sy < ty || (sy == ty && sx < tx))
                        ==> is_stats(
                        luma.pixels@,
                        w,
                        #[trigger] tile_rect(w, h, sx, sy),
                        out@[sy * TILES_X + sx],
                    ),
            decreases TILES_X - tx,
        {
            proof {
                assert(tx * tw + tw <= 9 * tw) by (nonlinear_arith)
                    requires
                        tx + 1 <= 9,
                        tw >= 0,
                ;
                assert(ty * th + th <= 6 * th) by (nonlinear_arith)
                    requires
                        ty + 1 <= 6,
                        th >= 0,
                ;
                assert((ty * th + th) * w <= luma.pixels@.len()) by (nonlinear_arith)
                    requires
                        luma.pixels@.len() == w * h,
                        ty * th + th <= h,
                        w >= 0,
                ;
            }
            let r = Rect { x: tx * tw, y: ty * th, w: tw, h: th };
            assert(r == tile_rect(w, h, tx as int, ty as int));
            let ghost before = out@;
            out.push(laplacian_stats(&luma.pixels, luma.width, r));
            tx += 1;
        }
        ty += 1;
    }
    GlobalStats::Tiles(out)
}

proof fn lemma_row_scales(
    f: spec_fn(int, int) -> int,
    g: spec_fn(int, int) -> int,
    c: int,
    x0: int,
    x1: int,
    y: int,
)
    requires
        forall|x: int| x0 <= x < x1 ==> #[trigger] g(x, y) == c * f(x, y),
    ensures
        row_sum(g, x0, x1, y) == c * row_sum(f, x0, x1, y),
    decreases x1 - x0,
{
    if x0 < x1 {
        lemma_row_scales(f, g, c, x0, x1 - 1, y);
        assert(g(x1 - 1, y) == c * f(x1 - 1, y));
        lemma_mul_is_distributive_add(c, row_sum(f, x0, x1 - 1, y), f(x1 - 1, y));
    } else {
        lemma_mul_basics(c);
    }
}

proof fn lemma_area_scales(
    f: spec_fn(int, int) -> int,
    g: spec_fn(int, int) -> int,
    c: int,
    x0: int,
    x1: int,
    y0: int,
    y1: int,
)
    requires
        forall|x: int, y: int|
            x0 <= x < x1 && y0 <= y < y1 ==> #[trigger] g(x, y) == c * f(x, y),
    ensures
        area_sum(g, x0, x1, y0, y1) == c * area_sum(f, x0, x1, y0, y1),
    decreases y1 - y0,
{
    if y0 < y1 {
        lemma_area_scales(f, g, c, x0, x1, y0, y1 - 1);
        lemma_row_scales(f, g, c, x0, x1, y1 - 1);
        lemma_mul_is_distributive_add(
            c,
            area_sum(f, x0, x1, y0, y1 - 1),
            row_sum(f, x0, x1, y1 - 1),
        );
    } else {
        lemma_mul_basics(c);
    }
}

/// Exposure does not move the score: where one image is another times `k`,
/// Laplacian energy and luma variance of any region scale alike, so that
/// their ratio stays.
pub proof fn exposure_scales_out(
    dim: Seq<u8>,
    bright: Seq<u8>,
    k: int,
    stride: int,
    r: Rect,
    a: Stats,
    b: Stats,
)
    requires
        dim.len() == bright.len(),
        forall|i: int| #![trigger bright[i]] 0 <= i < dim.len() ==> bright[i] == k * dim[i],
        inside(dim.len() as int, stride, r),
        is_stats(dim, stride, r, a),
        is_stats(bright, stride, r, b),
    ensures
        b.n == a.n,
        b.energy == k * k * a.energy,
        b.sum == k * a.sum,
        b.sum2 == k * k * a.sum2,
        b.energy * (a.n * a.sum2 - a.sum * a.sum) == a.energy * (b.n * b.sum2 - b.sum * b.sum),
{
    if r.w >= 8 && r.h >= 8 {
        let (x0, x1, y0, y1) = (r.x + 1, r.x + r.w - 1, r.y + 1, r.y + r.h - 1);
        let fe = |x: int, y: int| laplacian(dim, stride, x, y) * laplacian(dim, stride, x, y);
        let ge = |x: int, y: int|
            laplacian(bright, stride, x, y) * laplacian(bright, stride, x, y);
        let fs = |x: int, y: int| at(dim, stride, x, y);
        let gs = |x: int, y: int| at(bright, stride, x, y);
        let fq = |x: int, y: int| at(dim, stride, x, y) * at(dim, stride, x, y);
        let gq = |x: int, y: int| at(bright, stride, x, y) * at(bright, stride, x, y);
        assert forall|x: int, y: int| x0 <= x < x1 && y0 <= y < y1 implies #[trigger] gs(x, y) == k
            * fs(x, y) && ge(x, y) == k * k * fe(x, y) && gq(x, y) == k * k * fq(x, y) by {
            let rows = r.y + r.h;
            let len = dim.len() as int;
            lemma_at(len, stride, x, y, rows);
            lemma_at(len, stride, x - 1, y, rows);
            lemma_at(len, stride, x + 1, y, rows);
            lemma_at(len, stride, x, y - 1, rows);
            lemma_at(len, stride, x, y + 1, rows);
            let (l, t, u, d, c) = (
                at(dim, stride, x - 1, y),
                at(dim, stride, x + 1, y),
                at(dim, stride, x, y - 1),
                at(dim, stride, x, y + 1),
                at(dim, stride, x, y),
            );
            let p = laplacian(dim, stride, x, y);
            assert(laplacian(bright, stride, x, y) == k * p) by (nonlinear_arith)
                requires
                    p == l + t + u + d - 4 * c,
                    laplacian(bright, stride, x, y) == k * l + k * t + k * u + k * d - 4 * (k * c),
            ;
            assert((k * p) * (k * p) == k * k * (p * p)) by (nonlinear_arith);
            assert((k * c) * (k * c) == k * k * (c * c)) by (nonlinear_arith);
        }
        assert forall|x: int, y: int| x0 <= x < x1 && y0 <= y < y1 implies #[trigger] ge(x, y) == (k
            * k) * fe(x, y) by {
            assert(gs(x, y) == k * fs(x, y));
        }
        assert forall|x: int, y: int| x0 <= x < x1 && y0 <= y < y1 implies #[trigger] gq(x, y) == (k
            * k) * fq(x, y) by {
            assert(gs(x, y) == k * fs(x, y));
        }
        lemma_area_scales(fe, ge, k * k, x0, x1, y0, y1);
        lemma_area_scales(fs, gs, k, x0, x1, y0, y1);
        lemma_area_scales(fq, gq, k * k, x0, x1, y0, y1);
    } else {
        assert(k * k * 0 == 0 && k * 0 == 0) by (nonlinear_arith);
    }
    let (e, s, q, n) = (a.energy as int, a.sum as int, a.sum2 as int, a.n as int);
    let kk = k * k;
    assert((kk * e) * (n * q - s * s) == e * (n * (kk * q) - (k * s) * (k * s))) by (nonlinear_arith)
        requires
            kk == k * k,
    ;
}

proof fn lemma_row_even(f: spec_fn(int, int) -> int, c: int, x0: int, x1: int, y: int)
    requires
        x0 <= x1,
        forall|x: int| x0 <= x < x1 ==> #[trigger] f(x, y) == c,
    ensures
        row_sum(f, x0, x1, y) == (x1 - x0) * c,
    decreases x1 - x0,
{
    if x0 < x1 {
        lemma_row_even(f, c, x0, x1 - 1, y);
        assert((x1 - 1 - x0) * c + c == (x1 - x0) * c) by (nonlinear_arith);
    } else {
        lemma_mul_basics(c);
    }
}

pub proof fn lemma_area_even(
    f: spec_fn(int, int) -> int,
    c: int,
    x0: int,
    x1: int,
    y0: int,
    y1: int,
)
    requires
        x0 <= x1,
        y0 <= y1,
        forall|x: int, y: int| x0 <= x < x1 && y0 <= y < y1 ==> #[trigger] f(x, y) == c,
    ensures
        area_sum(f, x0, x1, y0, y1) == (x1 - x0) * (y1 - y0) * c,
    decreases y1 - y0,
{
    if y0 < y1 {
        lemma_area_even(f, c, x0, x1, y0, y1 - 1);
        lemma_row_even(f, c, x0, x1, y1 - 1);
        let (w, h) = (x1 - x0, y1 - y0);
        assert(w * (h - 1) * c + w * c == w * h * c) by (nonlinear_arith);
    } else {
        assert((x1 - x0) * 0 * c == 0) by (nonlinear_arith);
    }
}

proof fn lemma_row_same(
    f: spec_fn(int, int) -> int,
    g: spec_fn(int, int) -> int,
    x0: int,
    x1: int,
    y: int,
)
    requires
        forall|x: int| x0 <= x < x1 ==> #[trigger] g(x, y) == f(x, y),
    ensures
        row_sum(g, x0, x1, y) == row_sum(f, x0, x1, y),
    decreases x1 - x0,
{
    if x0 < x1 {
        lemma_row_same(f, g, x0, x1 - 1, y);
        assert(g(x1 - 1, y) == f(x1 - 1, y));
    }
}

proof fn lemma_area_same(
    f: spec_fn(int, int) -> int,
    g: spec_fn(int, int) -> int,
    x0: int,
    x1: int,
    y0: int,
    y1: int,
)
    requires
        forall|x: int, y: int| x0 <= x < x1 && y0 <= y < y1 ==> #[trigger] g(x, y) == f(x, y),
    ensures
        area_sum(g, x0, x1, y0, y1) == area_sum(f, x0, x1, y0, y1),
    decreases y1 - y0,
{
    if y0 < y1 {
        lemma_area_same(f, g, x0, x1, y0, y1 - 1);
        lemma_row_same(f, g, x0, x1, y1 - 1);
    }
}

/// The last column of an area, summed from the top.
spec fn column_sum(f: spec_fn(int, int) -> int, x: int, y0: int, y1: int) -> int
    decreases y1 - y0,
{
    if y1 <= y0 {
        0
    } else {
        column_sum(f, x, y0, y1 - 1) + f(x, y1 - 1)
    }
}

proof fn lemma_last_column(
    f: spec_fn(int, int) -> int,
    x0: int,
    x1: int,
    y0: int,
    y1: int,
)
    requires
        x0 < x1,
    ensures
        area_sum(f, x0, x1, y0, y1) == area_sum(f, x0, x1 - 1, y0, y1) + column_sum(
            f,
            x1 - 1,
            y0,
            y1,
        ),
    decreases y1 - y0,
{
    if y0 < y1 {
        lemma_last_column(f, x0, x1, y0, y1 - 1);
    }
}

proof fn lemma_column_turned(
    f: spec_fn(int, int) -> int,
    g: spec_fn(int, int) -> int,
    x: int,
    y0: int,
    y1: int,
)
    requires
        forall|y: int| y0 <= y < y1 ==> #[trigger] f(x, y) == g(y, x),
    ensures
        column_sum(f, x, y0, y1) == row_sum(g, y0, y1, x),
    decreases y1 - y0,
{
    if y0 < y1 {
        lemma_column_turned(f, g, x, y0, y1 - 1);
        assert(f(x, y1 - 1) == g(y1 - 1, x));
    }
}

proof fn lemma_no_columns(f: spec_fn(int, int) -> int, x0: int, x1: int, y0: int, y1: int)
    requires
        x1 <= x0,
    ensures
        area_sum(f, x0, x1, y0, y1) == 0,
    decreases y1 - y0,
{
    if y0 < y1 {
        lemma_no_columns(f, x0, x1, y0, y1 - 1);
    }
}

proof fn lemma_area_turned(
    f: spec_fn(int, int) -> int,
    g: spec_fn(int, int) -> int,
    x0: int,
    x1: int,
    y0: int,
    y1: int,
)
    requires
        forall|x: int, y: int| x0 <= x < x1 && y0 <= y < y1 ==> #[trigger] f(x, y) == g(y, x),
    ensures
        area_sum(f, x0, x1, y0, y1) == area_sum(g, y0, y1, x0, x1),
    decreases x1 - x0,
{
    if x0 < x1 {
        lemma_area_turned(f, g, x0, x1 - 1, y0, y1);
        lemma_last_column(f, x0, x1, y0, y1);
        lemma_column_turned(f, g, x1 - 1, y0, y1);
    } else {
        lemma_no_columns(f, x0, x1, y0, y1);
    }
}

/// Sharpness favours no direction: where one image is the other with rows and
/// columns swapped, the sums over a region are those over the swapped region.
pub proof fn sharpness_favours_no_direction(
    px: Seq<u8>,
    turned: Seq<u8>,
    w: int,
    h: int,
    r: Rect,
    a: Stats,
    b: Stats,
)
    requires
        r.x + r.w <= w,
        r.y + r.h <= h,
        forall|x: int, y: int|
            0 <= x < w && 0 <= y < h ==> #[trigger] px[y * w + x] == turned[x * h + y],
        is_stats(px, w, r, a),
        is_stats(turned, h, (Rect { x: r.y, y: r.x, w: r.h, h: r.w }), b),
    ensures
        a == b,
{
    if r.w >= 8 && r.h >= 8 {
        let (x0, x1, y0, y1) = (r.x + 1, r.x + r.w - 1, r.y + 1, r.y + r.h - 1);
        let fe = |x: int, y: int| laplacian(px, w, x, y) * laplacian(px, w, x, y);
        let ge = |x: int, y: int| laplacian(turned, h, x, y) * laplacian(turned, h, x, y);
        let fs = |x: int, y: int| at(px, w, x, y);
        let gs = |x: int, y: int| at(turned, h, x, y);
        let fq = |x: int, y: int| at(px, w, x, y) * at(px, w, x, y);
        let gq = |x: int, y: int| at(turned, h, x, y) * at(turned, h, x, y);
        assert forall|x: int, y: int| x0 <= x < x1 && y0 <= y < y1 implies #[trigger] fe(x, y)
            == ge(y, x) by {
            assert(px[y * w + (x - 1)] == turned[(x - 1) * h + y]);
            assert(px[y * w + (x + 1)] == turned[(x + 1) * h + y]);
            assert(px[(y - 1) * w + x] == turned[x * h + (y - 1)]);
            assert(px[(y + 1) * w + x] == turned[x * h + (y + 1)]);
            assert(px[y * w + x] == turned[x * h + y]);
        }
        assert forall|x: int, y: int| x0 <= x < x1 && y0 <= y < y1 implies #[trigger] fs(x, y)
            == gs(y, x) by {
            assert(px[y * w + x] == turned[x * h + y]);
        }
        assert forall|x: int, y: int| x0 <= x < x1 && y0 <= y < y1 implies #[trigger] fq(x, y)
            == gq(y, x) by {
            assert(px[y * w + x] == turned[x * h + y]);
        }
        lemma_area_turned(fe, ge, x0, x1, y0, y1);
        lemma_area_turned(fs, gs, x0, x1, y0, y1);
        lemma_area_turned(fq, gq, x0, x1, y0, y1);
        lemma_mul_is_commutative(r.w - 2, r.h - 2);
    }
}

/// Only bends are sharp: over a surface that bends by `2 * a` across and by
/// `2 * b` down, every pixel inside adds the square of the two together,
/// whatever its level and slope. Even ground and even slopes have no energy.
/// A region less than 8 pixels wide or high is not measured.
pub proof fn bends_make_the_energy(
    px: Seq<u8>,
    stride: int,
    r: Rect,
    s: Stats,
    c: int,
    i: int,
    j: int,
    a: int,
    b: int,
)
    requires
        is_stats(px, stride, r, s),
        forall|x: int, y: int|
            r.x <= x < r.x + r.w && r.y <= y < r.y + r.h ==> #[trigger] px[y * stride + x] == c + i
                * x + j * y + a * (x * x) + b * (y * y),
    ensures
        r.w >= 8 && r.h >= 8 ==> s.n == (r.w - 2) * (r.h - 2) && s.energy == s.n * ((2 * a + 2 * b)
            * (2 * a + 2 * b)),
        r.w < 8 || r.h < 8 ==> s.n == 0 && s.energy == 0,
{
    if r.w >= 8 && r.h >= 8 {
        let (x0, x1, y0, y1) = (r.x + 1, r.x + r.w - 1, r.y + 1, r.y + r.h - 1);
        let fe = |x: int, y: int| laplacian(px, stride, x, y) * laplacian(px, stride, x, y);
        let e = (2 * a + 2 * b) * (2 * a + 2 * b);
        assert forall|x: int, y: int| x0 <= x < x1 && y0 <= y < y1 implies #[trigger] fe(x, y)
            == e by {
            let p = laplacian(px, stride, x, y);
            assert(px[y * stride + (x - 1)] == c + i * (x - 1) + j * y + a * ((x - 1) * (x - 1)) + b
                * (y * y));
            assert(px[y * stride + (x + 1)] == c + i * (x + 1) + j * y + a * ((x + 1) * (x + 1)) + b
                * (y * y));
            assert(px[(y - 1) * stride + x] == c + i * x + j * (y - 1) + a * (x * x) + b * ((y - 1)
                * (y - 1)));
            assert(px[(y + 1) * stride + x] == c + i * x + j * (y + 1) + a * (x * x) + b * ((y + 1)
                * (y + 1)));
            assert(px[y * stride + x] == c + i * x + j * y + a * (x * x) + b * (y * y));
            lemma_second_difference(i, a, x);
            lemma_second_difference(j, b, y);
            assert(p == 2 * a + 2 * b);
        }
        lemma_area_even(fe, e, x0, x1, y0, y1);
    }
}

proof fn lemma_second_difference(i: int, a: int, x: int)
    ensures
        i * (x - 1) + i * (x + 1) == 2 * (i * x),
        a * ((x - 1) * (x - 1)) + a * ((x + 1) * (x + 1)) == 2 * (a * (x * x)) + 2 * a,
{
    assert(i * (x - 1) + i * (x + 1) == 2 * (i * x)) by (nonlinear_arith);
    assert(a * ((x - 1) * (x - 1)) + a * ((x + 1) * (x + 1)) == 2 * (a * (x * x)) + 2 * a)
        by (nonlinear_arith);
}

/// Over even ground of level `c` the sums are those of as many equal pixels.
pub proof fn even_ground_has_its_level(px: Seq<u8>, stride: int, r: Rect, s: Stats, c: int)
    requires
        is_stats(px, stride, r, s),
        forall|x: int, y: int|
            r.x <= x < r.x + r.w && r.y <= y < r.y + r.h ==> #[trigger] px[y * stride + x] == c,
    ensures
        s.sum == s.n * c,
        s.sum2 == s.n * (c * c),
        s.energy == 0,
{
    if r.w >= 8 && r.h >= 8 {
        let (x0, x1, y0, y1) = (r.x + 1, r.x + r.w - 1, r.y + 1, r.y + r.h - 1);
        let fs = |x: int, y: int| at(px, stride, x, y);
        let fq = |x: int, y: int| at(px, stride, x, y) * at(px, stride, x, y);
        let fe = |x: int, y: int| laplacian(px, stride, x, y) * laplacian(px, stride, x, y);
        assert forall|x: int, y: int| x0 <= x < x1 && y0 <= y < y1 implies #[trigger] fe(x, y)
            == 0 by {
            assert(px[y * stride + (x - 1)] == c && px[y * stride + (x + 1)] == c && px[(y - 1)
                * stride + x] == c && px[(y + 1) * stride + x] == c && px[y * stride + x] == c);
            lemma_mul_basics(laplacian(px, stride, x, y));
        }
        assert forall|x: int, y: int| x0 <= x < x1 && y0 <= y < y1 implies #[trigger] fs(x, y)
            == c by {
            assert(px[y * stride + x] == c);
        }
        assert forall|x: int, y: int| x0 <= x < x1 && y0 <= y < y1 implies #[trigger] fq(x, y) == c
            * c by {
            assert(px[y * stride + x] == c);
        }
        lemma_area_even(fs, c, x0, x1, y0, y1);
        lemma_area_even(fq, c * c, x0, x1, y0, y1);
        lemma_area_even(fe, 0, x0, x1, y0, y1);
        lemma_mul_basics((x1 - x0) * (y1 - y0));
    } else {
        lemma_mul_basics(c);
        lemma_mul_basics(c * c);
    }
}

/// What lies outside a region does not count.
pub proof fn sharpness_is_local(
    px: Seq<u8>,
    other: Seq<u8>,
    stride: int,
    r: Rect,
    a: Stats,
    b: Stats,
)
    requires
        is_stats(px, stride, r, a),
        is_stats(other, stride, r, b),
        forall|x: int, y: int|
            r.x <= x < r.x + r.w && r.y <= y < r.y + r.h ==> #[trigger] px[y * stride + x]
                == other[y * stride + x],
    ensures
        a == b,
{
    if r.w >= 8 && r.h >= 8 {
        let (x0, x1, y0, y1) = (r.x + 1, r.x + r.w - 1, r.y + 1, r.y + r.h - 1);
        let fe = |x: int, y: int| laplacian(px, stride, x, y) * laplacian(px, stride, x, y);
        let ge = |x: int, y: int| laplacian(other, stride, x, y) * laplacian(other, stride, x, y);
        let fs = |x: int, y: int| at(px, stride, x, y);
        let gs = |x: int, y: int| at(other, stride, x, y);
        let fq = |x: int, y: int| at(px, stride, x, y) * at(px, stride, x, y);
        let gq = |x: int, y: int| at(other, stride, x, y) * at(other, stride, x, y);
        assert forall|x: int, y: int| x0 <= x < x1 && y0 <= y < y1 implies #[trigger] ge(x, y)
            == fe(x, y) by {
            assert(px[y * stride + (x - 1)] == other[y * stride + (x - 1)]);
            assert(px[y * stride + (x + 1)] == other[y * stride + (x + 1)]);
            assert(px[(y - 1) * stride + x] == other[(y - 1) * stride + x]);
            assert(px[(y + 1) * stride + x] == other[(y + 1) * stride + x]);
            assert(px[y * stride + x] == other[y * stride + x]);
        }
        assert forall|x: int, y: int| x0 <= x < x1 && y0 <= y < y1 implies #[trigger] gs(x, y)
            == fs(x, y) by {
            assert(px[y * stride + x] == other[y * stride + x]);
        }
        assert forall|x: int, y: int| x0 <= x < x1 && y0 <= y < y1 implies #[trigger] gq(x, y)
            == fq(x, y) by {
            assert(px[y * stride + x] == other[y * stride + x]);
        }
        lemma_area_same(fe, ge, x0, x1, y0, y1);
        lemma_area_same(fs, gs, x0, x1, y0, y1);
        lemma_area_same(fq, gq, x0, x1, y0, y1);
    }
}

/// Raising the level of a whole region changes nothing of its energy.
pub proof fn level_does_not_sharpen(
    px: Seq<u8>,
    raised: Seq<u8>,
    more: int,
    stride: int,
    r: Rect,
    a: Stats,
    b: Stats,
)
    requires
        is_stats(px, stride, r, a),
        is_stats(raised, stride, r, b),
        forall|x: int, y: int|
            r.x <= x < r.x + r.w && r.y <= y < r.y + r.h ==> #[trigger] raised[y * stride + x]
                == px[y * stride + x] + more,
    ensures
        b.energy == a.energy,
        b.n == a.n,
{
    if r.w >= 8 && r.h >= 8 {
        let (x0, x1, y0, y1) = (r.x + 1, r.x + r.w - 1, r.y + 1, r.y + r.h - 1);
        let fe = |x: int, y: int| laplacian(px, stride, x, y) * laplacian(px, stride, x, y);
        let ge = |x: int, y: int| laplacian(raised, stride, x, y) * laplacian(raised, stride, x, y);
        assert forall|x: int, y: int| x0 <= x < x1 && y0 <= y < y1 implies #[trigger] ge(x, y)
            == fe(x, y) by {
            assert(raised[y * stride + (x - 1)] == px[y * stride + (x - 1)] + more);
            assert(raised[y * stride + (x + 1)] == px[y * stride + (x + 1)] + more);
            assert(raised[(y - 1) * stride + x] == px[(y - 1) * stride + x] + more);
            assert(raised[(y + 1) * stride + x] == px[(y + 1) * stride + x] + more);
            assert(raised[y * stride + x] == px[y * stride + x] + more);
        }
        lemma_area_same(fe, ge, x0, x1, y0, y1);
    }
}

/// An image of at least 144 by 96 pixels is divided into 9 by 6 tiles. They
/// lie in the image and cover it but for less than 9 columns and 6 rows at the
/// far edges, and no pixel is in two of them.
pub proof fn tiles_divide_the_image(w: usize, h: usize, x: int, y: int)
    ensures
        divides(w as int, h as int) <==> w >= 144 && h >= 96,
        ({
            let tile = |tx: int, ty: int| tile_rect(w as int, h as int, tx, ty);
            let has = |tx: int, ty: int|
                tile(tx, ty).x <= x < tile(tx, ty).x + tile(tx, ty).w && tile(tx, ty).y <= y
                    < tile(tx, ty).y + tile(tx, ty).h;
            &&& forall|tx: int, ty: int|
                0 <= tx < 9 && 0 <= ty < 6 && #[trigger] has(tx, ty) ==> 0 <= x < w && 0 <= y < h
            &&& 0 <= x && x + 9 <= w && 0 <= y && y + 6 <= h && divides(w as int, h as int)
                ==> exists|tx: int, ty: int| 0 <= tx < 9 && 0 <= ty < 6 && #[trigger] has(tx, ty)
            &&& forall|tx: int, ty: int, ux: int, uy: int|
                0 <= tx < 9 && 0 <= ty < 6 && 0 <= ux < 9 && 0 <= uy < 6 && #[trigger] has(tx, ty)
                    && #[trigger] has(ux, uy) ==> tx == ux && ty == uy
        }),
{
    let (tw, th) = (w as int / 9, h as int / 6);
    let tile = |tx: int, ty: int| tile_rect(w as int, h as int, tx, ty);
    let has = |tx: int, ty: int|
        tile(tx, ty).x <= x < tile(tx, ty).x + tile(tx, ty).w && tile(tx, ty).y <= y < tile(
            tx,
            ty,
        ).y + tile(tx, ty).h;
    assert forall|tx: int, ty: int| 0 <= tx < 9 && 0 <= ty < 6 implies #[trigger] has(tx, ty) == (tx
        * tw <= x < tx * tw + tw && ty * th <= y < ty * th + th) && 0 <= tx * tw && tx * tw + tw
        <= w && 0 <= ty * th && ty * th + th <= h by {
        assert(0 <= tx * tw && tx * tw + tw <= 9 * tw) by (nonlinear_arith)
            requires
                0 <= tx < 9,
                tw >= 0,
        ;
        assert(0 <= ty * th && ty * th + th <= 6 * th) by (nonlinear_arith)
            requires
                0 <= ty < 6,
                th >= 0,
        ;
    }
    assert forall|tx: int, ty: int, ux: int, uy: int|
        0 <= tx < 9 && 0 <= ty < 6 && 0 <= ux < 9 && 0 <= uy < 6 && #[trigger] has(tx, ty)
            && #[trigger] has(ux, uy) implies tx == ux && ty == uy by {
        lemma_one_slot(tx, ux, tw, x);
        lemma_one_slot(ty, uy, th, y);
    }
    if 0 <= x && x + 9 <= w && 0 <= y && y + 6 <= h && divides(w as int, h as int) {
        lemma_slot(x, tw, 9);
        lemma_slot(y, th, 6);
        assert(has(x / tw, y / th));
    }
}

proof fn lemma_one_slot(a: int, b: int, t: int, x: int)
    requires
        a * t <= x < a * t + t,
        b * t <= x < b * t + t,
    ensures
        a == b,
{
    assert(a == b) by (nonlinear_arith)
        requires
            a * t <= x < a * t + t,
            b * t <= x < b * t + t,
    ;
}

proof fn lemma_slot(x: int, t: int, n: int)
    requires
        t > 0,
        0 <= x < n * t,
    ensures
        0 <= x / t < n,
        (x / t) * t <= x < (x / t) * t + t,
{
    assert(0 <= x / t < n && (x / t) * t <= x < (x / t) * t + t) by (nonlinear_arith)
        requires
            t > 0,
            0 <= x < n * t,
    ;
}

/// A region that starts inside the image is cut off at it: what is left are
/// its pixels that lie in the image.
pub proof fn regions_are_cut_off_at_the_image(w: usize, h: usize, r: Rect, x: int, y: int)
    requires
        r.x < w,
        r.y < h,
    ensures
        ({
            let c = cut_rect(w as int, h as int, r);
            (c.x <= x < c.x + c.w && c.y <= y < c.y + c.h) <==> (r.x <= x < r.x + r.w && r.y <= y < r.y
                + r.h && x < w && y < h)
        }),
{
}

} // verus!
