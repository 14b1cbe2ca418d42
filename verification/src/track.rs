//! Point tracking through a burst: which patches are compared, and what is
//! made of the correlations. Works on preview-resolution luma (~1620px).
//! Dual template (original + slowly updated) resists drift; per-frame
//! confidence is the correlation peak.

use vstd::prelude::*;
use vstd::arithmetic::div_mod::*;
use crate::decode;
use crate::decode::{Luma, Window};
use crate::single::Real32;

verus! {

/// Template side at preview resolution.
pub const TEMPLATE: usize = 64;

/// Search radius around the previous position, either way.
pub const SEARCH: i32 = 96;

/// Confidence (0.55, as bits) from which a match counts.
pub const CONF_OK: u32 = 0x3F0CCCCD;

/// Confidence (0.8, as bits) from which the adaptive template is refreshed.
pub const CONF_REFRESH: u32 = 0x3F4CCCCD;

/// Whether the square of the given side at `(x0, y0)` lies inside an image.
pub open spec fn fits(width: int, height: int, x0: int, y0: int, side: int) -> bool {
    0 <= x0 && 0 <= y0 && x0 + side <= width && y0 + side <= height
}

/// The pixels of the square of the given side whose corner is `(x0, y0)`;
/// nothing where it does not lie inside the image.
pub fn extract_patch(l: &Luma, x0: i64, y0: i64, side: usize) -> (r: Option<Vec<u8>>)
    requires
        l.wf(),
        0 < side <= 0xffff,
    ensures
        r is Some <==> fits(l.width as int, l.height as int, x0 as int, y0 as int, side as int),
        r matches Some(p) ==> p@ == decode::window_pixels(
            l.pixels@,
            l.width as int,
            (Window { x: x0 as usize, y: y0 as usize, w: side, h: side }),
        ),
{
    if x0 < 0 || y0 < 0 || side > l.width || side > l.height {
        return None;
    }
    if x0 as u64 > (l.width - side) as u64 || y0 as u64 > (l.height - side) as u64 {
        return None;
    }
    let want = Window { x: x0 as usize, y: y0 as usize, w: side, h: side };
    let (p, _, _) = decode::crop(l, want);
    Some(p.pixels)
}

/// Number of steps of a search of the given radius along one axis.
pub open spec fn steps(radius: int, stride: int) -> int {
    2 * radius / stride + 1
}

/// The offsets that a search of the given radius visits, row by row.
pub open spec fn offset_grid(radius: int, stride: int) -> Seq<(i32, i32)> {
    let n = steps(radius, stride);
    Seq::new(
        (n * n) as nat,
        |i: int| ((-radius + (i % n) * stride) as i32, (-radius + (i / n) * stride) as i32),
    )
}

/// The offsets `(x, y)` that a search of the given radius visits, row by row.
fn offsets(radius: i32, stride: i32) -> (r: Vec<(i32, i32)>)
    requires
        1 <= stride <= 100,
        0 <= radius <= 10_000,
    ensures
        r@ == offset_grid(radius as int, stride as int),
{
    let n: i32 = 2 * radius / stride + 1;
    let mut out: Vec<(i32, i32)> = Vec::new();
    let mut b: i32 = 0;
    proof {
        let (d, k) = (2 * radius as int, stride as int);
        assert(0 <= d / k <= d && k * (d / k) <= d) by (nonlinear_arith)
            requires
                k >= 1,
                d >= 0,
        ;
    }
    while b < n
        invariant
            0 <= b <= n,
            1 <= n <= 20_001,
            1 <= stride <= 100,
            0 <= radius <= 10_000,
            n == steps(radius as int, stride as int),
            stride * (n - 1) <= 2 * radius,
            out@ == offset_grid(radius as int, stride as int).take(b * n),
        decreases n - b,
    {
        assert(b * n + n <= n * n && 0 <= b * n) by (nonlinear_arith)
            requires
                0 <= b,
                b + 1 <= n,
        ;
        let mut a: i32 = 0;
        while a < n
            invariant
                0 <= a <= n,
                0 <= b < n,
                1 <= n <= 20_001,
                1 <= stride <= 100,
                0 <= radius <= 10_000,
                n == steps(radius as int, stride as int),
                stride * (n - 1) <= 2 * radius,
                b * n + n <= n * n,
                0 <= b * n,
                out@ == offset_grid(radius as int, stride as int).take(b * n + a),
            decreases n - a,
        {
            proof {
                assert(0 <= a * stride <= 2 * radius) by (nonlinear_arith)
                    requires
                        0 <= a,
                        a <= n - 1,
                        stride * (n - 1) <= 2 * radius,
                        stride >= 1,
                ;
                assert(0 <= b * stride <= 2 * radius) by (nonlinear_arith)
                    requires
                        0 <= b,
                        b <= n - 1,
                        stride * (n - 1) <= 2 * radius,
                        stride >= 1,
                ;
                lemma_fundamental_div_mod_converse(b * n + a, n as int, b as int, a as int);
            }
            out.push((-radius + a * stride, -radius + b * stride));
            assert(out@ =~= offset_grid(radius as int, stride as int).take(b * n + a + 1));
            a += 1;
        }
        assert((b + 1) * n == b * n + n) by (nonlinear_arith);
        b += 1;
    }
    assert(out@ =~= offset_grid(radius as int, stride as int));
    out
}

/// A round of the search: coarse over the whole window, then two refinements
/// around the peak so far.
#[derive(Debug, Clone, Copy, PartialEq, Eq, Structural)]
pub enum Round {
    Coarse,
    Fine,
    Finest,
}

/// Radius and stride of a round: stride 8 over the window, then 2 and 1 with
/// four steps to each side.
pub open spec fn round_grid(r: Round) -> (int, int) {
    match r {
        Round::Coarse => (SEARCH as int, 8),
        Round::Fine => (8, 2),
        Round::Finest => (4, 1),
    }
}

/// Whether an offset lies in the search window.
pub open spec fn in_window(p: (i32, i32)) -> bool {
    -SEARCH <= p.0 <= SEARCH && -SEARCH <= p.1 <= SEARCH
}

/// The offsets of the first `k` of `grid` from `centre` that lie in the search
/// window.
pub open spec fn visited(grid: Seq<(i32, i32)>, centre: (i32, i32), k: int) -> Seq<(i32, i32)>
    decreases k,
{
    if k <= 0 {
        Seq::empty()
    } else {
        let rest = visited(grid, centre, k - 1);
        let p = ((centre.0 + grid[k - 1].0) as i32, (centre.1 + grid[k - 1].1) as i32);
        if in_window(p) {
            rest.push(p)
        } else {
            rest
        }
    }
}

/// The offsets from the previous position that a round around `centre` visits.
pub open spec fn round_visits(round: Round, centre: (i32, i32)) -> Seq<(i32, i32)> {
    let grid = offset_grid(round_grid(round).0, round_grid(round).1);
    visited(grid, centre, grid.len() as int)
}

/// The offsets from the previous position that a round around `centre`
/// visits, in the order in which they are tried: never outside the window.
pub fn round_offsets(round: Round, centre: (i32, i32)) -> (r: Vec<(i32, i32)>)
    requires
        in_window(centre),
    ensures
        r@ == round_visits(round, centre),
        forall|i: int| 0 <= i < r@.len() ==> in_window(#[trigger] r@[i]),
{
    let grid = match round {
        Round::Coarse => offsets(SEARCH, 8),
        Round::Fine => offsets(8, 2),
        Round::Finest => offsets(4, 1),
    };
    let mut out: Vec<(i32, i32)> = Vec::new();
    let mut i: usize = 0;
    while i < grid.len()
        invariant
            i <= grid@.len(),
            in_window(centre),
            grid@ == offset_grid(round_grid(round).0, round_grid(round).1),
            out@ == visited(grid@, centre, i as int),
            forall|k: int| 0 <= k < out@.len() ==> in_window(#[trigger] out@[k]),
        decreases grid@.len() - i,
    {
        proof {
            lemma_grid_small(round_grid(round).0, round_grid(round).1, i as int);
        }
        let (x, y): (i32, i32) = (centre.0 + grid[i].0, centre.1 + grid[i].1);
        if -SEARCH <= x && x <= SEARCH && -SEARCH <= y && y <= SEARCH {
            out.push((x, y));
        }
        i += 1;
    }
    out
}

/// No offset of a grid is larger than its radius.
proof fn lemma_grid_small(radius: int, stride: int, i: int)
    requires
        1 <= stride <= 100,
        0 <= radius <= 10_000,
        0 <= i < offset_grid(radius, stride).len(),
    ensures
        -radius <= offset_grid(radius, stride)[i].0 <= radius,
        -radius <= offset_grid(radius, stride)[i].1 <= radius,
{
    let n = steps(radius, stride);
    let d = 2 * radius;
    assert(0 <= d / stride && stride * (d / stride) <= d) by (nonlinear_arith)
        requires
            stride >= 1,
            d >= 0,
    ;
    let (a, b) = (i % n, i / n);
    assert(0 <= a < n && 0 <= b < n) by (nonlinear_arith)
        requires
            n >= 1,
            0 <= i < n * n,
            a == i % n,
            b == i / n,
    ;
    assert(0 <= a * stride <= d && 0 <= b * stride <= d) by (nonlinear_arith)
        requires
            0 <= a <= n - 1,
            0 <= b <= n - 1,
            stride * (n - 1) <= d,
            stride >= 1,
    ;
}

/// A search stays in its window: whatever each round settles on, an offset
/// that it visits or the one before, is no further from the previous position
/// than `SEARCH` either way.
pub proof fn searches_stay_in_the_window(
    coarse: (i32, i32),
    fine: (i32, i32),
    finest: (i32, i32),
)
    requires
        coarse == (0i32, 0i32) || round_visits(Round::Coarse, (0i32, 0i32)).contains(coarse),
        fine == coarse || round_visits(Round::Fine, coarse).contains(fine),
        finest == fine || round_visits(Round::Finest, fine).contains(finest),
    ensures
        in_window(coarse),
        in_window(fine),
        in_window(finest),
{
    lemma_visits(Round::Coarse, (0i32, 0i32));
    lemma_visits(Round::Fine, coarse);
    lemma_visits(Round::Finest, fine);
}

proof fn lemma_visits(round: Round, centre: (i32, i32))
    ensures
        forall|p: (i32, i32)| #[trigger] round_visits(round, centre).contains(p) ==> in_window(p),
{
    let grid = offset_grid(round_grid(round).0, round_grid(round).1);
    lemma_visited(grid, centre, grid.len() as int);
}

proof fn lemma_visited(grid: Seq<(i32, i32)>, centre: (i32, i32), k: int)
    ensures
        forall|i: int|
            0 <= i < visited(grid, centre, k).len() ==> in_window(
                #[trigger] visited(grid, centre, k)[i],
            ),
    decreases k,
{
    if k > 0 {
        lemma_visited(grid, centre, k - 1);
        let (rest, all) = (visited(grid, centre, k - 1), visited(grid, centre, k));
        assert forall|i: int| 0 <= i < all.len() implies in_window(#[trigger] all[i]) by {
            if i < rest.len() {
                assert(all[i] == rest[i]);
            }
        }
    }
}

/// The first of the greatest of the first `k` of `values`, where it is above
/// `start`.
pub open spec fn peak(values: Seq<Real32>, start: Real32, k: int) -> Option<int>
    decreases k,
{
    if k <= 0 {
        None
    } else {
        let best = peak(values, start, k - 1);
        let top = match best {
            Some(b) => values[b],
            None => start,
        };
        if top.below(values[k - 1]) {
            Some(k - 1)
        } else {
            best
        }
    }
}

/// The first of the greatest of `values`, where it is above `start`.
pub fn find_peak(values: &Vec<Real32>, start: Real32) -> (r: Option<usize>)
    ensures
        r is Some <==> peak(values@, start, values@.len() as int) is Some,
        r is Some ==> r->0 == peak(values@, start, values@.len() as int)->0 && r->0
            < values@.len(),
{
    let mut best: Option<usize> = None;
    let mut i: usize = 0;
    while i < values.len()
        invariant
            i <= values@.len(),
            best is Some <==> peak(values@, start, i as int) is Some,
            best is Some ==> best->0 == peak(values@, start, i as int)->0 && best->0 < i,
        decreases values@.len() - i,
    {
        let top = match best {
            Some(b) => values[b],
            None => start,
        };
        if top.lt(&values[i]) {
            best = Some(i);
        }
        i += 1;
    }
    best
}

/// No value is above the peak, or above the start where there is none.
pub proof fn nothing_is_above_the_peak(values: Seq<Real32>, start: Real32, k: int, i: int)
    requires
        0 <= i < k <= values.len(),
        !start.is_nan_spec(),
        forall|j: int| 0 <= j < k ==> !(#[trigger] values[j]).is_nan_spec(),
    ensures
        match peak(values, start, k) {
            Some(b) => 0 <= b < k && !values[b].below(values[i]),
            None => !start.below(values[i]),
        },
    decreases k,
{
    lemma_peak_inside(values, start, k);
    lemma_peak_inside(values, start, k - 1);
    if i < k - 1 {
        nothing_is_above_the_peak(values, start, k - 1, i);
    }
}

proof fn lemma_peak_inside(values: Seq<Real32>, start: Real32, k: int)
    ensures
        peak(values, start, k) matches Some(b) ==> 0 <= b < k,
    decreases k,
{
    if k > 0 {
        lemma_peak_inside(values, start, k - 1);
    }
}

/// What a tracker does with the peaks of its two templates.
#[derive(Debug, Clone, Copy, PartialEq, Eq, Structural)]
pub struct StepPlan {
    /// The original template's peak counts, not the adaptive one's.
    pub use_original: bool,
    /// The match is good enough to move to.
    pub moves: bool,
    /// The adaptive template is taken anew at the match.
    pub refresh: bool,
}

/// Whether a number is at least another.
pub open spec fn at_least(a: Real32, b: Real32) -> bool {
    b.below(a) || a.same(b)
}

fn is_at_least(a: Real32, b: Real32) -> (r: bool)
    ensures
        r == at_least(a, b),
{
    b.lt(&a) || a.equals(&b)
}

/// What a tracker does with the peaks `original` and `current` of its two
/// templates.
pub open spec fn step_plan(original: Real32, current: Real32) -> StepPlan {
    let use_original = at_least(original, current);
    let conf = if use_original {
        original
    } else {
        current
    };
    StepPlan {
        use_original,
        moves: at_least(conf, Real32 { bits: CONF_OK }),
        refresh: at_least(conf, Real32 { bits: CONF_OK }) && at_least(conf, Real32 { bits: CONF_REFRESH }),
    }
}

/// Decides a tracker's step: the better peak counts; it moves on a confident
/// match only, and refreshes the adaptive template on very confident ones.
pub fn plan_step(original: Real32, current: Real32) -> (r: StepPlan)
    ensures
        r == step_plan(original, current),
{
    let use_original = is_at_least(original, current);
    let conf = if use_original {
        original
    } else {
        current
    };
    let moves = is_at_least(conf, Real32 { bits: CONF_OK });
    StepPlan { use_original, moves, refresh: moves && is_at_least(conf, Real32 { bits: CONF_REFRESH }) }
}

/// Whether `d` is reached from 0 in steps of `stride`, no further than
/// `radius` either way and starting from its negative end.
pub open spec fn on_grid(d: int, radius: int, stride: int) -> bool {
    -radius <= d <= radius && (d + radius) % stride == 0
}

proof fn lemma_on_grid(radius: int, stride: int, dx: int, dy: int)
    requires
        1 <= stride <= 100,
        0 <= radius <= 10_000,
    ensures
        (on_grid(dx, radius, stride) && on_grid(dy, radius, stride)) <==> exists|i: int|
            0 <= i < offset_grid(radius, stride).len() && (#[trigger] offset_grid(radius, stride)[i])
                == (dx as i32, dy as i32) && dx == dx as i32 && dy == dy as i32,
{
    let n = steps(radius, stride);
    let d = 2 * radius;
    let grid = offset_grid(radius, stride);
    lemma_fundamental_div_mod(d, stride);
    lemma_mod_bound(d, stride);
    assert(n >= 1 && n * n >= 1) by (nonlinear_arith)
        requires
            n == d / stride + 1,
            stride >= 1,
            d >= 0,
    ;
    if on_grid(dx, radius, stride) && on_grid(dy, radius, stride) {
        let (a, b) = ((dx + radius) / stride, (dy + radius) / stride);
        assert(stride * n == stride * (d / stride) + stride) by (nonlinear_arith)
            requires
                n == d / stride + 1,
        ;
        lemma_fundamental_div_mod(dx + radius, stride);
        lemma_fundamental_div_mod(dy + radius, stride);
        assert(0 <= a < n && 0 <= b < n) by (nonlinear_arith)
            requires
                n == d / stride + 1,
                stride * a <= d,
                stride * b <= d,
                0 <= stride * a,
                0 <= stride * b,
                d < stride * n,
                stride >= 1,
        ;
        let i = b * n + a;
        lemma_fundamental_div_mod_converse(i, n, b, a);
        assert(0 <= i < n * n) by (nonlinear_arith)
            requires
                i == b * n + a,
                0 <= a < n,
                0 <= b,
                b + 1 <= n,
        ;
        assert(a * stride == stride * a && b * stride == stride * b) by (nonlinear_arith);
        assert(grid[i] == (dx as i32, dy as i32));
    }
    if exists|i: int|
        0 <= i < grid.len() && (#[trigger] grid[i]) == (dx as i32, dy as i32) && dx == dx as i32
            && dy == dy as i32 {
        let i = choose|i: int|
            0 <= i < grid.len() && (#[trigger] grid[i]) == (dx as i32, dy as i32) && dx == dx as i32
                && dy == dy as i32;
        lemma_grid_small(radius, stride, i);
        let (a, b) = (i % n, i / n);
        lemma_mod_bound(i, n);
        assert(0 <= b < n) by (nonlinear_arith)
            requires
                b == i / n,
                0 <= i < n * n,
                n >= 1,
        ;
        assert(0 <= a * stride <= d && 0 <= b * stride <= d) by (nonlinear_arith)
            requires
                0 <= a <= n - 1,
                0 <= b <= n - 1,
                stride * (n - 1) <= d,
                stride >= 1,
        ;
        lemma_fundamental_div_mod_converse(dx + radius, stride, a, 0);
        lemma_fundamental_div_mod_converse(dy + radius, stride, b, 0);
    }
}

proof fn lemma_visits_all(grid: Seq<(i32, i32)>, centre: (i32, i32), k: int, p: (i32, i32))
    requires
        0 <= k <= grid.len(),
    ensures
        visited(grid, centre, k).contains(p) <==> in_window(p) && exists|i: int|
            0 <= i < k && p == (
                (centre.0 + (#[trigger] grid[i]).0) as i32,
                (centre.1 + grid[i].1) as i32,
            ),
    decreases k,
{
    if k > 0 {
        lemma_visits_all(grid, centre, k - 1, p);
        let (rest, all) = (visited(grid, centre, k - 1), visited(grid, centre, k));
        let q = ((centre.0 + grid[k - 1].0) as i32, (centre.1 + grid[k - 1].1) as i32);
        if rest.contains(p) {
            let i = choose|i: int| 0 <= i < rest.len() && rest[i] == p;
            assert(all[i] == p);
        }
        if in_window(q) {
            assert(all[all.len() - 1] == q);
        }
        if all.contains(p) {
            let i = choose|i: int| 0 <= i < all.len() && all[i] == p;
            if i < rest.len() {
                assert(rest[i] == p);
                assert(rest.contains(p));
            }
        }
    }
}

/// A round tries the offsets of its grid around where the one before it ended,
/// as far as they lie within 96 of the previous position: every 8 over the
/// whole window, then every 2 up to 8 away, then every one up to 4 away.
pub proof fn rounds_try_their_grids(round: Round, centre: (i32, i32), p: (i32, i32))
    requires
        -96 <= centre.0 <= 96,
        -96 <= centre.1 <= 96,
    ensures
        ({
            let (dx, dy) = (p.0 - centre.0, p.1 - centre.1);
            round_visits(round, centre).contains(p) <==> -96 <= p.0 <= 96 && -96 <= p.1 <= 96
                && match round {
                Round::Coarse => on_grid(dx, 96, 8) && on_grid(dy, 96, 8),
                Round::Fine => on_grid(dx, 8, 2) && on_grid(dy, 8, 2),
                Round::Finest => on_grid(dx, 4, 1) && on_grid(dy, 4, 1),
            }
        }),
{
    let (radius, stride) = round_grid(round);
    let grid = offset_grid(radius, stride);
    let (dx, dy) = (p.0 - centre.0, p.1 - centre.1);
    lemma_on_grid(radius, stride, dx, dy);
    lemma_visits_all(grid, centre, grid.len() as int, p);
    if round_visits(round, centre).contains(p) {
        let i = choose|i: int|
            0 <= i < grid.len() && p == (
                (centre.0 + (#[trigger] grid[i]).0) as i32,
                (centre.1 + grid[i].1) as i32,
            );
        lemma_grid_small(radius, stride, i);
        assert(grid[i] == (dx as i32, dy as i32));
    }
    if in_window(p) && on_grid(dx, radius, stride) && on_grid(dy, radius, stride) {
        let i = choose|i: int|
            0 <= i < grid.len() && (#[trigger] grid[i]) == (dx as i32, dy as i32) && dx
                == dx as i32 && dy == dy as i32;
        assert(p == ((centre.0 + grid[i].0) as i32, (centre.1 + grid[i].1) as i32));
    }
}

/// Every offset in the window can be found: the result is where the first two
/// rounds end on the way to `p`.
pub proof fn searches_reach_every_offset(p: (i32, i32)) -> (via: ((i32, i32), (i32, i32)))
    requires
        -96 <= p.0 <= 96,
        -96 <= p.1 <= 96,
    ensures
        round_visits(Round::Coarse, (0i32, 0i32)).contains(via.0),
        round_visits(Round::Fine, via.0).contains(via.1),
        round_visits(Round::Finest, via.1).contains(p),
{
    let (x, y) = (p.0 as int, p.1 as int);
    let coarse = (((x + 96) / 8 * 8 - 96) as i32, ((y + 96) / 8 * 8 - 96) as i32);
    let fine = (((x + 96) / 2 * 2 - 96) as i32, ((y + 96) / 2 * 2 - 96) as i32);
    rounds_try_their_grids(Round::Coarse, (0i32, 0i32), coarse);
    rounds_try_their_grids(Round::Fine, coarse, fine);
    rounds_try_their_grids(Round::Finest, fine, p);
    (coarse, fine)
}

/// The peak lies above the start, and above everything before it.
pub proof fn the_first_peak_is_taken(values: Seq<Real32>, start: Real32, k: int, i: int)
    requires
        0 <= k <= values.len(),
        !start.is_nan_spec(),
        forall|j: int| 0 <= j < k ==> !(#[trigger] values[j]).is_nan_spec(),
        peak(values, start, k) matches Some(b) && 0 <= i < b,
    ensures
        start.below(values[peak(values, start, k)->0]),
        values[i].below(values[peak(values, start, k)->0]),
    decreases k,
{
    let b = peak(values, start, k)->0;
    lemma_peak_inside(values, start, k);
    lemma_peak_inside(values, start, k - 1);
    if b == k - 1 {
        nothing_is_above_the_peak(values, start, k - 1, i);
        lemma_above_start(values, start, k);
    } else {
        the_first_peak_is_taken(values, start, k - 1, i);
    }
}

proof fn lemma_above_start(values: Seq<Real32>, start: Real32, k: int)
    requires
        0 <= k <= values.len(),
        !start.is_nan_spec(),
    ensures
        peak(values, start, k) matches Some(b) ==> start.below(values[b]),
    decreases k,
{
    if k > 0 {
        lemma_above_start(values, start, k - 1);
    }
}

/// The better of the two peaks counts, the original template's where they are
/// the same. The tracker moves where that peak is 0.55 or more, and refreshes
/// its template where it is 0.8 or more; never without moving.
pub proof fn steps_go_by_the_better_peak(original: Real32, current: Real32)
    requires
        !original.is_nan_spec(),
        !current.is_nan_spec(),
    ensures
        ({
            let plan = step_plan(original, current);
            let best = if plan.use_original {
                original
            } else {
                current
            };
            &&& !best.below(original) && !best.below(current)
            &&& original.same(current) ==> plan.use_original
            &&& plan.moves <==> best.place() >= 0x3F0CCCCD
            &&& plan.refresh <==> best.place() >= 0x3F4CCCCD
            &&& plan.refresh ==> plan.moves
        }),
{
}

} // verus!
