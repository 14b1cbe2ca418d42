//! What is put on screen: which images are kept decoded and which are asked
//! for ahead, and what the badges and the status bar say.

use vstd::prelude::*;
use std::collections::HashMap;
use crate::cull::{Cull, CullView, Look};
use crate::marks::Flag;
use crate::pipeline::JobKind;
use crate::roi;
use crate::roi::RoiTrack;
use crate::single::Real32;
use crate::sort;
use crate::sort::Ranking;
use crate::text;
use crate::track;

verus! {

/// Decoded thumbnails that are kept.
pub const THUMB_BUDGET: usize = 1500;

/// Decoded previews that are kept.
pub const PREVIEW_BUDGET: usize = 8;

/// Decoded full-size images that are kept: the current frame and both
/// inspect-mode neighbours (a 45 MP image takes about 180 MB, so this budget is
/// deliberately tight).
pub const FULL_BUDGET: usize = 3;

/// Confidence (0.75, as bits) from which a track is shown as good.
pub const CONF_GOOD: u32 = 0x3F40_0000;

/// How many decoded images of a kind are kept; scores are no images.
pub fn budget(kind: JobKind) -> (r: Option<usize>)
    ensures
        r == (match kind {
            JobKind::Thumb => Some(THUMB_BUDGET),
            JobKind::Preview => Some(PREVIEW_BUDGET),
            JobKind::Full => Some(FULL_BUDGET),
            JobKind::Score => None,
        }),
        kind == JobKind::Thumb ==> r == Some(1500usize),
        kind == JobKind::Preview ==> r == Some(8usize),
        kind == JobKind::Full ==> r == Some(3usize),
{
    match kind {
        JobKind::Thumb => Some(THUMB_BUDGET),
        JobKind::Preview => Some(PREVIEW_BUDGET),
        JobKind::Full => Some(FULL_BUDGET),
        JobKind::Score => None,
    }
}

/// A decoded image, and the frame in which it was last shown.
#[derive(Debug, Clone, Copy, PartialEq, Eq, Structural)]
pub struct Held {
    pub idx: usize,
    pub last_used: u64,
}

/// Order of images by when they were last shown.
struct ByUse<'a> {
    held: &'a Vec<Held>,
}

impl<'a> Ranking for ByUse<'a> {
    closed spec fn ahead(&self, a: int, b: int) -> bool {
        self.held@[a].last_used < self.held@[b].last_used
    }

    closed spec fn has(&self, a: int) -> bool {
        0 <= a < self.held@.len()
    }

    proof fn is_order(&self, a: int, b: int, c: int) {
    }

    fn is_ahead(&self, a: usize, b: usize) -> (r: bool) {
        self.held[a].last_used < self.held[b].last_used
    }
}

/// Whether `ord` lists the positions of `held` from the one that was shown
/// longest ago to the latest, those shown together in their order.
pub open spec fn oldest_first(held: Seq<Held>, ord: Seq<usize>) -> bool {
    &&& ord.len() == held.len()
    &&& forall|i: int| 0 <= i < ord.len() ==> 0 <= #[trigger] ord[i] < held.len()
    &&& forall|p: int| 0 <= p < held.len() ==> #[trigger] ord.contains(p as usize)
    &&& forall|i: int, j: int|
        0 <= i < j < ord.len() ==> {
            let (a, b) = (held[#[trigger] ord[i] as int], held[#[trigger] ord[j] as int]);
            a.last_used < b.last_used || (a.last_used == b.last_used && ord[i] < ord[j])
        }
}

/// How many of `n` images are beyond the budget.
pub open spec fn excess(n: int, budget: int) -> int {
    if n > budget {
        n - budget
    } else {
        0
    }
}

/// The images that go when there are more of a kind than are kept: those that
/// were shown longest ago.
pub fn evict(held: &Vec<Held>, budget: usize) -> (r: Vec<usize>)
    ensures
        exists|ord: Seq<usize>| #[trigger]
            oldest_first(held@, ord) && r@ == Seq::new(
                excess(held@.len() as int, budget as int) as nat,
                |i: int| held@[ord[i] as int].idx,
            ),
{
    let n: usize = held.len();
    let rank = ByUse { held };
    let ord = sort::sorted_positions(&rank, 0, n);
    proof {
        assert forall|i: int, j: int| 0 <= i < j < ord@.len() implies {
            let (a, b) = (held@[#[trigger] ord@[i] as int], held@[#[trigger] ord@[j] as int]);
            a.last_used < b.last_used || (a.last_used == b.last_used && ord@[i] < ord@[j])
        } by {
            assert(sort::precedes(&rank, ord@[i] as int, ord@[j] as int));
        }
        assert(oldest_first(held@, ord@));
    }
    let m: usize = if n > budget {
        n - budget
    } else {
        0
    };
    let mut out: Vec<usize> = Vec::new();
    let mut i: usize = 0;
    while i < m
        invariant
            i <= m <= n == held@.len(),
            oldest_first(held@, ord@),
            out@.len() == i,
            forall|j: int| 0 <= j < i ==> (#[trigger] out@[j]) == held@[ord@[j] as int].idx,
        decreases m - i,
    {
        out.push(held[ord[i]].idx);
        i += 1;
    }
    assert(out@ =~= Seq::new(
        excess(held@.len() as int, budget as int) as nat,
        |i: int| held@[ord@[i] as int].idx,
    ));
    out
}

/// Nothing that stays was shown longer ago than something that goes.
pub proof fn what_stays_is_newer(held: Seq<Held>, budget: int, ord: Seq<usize>, gone: int, kept: int)
    requires
        oldest_first(held, ord),
        0 <= gone < excess(held.len() as int, budget),
        excess(held.len() as int, budget) <= kept < held.len(),
    ensures
        held[ord[gone] as int].last_used <= held[ord[kept] as int].last_used,
{
}

/// An image to be decoded ahead: its kind, its place in the display order of
/// the burst, and how urgent it is.
#[derive(Debug, Clone, Copy, PartialEq, Eq, Structural)]
pub struct Ahead {
    pub kind: JobKind,
    pub pos: usize,
    pub priority: i32,
}

/// The neighbour at distance `d` after `frame`, and the one before it.
pub open spec fn neighbours(n: int, frame: int, d: int, kind: JobKind, after: i32, before: i32) -> Seq<
    Ahead,
> {
    let next = if frame + d < n {
        seq![Ahead { kind, pos: (frame + d) as usize, priority: after }]
    } else {
        Seq::empty()
    };
    let previous = if frame >= d {
        seq![Ahead { kind, pos: (frame - d) as usize, priority: before }]
    } else {
        Seq::empty()
    };
    next + previous
}

/// What is decoded ahead around frame `frame` of `n`: the previews of two
/// neighbours on either side, and in inspect mode, where flipping frames is the
/// whole point, the full-size images of the nearest ones.
pub open spec fn wanted_ahead(n: int, frame: int, inspect: bool) -> Seq<Ahead> {
    let near = neighbours(n, frame, 1, JobKind::Preview, 79, 79);
    let far = neighbours(n, frame, 2, JobKind::Preview, 78, 78);
    let full = if inspect {
        neighbours(n, frame, 1, JobKind::Full, 95, 94)
    } else {
        Seq::empty()
    };
    near + far + full
}

fn add_neighbours(
    out: &mut Vec<Ahead>,
    n: usize,
    frame: usize,
    d: usize,
    kind: JobKind,
    after: i32,
    before: i32,
)
    requires
        frame < n,
        0 < d <= 2,
    ensures
        final(out)@ == old(out)@ + neighbours(
            n as int,
            frame as int,
            d as int,
            kind,
            after,
            before,
        ),
{
    if d < n - frame {
        out.push(Ahead { kind, pos: frame + d, priority: after });
    }
    if frame >= d {
        out.push(Ahead { kind, pos: frame - d, priority: before });
    }
    assert(out@ =~= old(out)@ + neighbours(
        n as int,
        frame as int,
        d as int,
        kind,
        after,
        before,
    ));
}

/// What is decoded ahead around frame `frame` of `n`.
pub fn prefetch(n: usize, frame: usize, inspect: bool) -> (r: Vec<Ahead>)
    requires
        frame < n,
    ensures
        r@ == wanted_ahead(n as int, frame as int, inspect),
{
    let mut out: Vec<Ahead> = Vec::new();
    add_neighbours(&mut out, n, frame, 1, JobKind::Preview, 79, 79);
    add_neighbours(&mut out, n, frame, 2, JobKind::Preview, 78, 78);
    if inspect {
        add_neighbours(&mut out, n, frame, 1, JobKind::Full, 95, 94);
    }
    assert(out@ =~= wanted_ahead(n as int, frame as int, inspect));
    out
}

/// How a track's confidence is shown.
#[derive(Debug, Clone, Copy, PartialEq, Eq, Structural)]
pub enum Grade {
    Good,
    Fair,
    Lost,
}

/// How a track's confidence is shown.
pub fn grade(conf: Real32) -> (r: Grade)
    ensures
        r == (if track::at_least(conf, Real32 { bits: CONF_GOOD }) {
            Grade::Good
        } else if roi::is_confident(conf) {
            Grade::Fair
        } else {
            Grade::Lost
        }),
        r == grade_of(conf),
{
    let good = Real32 { bits: CONF_GOOD };
    if good.lt(&conf) || conf.equals(&good) {
        Grade::Good
    } else if roi::confident(conf) {
        Grade::Fair
    } else {
        Grade::Lost
    }
}

/// What the badge of a frame shows.
#[derive(Debug, Clone, Copy, PartialEq, Eq, Structural)]
pub enum Badge {
    /// Fraction of the focus area in focus.
    Coverage(Real32),
    /// Measured pupil.
    Eye(roi::Eye),
    /// Sharpness at the tracked point.
    Roi(Real32),
    /// Overall sharpness.
    Overall(Real32),
    /// Not scored yet.
    Pending,
}

/// What is shown of a frame's sharpness: a measured pupil once all are
/// measured, else sharpness at the tracked point, else overall sharpness; in
/// coverage order the coverage comes first, where `by_coverage`.
pub open spec fn badge_of(
    scores: Map<usize, Real32>,
    t: Option<roi::RoiView>,
    by_coverage: bool,
    id: usize,
) -> Badge {
    if by_coverage && t is Some && t->0.coverage.dom().contains(id) {
        Badge::Coverage(t->0.coverage[id])
    } else if t is Some && t->0.done && t->0.eyes.dom().contains(id) {
        Badge::Eye(t->0.eyes[id])
    } else if t is Some && t->0.roi_scores.dom().contains(id) {
        Badge::Roi(t->0.roi_scores[id])
    } else if scores.dom().contains(id) {
        Badge::Overall(scores[id])
    } else {
        Badge::Pending
    }
}

/// What is shown of a frame's sharpness.
pub fn badge(
    scores: &HashMap<usize, Real32>,
    t: Option<&RoiTrack>,
    by_coverage: bool,
    id: usize,
) -> (r: Badge)
    ensures
        r == badge_of(scores@, roi::track_view(t), by_coverage, id),
{
    if let Some(t) = t {
        if by_coverage {
            if let Some(c) = roi::number_at(&t.coverage, id) {
                return Badge::Coverage(c);
            }
        }
        if t.done {
            if let Some(e) = roi::eye_at(&t.eyes, id) {
                return Badge::Eye(e);
            }
        }
        if let Some(rs) = roi::number_at(&t.roi_scores, id) {
            return Badge::Roi(rs);
        }
    }
    match roi::number_at(scores, id) {
        Some(s) => Badge::Overall(s),
        None => Badge::Pending,
    }
}

/// What the toolbar says about tracking on the current frame, so that
/// click-to-track is never silent.
#[derive(Debug, Clone, Copy, PartialEq, Eq, Structural)]
pub enum Chip {
    /// No track.
    Off,
    /// The track has not reached the frame yet.
    Running,
    /// The track ended without the frame.
    Lost,
    /// The frame's point, and the pupil measured there.
    Point { p: roi::Point, eye: Option<roi::Eye>, done: bool },
}

/// What the toolbar says about tracking on frame `id`.
pub open spec fn chip_of(t: Option<roi::RoiView>, id: usize, busy: bool) -> Chip {
    match t {
        None => Chip::Off,
        Some(t) => if t.points.dom().contains(id) {
            Chip::Point {
                p: t.points[id],
                eye: if t.eyes.dom().contains(id) {
                    Some(t.eyes[id])
                } else {
                    None
                },
                done: t.done,
            }
        } else if busy {
            Chip::Running
        } else {
            Chip::Lost
        },
    }
}

/// What the toolbar says about tracking on frame `id`.
pub fn chip(t: Option<&RoiTrack>, id: usize, busy: bool) -> (r: Chip)
    ensures
        r == chip_of(roi::track_view(t), id, busy),
{
    match t {
        None => Chip::Off,
        Some(t) => match roi::point_at(&t.points, id) {
            Some(p) => Chip::Point { p, eye: roi::eye_at(&t.eyes, id), done: t.done },
            None => if busy {
                Chip::Running
            } else {
                Chip::Lost
            },
        },
    }
}

/// The rating that a click on star `r` gives: that many stars, or none where
/// it was the last one lit.
pub fn star_click(current: Option<u8>, r: u8) -> (s: u8)
    ensures
        s == (if current == Some(r) {
            0
        } else {
            r
        }),
        s == clicked(current, r),
{
    match current {
        Some(c) => if c == r {
            0
        } else {
            r
        },
        None => r,
    }
}

/// Rows of an overview of `n` bursts with `cols` in a row.
pub fn grid_rows(n: usize, cols: usize) -> (r: usize)
    requires
        cols > 0,
    ensures
        (r - 1) * cols < n <= r * cols || (n == 0 && r == 0),
{
    if n == 0 {
        return 0;
    }
    let q: usize = (n - 1) / cols;
    proof {
        vstd::arithmetic::div_mod::lemma_fundamental_div_mod((n - 1) as int, cols as int);
        assert(cols * q + (n - 1) % cols as int == n - 1);
        assert(q < n) by (nonlinear_arith)
            requires
                cols as int * q as int <= n - 1,
                cols > 0,
                q >= 0,
        ;
        assert((q + 1) * cols == q * cols + cols) by (nonlinear_arith);
        assert(cols * q == q * cols) by (nonlinear_arith);
    }
    q + 1
}

impl CullView {
    /// How many of the first `k` files are marked so.
    pub open spec fn flagged_below(self, flag: Flag, k: int) -> nat
        decreases k,
    {
        if k <= 0 {
            0
        } else if self.state((k - 1) as usize).flag == flag {
            self.flagged_below(flag, k - 1) + 1
        } else {
            self.flagged_below(flag, k - 1)
        }
    }

    /// How many of the first `k` bursts are culled.
    pub open spec fn culled_below(self, k: int) -> nat
        decreases k,
    {
        if k <= 0 {
            0
        } else if self.culled(k - 1) {
            self.culled_below(k - 1) + 1
        } else {
            self.culled_below(k - 1)
        }
    }

    /// The line of the status bar.
    pub open spec fn status_text(self, folder: Seq<char>) -> Seq<char> {
        let n = self.bursts.len() as int;
        let m = self.metas.len() as int;
        folder + " · "@ + text::decimal(self.images.len() as int) + " images · "@ + text::decimal(n)
            + " bursts · "@ + text::decimal(self.culled_below(n) as int) + "/"@ + text::decimal(n)
            + " culled · "@ + text::decimal(self.flagged_below(Flag::Picked, m) as int)
            + " picks · "@ + text::decimal(self.flagged_below(Flag::Rejected, m) as int)
            + " rejects"@
    }
}

impl Cull {
    /// How many files are marked so.
    pub fn flag_count(&self, flag: Flag) -> (r: usize)
        ensures
            r == self@.flagged_below(flag, self@.metas.len() as int),
    {
        let n: usize = self.metas.len();
        let mut count: usize = 0;
        let mut i: usize = 0;
        while i < n
            invariant
                i <= n == self@.metas.len(),
                count <= i,
                count == self@.flagged_below(flag, i as int),
            decreases n - i,
        {
            if self.img_state(i).flag == flag {
                count += 1;
            }
            i += 1;
        }
        count
    }

    /// How many bursts are culled.
    pub fn culled_count(&self) -> (r: usize)
        requires
            self@.wf(),
        ensures
            r == self@.culled_below(self@.bursts.len() as int),
    {
        let n: usize = self.bursts.len();
        let mut count: usize = 0;
        let mut b: usize = 0;
        while b < n
            invariant
                self@.wf(),
                b <= n == self@.bursts.len(),
                count <= b,
                count == self@.culled_below(b as int),
            decreases n - b,
        {
            if self.burst_culled(b) {
                count += 1;
            }
            b += 1;
        }
        count
    }

    /// The line of the status bar.
    pub fn status_line(&self, folder: &str) -> (r: String)
        requires
            self@.wf(),
        ensures
            r@ == self@.status_text(folder@),
    {
        let n: usize = self.bursts.len();
        let m: usize = self.images.len();
        let mut s = text::joined(folder, " · ");
        text::push_decimal(&mut s, m as u64);
        s.append(" images · ");
        text::push_decimal(&mut s, n as u64);
        s.append(" bursts · ");
        text::push_decimal(&mut s, self.culled_count() as u64);
        s.append("/");
        text::push_decimal(&mut s, n as u64);
        s.append(" culled · ");
        text::push_decimal(&mut s, self.flag_count(Flag::Picked) as u64);
        s.append(" picks · ");
        text::push_decimal(&mut s, self.flag_count(Flag::Rejected) as u64);
        s.append(" rejects");
        s
    }
}

impl Look {
    /// Whether the keyboard drives the session: no dialog is in front of it.
    pub fn takes_keys(&self) -> (r: bool)
        ensures
            r == (!self.harvest_open && self.confirm is None && !self.show_about),
    {
        !self.harvest_open && self.confirm.is_none() && !self.show_about
    }

    /// Whether the image is shown magnified.
    pub fn magnified(&self) -> (r: bool)
        ensures
            r == (self.zoom is Some || self.inspect),
    {
        self.zoom.is_some() || self.inspect
    }
}

/// Images decoded ahead are neighbours of the one on screen, never itself, and
/// of the burst: previews up to two away, full-size images one away and only
/// for inspection. Nearer ones are more urgent, and full-size ones most.
pub proof fn neighbours_are_decoded_ahead(n: usize, frame: usize, inspect: bool, a: Ahead)
    requires
        frame < n,
    ensures
        wanted_ahead(n as int, frame as int, inspect).contains(a) <==> {
            let d = if a.pos >= frame {
                a.pos - frame
            } else {
                frame - a.pos
            };
            a.pos < n && match a.kind {
                JobKind::Preview => (d == 1 && a.priority == 79) || (d == 2 && a.priority == 78),
                JobKind::Full => inspect && d == 1 && a.priority == if a.pos > frame {
                    95int
                } else {
                    94
                },
                _ => false,
            }
        },
{
    let (nn, f) = (n as int, frame as int);
    let near = neighbours(nn, f, 1, JobKind::Preview, 79, 79);
    let far = neighbours(nn, f, 2, JobKind::Preview, 78, 78);
    let full = if inspect {
        neighbours(nn, f, 1, JobKind::Full, 95, 94)
    } else {
        Seq::empty()
    };
    let all = wanted_ahead(nn, f, inspect);
    assert(all == near + far + full);
    lemma_neighbours(nn, f, 1, JobKind::Preview, 79, 79, a);
    lemma_neighbours(nn, f, 2, JobKind::Preview, 78, 78, a);
    lemma_neighbours(nn, f, 1, JobKind::Full, 95, 94, a);
    lemma_in_both(near, far, a);
    lemma_in_both(near + far, full, a);
}

proof fn lemma_in_both(s: Seq<Ahead>, t: Seq<Ahead>, a: Ahead)
    ensures
        (s + t).contains(a) <==> s.contains(a) || t.contains(a),
{
    if s.contains(a) {
        let i = choose|i: int| 0 <= i < s.len() && s[i] == a;
        assert((s + t)[i] == a);
    }
    if t.contains(a) {
        let i = choose|i: int| 0 <= i < t.len() && t[i] == a;
        assert((s + t)[s.len() + i] == a);
    }
    if (s + t).contains(a) {
        let i = choose|i: int| 0 <= i < (s + t).len() && (s + t)[i] == a;
        if i < s.len() {
            assert(s[i] == a);
        } else {
            assert(t[i - s.len()] == a);
        }
    }
}

proof fn lemma_neighbours(
    n: int,
    frame: int,
    d: int,
    kind: JobKind,
    after: i32,
    before: i32,
    a: Ahead,
)
    requires
        0 <= frame < n <= usize::MAX,
        0 < d,
    ensures
        neighbours(n, frame, d, kind, after, before).contains(a) <==> a.kind == kind && ((a.pos
            == frame + d && a.pos < n && a.priority == after) || (a.pos == frame - d && a.priority
            == before)),
{
    let all = neighbours(n, frame, d, kind, after, before);
    let next = Ahead { kind, pos: (frame + d) as usize, priority: after };
    let previous = Ahead { kind, pos: (frame - d) as usize, priority: before };
    if frame + d < n {
        assert(all[0] == next);
    }
    if frame >= d {
        assert(all[all.len() - 1] == previous);
    }
    if all.contains(a) {
        let i = choose|i: int| 0 <= i < all.len() && all[i] == a;
        assert(all[i] == next || all[i] == previous);
    }
}

/// Where more images are held than are kept, the surplus goes: as many as are
/// too many, and none where there are not.
pub proof fn the_surplus_goes(n: int, budget: int)
    requires
        0 <= n,
        0 <= budget,
    ensures
        0 <= excess(n, budget) <= n,
        n - excess(n, budget) <= budget,
        excess(n, budget) > 0 ==> n - excess(n, budget) == budget,
{
}

/// The badge shows what a frame is ranked by: without a track its overall
/// sharpness, on a finished one its pupil's acuity, on a running one its
/// sharpness at a confident point, and in coverage order its coverage at one.
pub proof fn badges_show_what_is_ranked(
    scores: Map<usize, Real32>,
    t: Option<roi::RoiView>,
    id: usize,
)
    ensures
        ({
            let by_sharpness = badge_of(scores, t, false, id);
            let by_coverage = badge_of(scores, t, true, id);
            let key = roi::rank_key(scores, t, crate::action::SortMode::Sharpness, id);
            let cover = roi::rank_key(scores, t, crate::action::SortMode::Coverage, id);
            &&& t is None ==> match by_sharpness {
                Badge::Overall(s) => scores.dom().contains(id) && s == key.1,
                Badge::Pending => !scores.dom().contains(id) && key.1.bits == 0,
                _ => false,
            }
            &&& t is Some && t->0.done && t->0.eyes.dom().contains(id) ==> by_sharpness
                == Badge::Eye(t->0.eyes[id]) && key == (true, t->0.eyes[id].acuity)
            &&& t is Some && !t->0.done && t->0.roi_scores.dom().contains(id) ==> by_sharpness
                == Badge::Roi(t->0.roi_scores[id]) && (key.0 ==> key.1 == t->0.roi_scores[id])
            &&& t is Some && t->0.coverage.dom().contains(id) ==> by_coverage == Badge::Coverage(
                t->0.coverage[id],
            ) && (cover.0 && t->0.points.dom().contains(id) ==> cover.1 == t->0.coverage[id])
            &&& !(by_sharpness is Coverage)
        }),
{
}

/// The toolbar shows a point where there is one, with its pupil where that is
/// measured; without one it says that tracking runs, or that it was lost; and
/// nothing of tracking where there is no track.
pub proof fn the_toolbar_shows_the_point(t: Option<roi::RoiView>, id: usize, busy: bool)
    ensures
        chip_of(t, id, busy) is Off <==> t is None,
        chip_of(t, id, busy) is Point <==> t is Some && t->0.points.dom().contains(id),
        chip_of(t, id, busy) is Running <==> t is Some && !t->0.points.dom().contains(id) && busy,
        chip_of(t, id, busy) is Lost <==> t is Some && !t->0.points.dom().contains(id) && !busy,
        chip_of(t, id, busy) matches Chip::Point { p, eye, done } ==> p == t->0.points[id] && done
            == t->0.done && (eye is Some <==> t->0.eyes.dom().contains(id)) && (eye is Some
            ==> eye->0 == t->0.eyes[id]),
{
}

/// The grade of a confidence.
pub open spec fn grade_of(conf: Real32) -> Grade {
    if track::at_least(conf, Real32 { bits: CONF_GOOD }) {
        Grade::Good
    } else if roi::is_confident(conf) {
        Grade::Fair
    } else {
        Grade::Lost
    }
}

/// A track is shown as good from 0.75 on and as lost below 0.55; a higher
/// confidence never has a lower grade.
pub proof fn grades_rise_with_confidence(a: Real32, b: Real32)
    requires
        !a.is_nan_spec(),
        !b.is_nan_spec(),
    ensures
        grade_of(a) is Good <==> a.place() >= 0x3F40_0000,
        grade_of(a) is Lost <==> a.place() < 0x3F0C_CCCD,
        a.below(b) && grade_of(a) is Good ==> grade_of(b) is Good,
        a.below(b) && grade_of(b) is Lost ==> grade_of(a) is Lost,
{
}

/// The rating after a click on star `r`.
pub open spec fn clicked(current: Option<u8>, r: u8) -> u8 {
    if current == Some(r) {
        0
    } else {
        r
    }
}

/// A click on a star gives that many; a second click takes them away again.
pub proof fn a_second_click_clears(current: Option<u8>, r: u8)
    requires
        current != Some(r),
    ensures
        clicked(current, r) == r,
        clicked(Some(clicked(current, r)), r) == 0,
{
}

proof fn lemma_flagged(v: CullView, flag: Flag, k: int)
    requires
        0 <= k <= usize::MAX,
    ensures
        Set::new(|i: int| 0 <= i < k && v.state(i as usize).flag == flag).finite(),
        v.flagged_below(flag, k) == Set::new(
            |i: int| 0 <= i < k && v.state(i as usize).flag == flag,
        ).len(),
    decreases k,
{
    let all = Set::new(|i: int| 0 <= i < k && v.state(i as usize).flag == flag);
    if k > 0 {
        lemma_flagged(v, flag, k - 1);
        let rest = Set::new(|i: int| 0 <= i < k - 1 && v.state(i as usize).flag == flag);
        if v.state((k - 1) as usize).flag == flag {
            assert(all =~= rest.insert(k - 1));
        } else {
            assert(all =~= rest);
        }
    } else {
        assert(all =~= Set::empty());
    }
}

proof fn lemma_culled(v: CullView, k: int)
    requires
        0 <= k,
    ensures
        Set::new(|b: int| 0 <= b < k && v.culled(b)).finite(),
        v.culled_below(k) == Set::new(|b: int| 0 <= b < k && v.culled(b)).len(),
    decreases k,
{
    let all = Set::new(|b: int| 0 <= b < k && v.culled(b));
    if k > 0 {
        lemma_culled(v, k - 1);
        let rest = Set::new(|b: int| 0 <= b < k - 1 && v.culled(b));
        if v.culled(k - 1) {
            assert(all =~= rest.insert(k - 1));
        } else {
            assert(all =~= rest);
        }
    } else {
        assert(all =~= Set::empty());
    }
}

/// The status bar counts the files that are marked so, and the bursts whose
/// frames are all decided about.
pub proof fn the_status_bar_counts(v: CullView, flag: Flag)
    requires
        v.metas.len() <= usize::MAX,
    ensures
        v.flagged_below(flag, v.metas.len() as int) == Set::new(
            |i: int| 0 <= i < v.metas.len() && v.state(i as usize).flag == flag,
        ).len(),
        v.culled_below(v.bursts.len() as int) == Set::new(
            |b: int| 0 <= b < v.bursts.len() && v.culled(b),
        ).len(),
{
    lemma_flagged(v, flag, v.metas.len() as int);
    lemma_culled(v, v.bursts.len() as int);
    assert(Set::new(|i: int| 0 <= i < v.metas.len() as int && v.state(i as usize).flag == flag)
        =~= Set::new(|i: int| 0 <= i < v.metas.len() && v.state(i as usize).flag == flag));
    assert(Set::new(|b: int| 0 <= b < v.bursts.len() as int && v.culled(b)) =~= Set::new(
        |b: int| 0 <= b < v.bursts.len() && v.culled(b),
    ));
}

} // verus!
