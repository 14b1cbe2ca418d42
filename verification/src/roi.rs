//! Click-and-track state of the bursts: which tracks run, what they have
//! measured so far, and what a frame is ranked by.

use vstd::prelude::*;
use std::collections::HashMap;
use crate::action::SortMode;
use crate::pipeline;
use crate::pipeline::{EyeMark, Pin, RoiKind, TrackRequest};
use crate::single::Real32;
use crate::track;

verus! {

/// The number 0, as bits.
pub const ZERO: u32 = 0;

/// The number 1, as bits.
pub const ONE: u32 = 0x3F80_0000;

/// A tracked point: position as fractions of the upright image, and the
/// tracker's confidence.
#[derive(Debug, Clone, Copy, PartialEq, Eq, Structural)]
pub struct Point {
    pub x: Real32,
    pub y: Real32,
    pub conf: Real32,
}

/// A measured pupil. `acuity` is what frames are ranked by, 100 over the rim
/// width (at least 0.1 px): higher is sharper.
#[derive(Debug, Clone, Copy, PartialEq, Eq, Structural)]
pub struct Eye {
    pub kind: RoiKind,
    pub mark: EyeMark,
    pub acuity: Real32,
}

/// The value of a `RoiTrack`.
#[verifier::ext_equal]
pub struct RoiView {
    pub req_id: u64,
    pub seeds: Seq<Pin>,
    pub points: Map<usize, Point>,
    pub roi_scores: Map<usize, Real32>,
    pub eyes: Map<usize, Eye>,
    pub coverage: Map<usize, Real32>,
    pub done: bool,
}

/// Click-and-track state for one burst.
pub struct RoiTrack {
    pub req_id: u64,
    /// The user's pins: every frame follows its nearest pin. Kept so the
    /// track can be re-run when the measuring area changes.
    pub seeds: Vec<Pin>,
    /// By meta index.
    pub points: HashMap<usize, Point>,
    /// Sharpness at the tracked point (working-resolution patch).
    pub roi_scores: HashMap<usize, Real32>,
    /// Native-resolution pupil measurement; `points` then holds the pupil
    /// centre.
    pub eyes: HashMap<usize, Eye>,
    /// Fraction of the focus area passing the peaking test.
    pub coverage: HashMap<usize, Real32>,
    /// Every frame measured: rank by eye widths from now on.
    pub done: bool,
}

impl View for RoiTrack {
    type V = RoiView;

    open spec fn view(&self) -> RoiView {
        RoiView {
            req_id: self.req_id,
            seeds: self.seeds@,
            points: self.points@,
            roi_scores: self.roi_scores@,
            eyes: self.eyes@,
            coverage: self.coverage@,
            done: self.done,
        }
    }
}

/// A track on which nothing has been measured yet.
pub open spec fn fresh_track(req_id: u64, seeds: Seq<Pin>) -> RoiView {
    RoiView {
        req_id,
        seeds,
        points: Map::empty(),
        roi_scores: Map::empty(),
        eyes: Map::empty(),
        coverage: Map::empty(),
        done: false,
    }
}

/// Whether what is stored are numbers.
pub open spec fn all_numbers(m: Map<usize, Real32>) -> bool {
    forall|i: usize| #[trigger] m.dom().contains(i) ==> !m[i].is_nan_spec()
}

/// Whether every measurement that frames are ranked by is a number.
pub open spec fn measured(t: RoiView) -> bool {
    &&& all_numbers(t.roi_scores)
    &&& all_numbers(t.coverage)
    &&& forall|i: usize| #[trigger] t.eyes.dom().contains(i) ==> !t.eyes[i].acuity.is_nan_spec()
}

/// Whether a track's confidence is enough to go by the track.
pub open spec fn is_confident(conf: Real32) -> bool {
    track::at_least(conf, Real32 { bits: track::CONF_OK })
}

/// A frame's overall sharpness, 0 while it has not been scored.
pub open spec fn score_of(scores: Map<usize, Real32>, id: usize) -> Real32 {
    if scores.dom().contains(id) {
        scores[id]
    } else {
        Real32 { bits: ZERO }
    }
}

/// What a frame is ranked by: its tier, and its score within the tier.
/// Sharpness at the tracked point when a confident track exists (tracked
/// frames always outrank lost and untracked ones), else overall sharpness.
/// Once every frame is measured it is the pupil's edge width; frames without
/// a pupil drop to the lower tier so a width is never sorted against a patch
/// score.
pub open spec fn rank_key(
    scores: Map<usize, Real32>,
    t: Option<RoiView>,
    sort: SortMode,
    id: usize,
) -> (bool, Real32) {
    let overall = score_of(scores, id);
    match t {
        None => (true, overall),
        Some(t) => if sort == SortMode::Coverage && t.points.dom().contains(id)
            && t.coverage.dom().contains(id) {
            if is_confident(t.points[id].conf) {
                (true, t.coverage[id])
            } else {
                (false, overall)
            }
        } else if t.done {
            if t.eyes.dom().contains(id) {
                (true, t.eyes[id].acuity)
            } else {
                (false, overall)
            }
        } else if t.points.dom().contains(id) && t.roi_scores.dom().contains(id) && is_confident(
            t.points[id].conf,
        ) {
            (true, t.roi_scores[id])
        } else {
            (false, overall)
        },
    }
}

impl RoiTrack {
    /// A track on which nothing has been measured yet.
    pub fn fresh(req_id: u64, seeds: Vec<Pin>) -> (r: RoiTrack)
        ensures
            r@ == fresh_track(req_id, seeds@),
    {
        broadcast use vstd::std_specs::hash::group_hash_axioms;

        let r = RoiTrack {
            req_id,
            seeds,
            points: HashMap::new(),
            roi_scores: HashMap::new(),
            eyes: HashMap::new(),
            coverage: HashMap::new(),
            done: false,
        };
        assert(r@ =~= fresh_track(req_id, seeds@));
        r
    }
}

/// The number stored for `id`, if there is one.
pub fn number_at(m: &HashMap<usize, Real32>, id: usize) -> (r: Option<Real32>)
    ensures
        r == (if m@.dom().contains(id) {
            Some(m@[id])
        } else {
            None
        }),
{
    broadcast use vstd::std_specs::hash::group_hash_axioms;

    match m.get(&id) {
        Some(x) => Some(*x),
        None => None,
    }
}

/// The tracked point of frame `id`, if there is one.
pub fn point_at(m: &HashMap<usize, Point>, id: usize) -> (r: Option<Point>)
    ensures
        r == (if m@.dom().contains(id) {
            Some(m@[id])
        } else {
            None
        }),
{
    broadcast use vstd::std_specs::hash::group_hash_axioms;

    match m.get(&id) {
        Some(x) => Some(*x),
        None => None,
    }
}

/// The pupil measured on frame `id`, if there is one.
pub fn eye_at(m: &HashMap<usize, Eye>, id: usize) -> (r: Option<Eye>)
    ensures
        r == (if m@.dom().contains(id) {
            Some(m@[id])
        } else {
            None
        }),
{
    broadcast use vstd::std_specs::hash::group_hash_axioms;

    match m.get(&id) {
        Some(x) => Some(*x),
        None => None,
    }
}

/// Whether a track's confidence is enough to go by the track.
pub fn confident(conf: Real32) -> (r: bool)
    ensures
        r == is_confident(conf),
{
    let ok = Real32 { bits: track::CONF_OK };
    ok.lt(&conf) || conf.equals(&ok)
}

/// A frame's overall sharpness, 0 while it has not been scored.
pub fn overall_score(scores: &HashMap<usize, Real32>, id: usize) -> (r: Real32)
    ensures
        r == score_of(scores@, id),
{
    match number_at(scores, id) {
        Some(s) => s,
        None => Real32 { bits: ZERO },
    }
}

/// The view of an optional track.
pub open spec fn track_view(t: Option<&RoiTrack>) -> Option<RoiView> {
    match t {
        Some(t) => Some(t@),
        None => None,
    }
}

/// What a frame is ranked by.
pub fn effective_score(
    scores: &HashMap<usize, Real32>,
    t: Option<&RoiTrack>,
    sort: SortMode,
    id: usize,
) -> (r: (bool, Real32))
    ensures
        r == rank_key(scores@, track_view(t), sort, id),
{
    let overall = overall_score(scores, id);
    match t {
        None => (true, overall),
        Some(t) => {
            let point = point_at(&t.points, id);
            if sort == SortMode::Coverage {
                if let (Some(p), Some(c)) = (point, number_at(&t.coverage, id)) {
                    return if confident(p.conf) {
                        (true, c)
                    } else {
                        (false, overall)
                    };
                }
            }
            if t.done {
                return match eye_at(&t.eyes, id) {
                    Some(e) => (true, e.acuity),
                    None => (false, overall),
                };
            }
            if let (Some(p), Some(rs)) = (point, number_at(&t.roi_scores, id)) {
                if confident(p.conf) {
                    return (true, rs);
                }
            }
            (false, overall)
        },
    }
}

/// The value of a `TrackRequest`.
#[verifier::ext_equal]
pub struct RequestView {
    pub req_id: u64,
    pub frames: Seq<usize>,
    pub seeds: Seq<Pin>,
    pub roi_frac: Real32,
    pub use_af: bool,
}

impl View for TrackRequest {
    type V = RequestView;

    open spec fn view(&self) -> RequestView {
        RequestView {
            req_id: self.req_id,
            frames: self.frames@,
            seeds: self.seeds@,
            roi_frac: self.roi_frac,
            use_af: self.use_af,
        }
    }
}

/// The value of `Tracks`.
#[verifier::ext_equal]
pub struct TracksView {
    /// By burst.
    pub roi: Map<usize, RoiView>,
    /// The burst of every request made so far.
    pub burst_of: Map<u64, usize>,
    /// Number of the latest request.
    pub last_id: u64,
}

/// The tracks of all bursts.
pub struct Tracks {
    pub roi: HashMap<usize, RoiTrack>,
    pub burst_of: HashMap<u64, usize>,
    pub last_id: u64,
}

impl View for Tracks {
    type V = TracksView;

    open spec fn view(&self) -> TracksView {
        TracksView {
            roi: Map::new(|b: usize| self.roi@.dom().contains(b), |b: usize| self.roi@[b]@),
            burst_of: self.burst_of@,
            last_id: self.last_id,
        }
    }
}

impl TracksView {
    /// The track of burst `b`, if it has one.
    pub open spec fn track(self, b: usize) -> Option<RoiView> {
        if self.roi.dom().contains(b) {
            Some(self.roi[b])
        } else {
            None
        }
    }

    /// The pins of burst `b`.
    pub open spec fn seeds(self, b: usize) -> Seq<Pin> {
        match self.track(b) {
            Some(t) => t.seeds,
            None => Seq::empty(),
        }
    }

    /// Whether every measurement that frames are ranked by is a number.
    pub open spec fn wf(self) -> bool {
        forall|b: usize| #[trigger] self.roi.dom().contains(b) ==> measured(self.roi[b])
    }

    /// The tracks after burst `b`'s is started (again) from `seeds`.
    pub open spec fn started(self, b: usize, seeds: Seq<Pin>) -> TracksView {
        let id = (self.last_id + 1) as u64;
        TracksView {
            roi: self.roi.insert(b, fresh_track(id, seeds)),
            burst_of: self.burst_of.insert(id, b),
            last_id: id,
        }
    }

    /// The tracks after burst `b`'s is dropped.
    pub open spec fn dropped(self, b: usize) -> TracksView {
        TracksView { roi: self.roi.remove(b), ..self }
    }

    /// The track that news of a request are entered in: the burst's own, or
    /// an empty one where it has been dropped meanwhile.
    pub open spec fn entry(self, b: usize) -> RoiView {
        match self.track(b) {
            Some(t) => t,
            None => fresh_track(0, Seq::empty()),
        }
    }

    /// The tracks after news of a tracked point. Only the latest request of a
    /// burst counts.
    pub open spec fn with_point(
        self,
        req_id: u64,
        idx: usize,
        p: Point,
        roi_score: Real32,
        coverage: Real32,
    ) -> TracksView {
        if !self.burst_of.dom().contains(req_id) {
            self
        } else {
            let b = self.burst_of[req_id];
            let t = self.entry(b);
            TracksView {
                roi: self.roi.insert(
                    b,
                    if t.req_id == req_id {
                        RoiView {
                            points: t.points.insert(idx, p),
                            roi_scores: t.roi_scores.insert(idx, roi_score),
                            coverage: t.coverage.insert(idx, coverage),
                            ..t
                        }
                    } else {
                        t
                    },
                ),
                ..self
            }
        }
    }

    /// The tracks after news of a measured pupil: its centre becomes the
    /// frame's point, with the confidence known so far.
    pub open spec fn with_eye(self, req_id: u64, idx: usize, x: Real32, y: Real32, eye: Eye) -> TracksView {
        if !self.burst_of.dom().contains(req_id) {
            self
        } else {
            let b = self.burst_of[req_id];
            let t = self.entry(b);
            let conf = if t.points.dom().contains(idx) {
                t.points[idx].conf
            } else {
                Real32 { bits: ONE }
            };
            TracksView {
                roi: self.roi.insert(
                    b,
                    if t.req_id == req_id {
                        RoiView {
                            points: t.points.insert(idx, Point { x, y, conf }),
                            eyes: t.eyes.insert(idx, eye),
                            ..t
                        }
                    } else {
                        t
                    },
                ),
                ..self
            }
        }
    }

    /// The tracks after news that a request is complete.
    pub open spec fn with_done(self, req_id: u64) -> TracksView {
        if !self.burst_of.dom().contains(req_id) {
            self
        } else {
            let b = self.burst_of[req_id];
            if self.roi.dom().contains(b) && self.roi[b].req_id == req_id {
                TracksView { roi: self.roi.insert(b, RoiView { done: true, ..self.roi[b] }), ..self }
            } else {
                self
            }
        }
    }
}

/// `seeds` without those on frame `id`.
pub open spec fn without_frame(seeds: Seq<Pin>, id: usize) -> Seq<Pin> {
    seeds.filter(|s: Pin| s.frame != id)
}

/// `seeds` without those on frame `id`.
pub fn drop_frame(seeds: &Vec<Pin>, id: usize) -> (r: Vec<Pin>)
    ensures
        r@ == without_frame(seeds@, id),
{
    let mut out: Vec<Pin> = Vec::new();
    let n: usize = seeds.len();
    let mut i: usize = 0;
    let ghost keep = |s: Pin| s.frame != id;
    assert(seeds@.take(0) =~= Seq::<Pin>::empty());
    assert(out@ =~= seeds@.take(0).filter(keep)) by {
        reveal(Seq::filter);
    }
    while i < n
        invariant
            i <= n == seeds@.len(),
            keep == (|s: Pin| s.frame != id),
            out@ == seeds@.take(i as int).filter(keep),
        decreases n - i,
    {
        let s = seeds[i];
        if s.frame != id {
            out.push(s);
        }
        proof {
            assert(seeds@.take(i + 1).drop_last() =~= seeds@.take(i as int));
            assert(seeds@.take(i + 1).last() == s);
            reveal(Seq::filter);
        }
        i += 1;
    }
    assert(seeds@.take(n as int) =~= seeds@);
    out
}

/// A copy of the pins.
pub fn copy_pins(seeds: &Vec<Pin>) -> (r: Vec<Pin>)
    ensures
        r@ == seeds@,
{
    let mut out: Vec<Pin> = Vec::new();
    let n: usize = seeds.len();
    let mut i: usize = 0;
    while i < n
        invariant
            i <= n == seeds@.len(),
            out@ == seeds@.take(i as int),
        decreases n - i,
    {
        out.push(seeds[i]);
        i += 1;
        assert(out@ =~= seeds@.take(i as int));
    }
    assert(seeds@.take(n as int) =~= seeds@);
    out
}

impl Tracks {
    /// No tracks.
    pub fn new() -> (r: Tracks)
        ensures
            r@ == (TracksView { roi: Map::empty(), burst_of: Map::empty(), last_id: 0 }),
    {
        broadcast use vstd::std_specs::hash::group_hash_axioms;

        let r = Tracks { roi: HashMap::new(), burst_of: HashMap::new(), last_id: 0 };
        assert(r@ =~= TracksView { roi: Map::empty(), burst_of: Map::empty(), last_id: 0 });
        r
    }

    /// The track of burst `b`, if it has one.
    pub fn get(&self, b: usize) -> (r: Option<&RoiTrack>)
        ensures
            track_view(r) == self@.track(b),
    {
        broadcast use vstd::std_specs::hash::group_hash_axioms;

        self.roi.get(&b)
    }

    /// Whether burst `b` has a track.
    pub fn has(&self, b: usize) -> (r: bool)
        ensures
            r == (self@.track(b) is Some),
    {
        self.get(b).is_some()
    }

    /// The pins of burst `b`.
    pub fn seeds(&self, b: usize) -> (r: Vec<Pin>)
        ensures
            r@ == self@.seeds(b),
    {
        match self.get(b) {
            Some(t) => copy_pins(&t.seeds),
            None => Vec::new(),
        }
    }

    /// Whether the user has pinned the point on frame `id` of burst `b`.
    pub fn is_pinned(&self, b: usize, id: usize) -> (r: bool)
        ensures
            r == pipeline::is_pinned(self@.seeds(b), id),
    {
        match self.get(b) {
            Some(t) => pipeline::has_pin(&t.seeds, id),
            None => false,
        }
    }

    fn put(&mut self, b: usize, t: RoiTrack)
        ensures
            final(self)@ == (TracksView { roi: old(self)@.roi.insert(b, t@), ..old(self)@ }),
    {
        broadcast use vstd::std_specs::hash::group_hash_axioms;

        self.roi.insert(b, t);
        assert(self@.roi =~= old(self)@.roi.insert(b, t@));
    }

    /// Starts burst `b`'s track (again) from `seeds`; returns the request's
    /// number.
    pub fn start(&mut self, b: usize, seeds: Vec<Pin>) -> (r: u64)
        requires
            old(self).last_id < u64::MAX,
        ensures
            final(self)@ == old(self)@.started(b, seeds@),
            r == final(self)@.last_id,
    {
        broadcast use vstd::std_specs::hash::group_hash_axioms;

        self.last_id = self.last_id + 1;
        let id: u64 = self.last_id;
        self.burst_of.insert(id, b);
        self.put(b, RoiTrack::fresh(id, seeds));
        id
    }

    /// Drops burst `b`'s track.
    pub fn remove(&mut self, b: usize)
        ensures
            final(self)@ == old(self)@.dropped(b),
    {
        broadcast use vstd::std_specs::hash::group_hash_axioms;

        self.roi.remove(&b);
        assert(self@.roi =~= old(self)@.roi.remove(b));
    }

    /// Takes burst `b`'s track out, to be put back changed.
    fn take_entry(&mut self, b: usize) -> (r: RoiTrack)
        ensures
            r@ == old(self)@.entry(b),
            final(self)@ == old(self)@.dropped(b),
    {
        broadcast use vstd::std_specs::hash::group_hash_axioms;

        let t = self.roi.remove(&b);
        assert(self@.roi =~= old(self)@.roi.remove(b));
        match t {
            Some(t) => t,
            None => RoiTrack::fresh(0, Vec::new()),
        }
    }

    fn burst_of(&self, req_id: u64) -> (r: Option<usize>)
        ensures
            r == (if self@.burst_of.dom().contains(req_id) {
                Some(self@.burst_of[req_id])
            } else {
                None
            }),
    {
        broadcast use vstd::std_specs::hash::group_hash_axioms;

        match self.burst_of.get(&req_id) {
            Some(b) => Some(*b),
            None => None,
        }
    }

    /// News of a tracked point.
    pub fn on_point(&mut self, req_id: u64, idx: usize, p: Point, roi_score: Real32, coverage: Real32)
        ensures
            final(self)@ == old(self)@.with_point(req_id, idx, p, roi_score, coverage),
    {
        broadcast use vstd::std_specs::hash::group_hash_axioms;

        if let Some(b) = self.burst_of(req_id) {
            let mut t = self.take_entry(b);
            if t.req_id == req_id {
                t.points.insert(idx, p);
                t.roi_scores.insert(idx, roi_score);
                t.coverage.insert(idx, coverage);
            }
            let ghost tv = t@;
            self.put(b, t);
            assert(old(self)@.dropped(b).roi.insert(b, tv) =~= old(self)@.roi.insert(b, tv));
            assert(self@ =~= old(self)@.with_point(req_id, idx, p, roi_score, coverage));
        }
    }

    /// News of a measured pupil.
    pub fn on_eye(&mut self, req_id: u64, idx: usize, x: Real32, y: Real32, eye: Eye)
        ensures
            final(self)@ == old(self)@.with_eye(req_id, idx, x, y, eye),
    {
        broadcast use vstd::std_specs::hash::group_hash_axioms;

        if let Some(b) = self.burst_of(req_id) {
            let mut t = self.take_entry(b);
            if t.req_id == req_id {
                let conf = match point_at(&t.points, idx) {
                    Some(p) => p.conf,
                    None => Real32 { bits: ONE },
                };
                t.points.insert(idx, Point { x, y, conf });
                t.eyes.insert(idx, eye);
            }
            let ghost tv = t@;
            self.put(b, t);
            assert(old(self)@.dropped(b).roi.insert(b, tv) =~= old(self)@.roi.insert(b, tv));
            assert(self@ =~= old(self)@.with_eye(req_id, idx, x, y, eye));
        }
    }

    /// News that a request is complete.
    pub fn on_done(&mut self, req_id: u64)
        ensures
            final(self)@ == old(self)@.with_done(req_id),
    {
        broadcast use vstd::std_specs::hash::group_hash_axioms;

        if let Some(b) = self.burst_of(req_id) {
            let current = match self.get(b) {
                Some(t) => t.req_id == req_id,
                None => false,
            };
            if current {
                let mut t = self.take_entry(b);
                t.done = true;
                let ghost tv = t@;
                self.put(b, t);
                assert(old(self)@.dropped(b).roi.insert(b, tv) =~= old(self)@.roi.insert(b, tv));
                assert(self@ =~= old(self)@.with_done(req_id));
            }
        }
    }
}

/// News of a request that is not the latest of its burst change no track that
/// the burst has.
pub proof fn stale_news_change_nothing(
    v: TracksView,
    req_id: u64,
    idx: usize,
    p: Point,
    roi_score: Real32,
    coverage: Real32,
    eye: Eye,
)
    requires
        v.burst_of.dom().contains(req_id),
        v.roi.dom().contains(v.burst_of[req_id]),
        v.roi[v.burst_of[req_id]].req_id != req_id,
    ensures
        v.with_point(req_id, idx, p, roi_score, coverage) == v,
        v.with_eye(req_id, idx, p.x, p.y, eye) == v,
        v.with_done(req_id) == v,
{
    let b = v.burst_of[req_id];
    assert(v.roi.insert(b, v.roi[b]) =~= v.roi);
}

/// Numbers stay numbers.
pub proof fn news_keep_numbers(
    v: TracksView,
    req_id: u64,
    idx: usize,
    p: Point,
    roi_score: Real32,
    coverage: Real32,
    eye: Eye,
)
    requires
        v.wf(),
        !roi_score.is_nan_spec(),
        !coverage.is_nan_spec(),
        !eye.acuity.is_nan_spec(),
    ensures
        v.with_point(req_id, idx, p, roi_score, coverage).wf(),
        v.with_eye(req_id, idx, p.x, p.y, eye).wf(),
        v.with_done(req_id).wf(),
{
}

/// News of a point are entered as they came, for their frame of their burst,
/// and change nothing else that is known.
pub proof fn point_news_are_entered(
    v: TracksView,
    b: usize,
    req_id: u64,
    idx: usize,
    p: Point,
    roi_score: Real32,
    coverage: Real32,
    other: usize,
)
    requires
        v.burst_of.dom().contains(req_id),
        v.burst_of[req_id] == b,
        v.roi.dom().contains(b),
        v.roi[b].req_id == req_id,
    ensures
        ({
            let (t, w) = (v.roi[b], v.with_point(req_id, idx, p, roi_score, coverage));
            let u = w.roi[b];
            &&& w.roi.dom() == v.roi.dom()
            &&& u.points.dom().contains(idx) && u.points[idx] == p
            &&& u.roi_scores.dom().contains(idx) && u.roi_scores[idx] == roi_score
            &&& u.coverage.dom().contains(idx) && u.coverage[idx] == coverage
            &&& other != idx ==> (u.points.dom().contains(other) <==> t.points.dom().contains(
                other,
            )) && u.points[other] == t.points[other] && (u.roi_scores.dom().contains(other)
                <==> t.roi_scores.dom().contains(other)) && u.roi_scores[other]
                == t.roi_scores[other] && (u.coverage.dom().contains(other)
                <==> t.coverage.dom().contains(other)) && u.coverage[other] == t.coverage[other]
            &&& u.eyes == t.eyes && u.done == t.done && u.seeds == t.seeds && u.req_id == req_id
            &&& other != b && v.roi.dom().contains(other) ==> w.roi[other] == v.roi[other]
            &&& w.last_id == v.last_id && w.burst_of == v.burst_of
        }),
{
    let w = v.with_point(req_id, idx, p, roi_score, coverage);
    assert(w.roi.dom() =~= v.roi.dom());
}

/// News of a pupil are entered for their frame, whose point moves to the
/// pupil's centre; a confidence that is known stays, else it is 1.
pub proof fn eye_news_are_entered(
    v: TracksView,
    b: usize,
    req_id: u64,
    idx: usize,
    x: Real32,
    y: Real32,
    eye: Eye,
    other: usize,
)
    requires
        v.burst_of.dom().contains(req_id),
        v.burst_of[req_id] == b,
        v.roi.dom().contains(b),
        v.roi[b].req_id == req_id,
    ensures
        ({
            let (t, w) = (v.roi[b], v.with_eye(req_id, idx, x, y, eye));
            let u = w.roi[b];
            &&& w.roi.dom() == v.roi.dom()
            &&& u.eyes.dom().contains(idx) && u.eyes[idx] == eye
            &&& u.points.dom().contains(idx) && u.points[idx].x == x && u.points[idx].y == y
            &&& t.points.dom().contains(idx) ==> u.points[idx].conf == t.points[idx].conf
            &&& !t.points.dom().contains(idx) ==> u.points[idx].conf.bits == 0x3F80_0000
            &&& other != idx ==> (u.points.dom().contains(other) <==> t.points.dom().contains(
                other,
            )) && u.points[other] == t.points[other] && (u.eyes.dom().contains(other)
                <==> t.eyes.dom().contains(other)) && u.eyes[other] == t.eyes[other]
            &&& u.roi_scores == t.roi_scores && u.coverage == t.coverage
            &&& u.done == t.done && u.seeds == t.seeds && u.req_id == req_id
            &&& other != b && v.roi.dom().contains(other) ==> w.roi[other] == v.roi[other]
        }),
{
    let w = v.with_eye(req_id, idx, x, y, eye);
    assert(w.roi.dom() =~= v.roi.dom());
}

/// The end of the latest request of a burst marks its track as done, and
/// nothing else.
pub proof fn the_end_is_marked(v: TracksView, b: usize, req_id: u64, other: usize)
    requires
        v.burst_of.dom().contains(req_id),
        v.burst_of[req_id] == b,
        v.roi.dom().contains(b),
        v.roi[b].req_id == req_id,
    ensures
        ({
            let (t, w) = (v.roi[b], v.with_done(req_id));
            let u = w.roi[b];
            &&& w.roi.dom() == v.roi.dom()
            &&& u.done
            &&& u.points == t.points && u.roi_scores == t.roi_scores && u.coverage == t.coverage
            &&& u.eyes == t.eyes && u.seeds == t.seeds && u.req_id == t.req_id
            &&& other != b && v.roi.dom().contains(other) ==> w.roi[other] == v.roi[other]
        }),
{
    assert(v.with_done(req_id).roi.dom() =~= v.roi.dom());
}

/// A track starts with its pins and nothing measured, under a number that was
/// not used before; news of an earlier request of the burst then change
/// nothing.
pub proof fn a_new_track_starts_from_its_pins(
    v: TracksView,
    b: usize,
    seeds: Seq<Pin>,
    idx: usize,
    old_id: u64,
    p: Point,
    roi_score: Real32,
    coverage: Real32,
    other: usize,
)
    requires
        v.last_id < u64::MAX,
        old_id <= v.last_id,
        v.burst_of.dom().contains(old_id) ==> v.burst_of[old_id] == b,
    ensures
        ({
            let w = v.started(b, seeds);
            let t = w.roi[b];
            &&& w.roi.dom().contains(b)
            &&& t.seeds == seeds && !t.done && t.req_id == v.last_id + 1
            &&& w.last_id == t.req_id
            &&& w.burst_of.dom().contains(t.req_id) && w.burst_of[t.req_id] == b
            &&& !t.points.dom().contains(idx) && !t.roi_scores.dom().contains(idx)
            &&& !t.coverage.dom().contains(idx) && !t.eyes.dom().contains(idx)
            &&& other != b ==> (w.roi.dom().contains(other) <==> v.roi.dom().contains(other))
                && w.roi[other] == v.roi[other]
            &&& w.with_point(old_id, idx, p, roi_score, coverage).roi[b] == t
            &&& w.with_done(old_id).roi[b] == t
        }),
{
}

/// Dropping a track forgets it and no other.
pub proof fn a_dropped_track_is_gone(v: TracksView, b: usize, other: usize)
    ensures
        !v.dropped(b).roi.dom().contains(b),
        other != b ==> (v.dropped(b).roi.dom().contains(other) <==> v.roi.dom().contains(other))
            && v.dropped(b).roi[other] == v.roi[other],
{
}

/// Once a track is done, frames with a measured pupil are ranked by its acuity
/// alone, whatever their overall scores are, and above those without one.
pub proof fn pupils_rank_by_their_acuity(
    scores: Map<usize, Real32>,
    others: Map<usize, Real32>,
    t: RoiView,
    a: usize,
    b: usize,
    c: usize,
)
    requires
        t.done,
        t.eyes.dom().contains(a),
        t.eyes.dom().contains(b),
        !t.eyes.dom().contains(c),
    ensures
        ({
            let key = |id: usize| rank_key(scores, Some(t), SortMode::Sharpness, id);
            &&& key(a).0 && key(b).0 && !key(c).0
            &&& key(a).1.below(key(b).1) <==> t.eyes[a].acuity.below(t.eyes[b].acuity)
            &&& key(a) == rank_key(others, Some(t), SortMode::Sharpness, a)
            &&& scores.dom().contains(c) ==> key(c).1 == scores[c]
        }),
{
}

/// While a track runs, frames that it follows, with a confidence of 0.55 or
/// more, are ranked by their sharpness at the tracked point, above those that
/// it lost or has not reached; and these by their overall sharpness.
pub proof fn followed_frames_rank_by_their_point(
    scores: Map<usize, Real32>,
    t: RoiView,
    id: usize,
)
    requires
        !t.done,
        t.points.dom().contains(id) ==> !t.points[id].conf.is_nan_spec(),
    ensures
        ({
            let key = rank_key(scores, Some(t), SortMode::Sharpness, id);
            let followed = t.points.dom().contains(id) && t.roi_scores.dom().contains(id)
                && t.points[id].conf.place() >= 0x3F0C_CCCD;
            &&& key.0 <==> followed
            &&& followed ==> key.1 == t.roi_scores[id]
            &&& !followed && scores.dom().contains(id) ==> key.1 == scores[id]
            &&& !followed && !scores.dom().contains(id) ==> key.1.bits == 0
        }),
{
}

/// In order of coverage, frames whose focus area was measured at a point that
/// the track is sure of are ranked by their coverage; the others as in order
/// of sharpness, below them where the track is not sure.
pub proof fn sure_points_rank_by_coverage(scores: Map<usize, Real32>, t: RoiView, id: usize)
    requires
        t.points.dom().contains(id) ==> !t.points[id].conf.is_nan_spec(),
    ensures
        ({
            let key = rank_key(scores, Some(t), SortMode::Coverage, id);
            let measured = t.points.dom().contains(id) && t.coverage.dom().contains(id);
            &&& measured && t.points[id].conf.place() >= 0x3F0C_CCCD ==> key == (
                true,
                t.coverage[id],
            )
            &&& measured && t.points[id].conf.place() < 0x3F0C_CCCD ==> !key.0
            &&& !measured ==> key == rank_key(scores, Some(t), SortMode::Sharpness, id)
        }),
{
}

/// Without a track every frame is ranked by its overall sharpness, 0 where it
/// was not scored.
pub proof fn untracked_frames_rank_by_their_score(
    scores: Map<usize, Real32>,
    sort: SortMode,
    id: usize,
)
    ensures
        rank_key(scores, None, sort, id).0,
        scores.dom().contains(id) ==> rank_key(scores, None, sort, id).1 == scores[id],
        !scores.dom().contains(id) ==> rank_key(scores, None, sort, id).1.bits == 0,
{
}

} // verus!
