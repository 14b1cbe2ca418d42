//! The culling session: bursts on screen, what is decided about them, and
//! the single place where an action takes effect.

use vstd::prelude::*;
use std::collections::HashMap;
use crate::action::{Action, SortMode};
use crate::burst;
use crate::burst::{Burst, LogicalImage};
use crate::formats::Source;
use crate::marks;
use crate::marks::{Flag, ImgState, Marks};
use crate::meta;
use crate::meta::FileMeta;
use crate::pipeline;
use crate::pipeline::{Pin, TrackRequest};
use crate::roi;
use crate::roi::Tracks;
use crate::single::Real32;
use crate::sort;
use crate::sort::Ranking;

verus! {

/// How many frames of a burst are kept when its top is accepted.
pub const AUTO_PICK_N: usize = 2;

/// Burst grouping gap, in hundredths of a second.
pub const GAP_CENTIS: i64 = 60;

/// Highest rating.
pub const MAX_RATING: u8 = 5;

/// What is on screen.
#[derive(Debug, Clone, Copy, PartialEq, Eq, Structural)]
pub enum Screen {
    Overview,
    Burst { b: usize, frame: usize },
}

/// A pending action that needs confirmation before it runs.
#[derive(Debug, Clone, Copy, PartialEq, Eq, Structural)]
pub enum Confirm {
    RejectAll { b: usize },
}

/// The small change of the session: what is shown, and how.
#[derive(Debug, Clone, Copy)]
pub struct Look {
    pub screen: Screen,
    /// Burst under the cursor of the overview.
    pub cursor: usize,
    pub sort: SortMode,
    /// What previews, scores and tracks are computed from.
    pub source: Source,
    /// Magnification relative to native pixels; `None` fits the window.
    pub zoom: Option<Real32>,
    /// Inspection mode: full-resolution JPEG at 1:1, centred on the tracked
    /// focus point of each frame.
    pub inspect: bool,
    /// Offset of the magnified image.
    pub pan: (Real32, Real32),
    /// Focus measuring area half-size, fraction of the long edge.
    pub roi_frac: Real32,
    /// Display-only brightening.
    pub brighten: bool,
    /// Display-only focus peaking overlay.
    pub peaking: bool,
    /// Use the camera's eye-AF frames as focus points.
    pub use_af: bool,
    pub harvest_open: bool,
    pub show_help: bool,
    pub show_about: bool,
    pub confirm: Option<Confirm>,
    /// Whether there is something to save.
    pub dirty: bool,
}

/// A culling session.
pub struct Cull {
    pub metas: Vec<FileMeta>,
    /// Logical images (RAW+JPEG paired); a picture's id is its primary meta
    /// index.
    pub images: Vec<LogicalImage>,
    pub bursts: Vec<Burst>,
    pub marks: Marks,
    /// Overall sharpness by picture.
    pub scores: HashMap<usize, Real32>,
    pub tracks: Tracks,
    /// Pins read from the session file, applied when their burst is opened.
    pub pending_pins: HashMap<usize, (Real32, Real32)>,
    pub look: Look,
}

/// The value of a `Cull`.
#[verifier::ext_equal]
pub struct CullView {
    pub metas: Seq<FileMeta>,
    pub images: Seq<LogicalImage>,
    pub bursts: Seq<Seq<LogicalImage>>,
    pub marks: marks::MarksView,
    pub scores: Map<usize, Real32>,
    pub tracks: roi::TracksView,
    pub pending: Map<usize, (Real32, Real32)>,
    pub look: Look,
}

impl View for Cull {
    type V = CullView;

    open spec fn view(&self) -> CullView {
        CullView {
            metas: self.metas@,
            images: self.images@,
            bursts: burst::burst_views(self.bursts@),
            marks: self.marks@,
            scores: self.scores@,
            tracks: self.tracks@,
            pending: self.pending_pins@,
            look: self.look,
        }
    }
}

impl CullView {
    /// Every burst has pictures, all of them scanned and none of them twice;
    /// what is on screen is there; what frames are ranked by are numbers.
    pub open spec fn wf(self) -> bool {
        &&& burst::valid_images(self.images, self.metas.len() as int)
        &&& forall|b: int|
            0 <= b < self.bursts.len() ==> (#[trigger] self.bursts[b]).len() > 0 && burst::valid_images(
                self.bursts[b],
                self.metas.len() as int,
            )
        &&& forall|b: int|
            0 <= b < self.bursts.len() ==> burst::told_apart(#[trigger] self.bursts[b])
        &&& self.bursts.len() <= usize::MAX
        &&& forall|b: int| 0 <= b < self.bursts.len() ==> (#[trigger] self.bursts[b]).len() <= usize::MAX
        &&& marks::no_blanks(self.marks.state)
        &&& roi::all_numbers(self.scores)
        &&& self.tracks.wf()
        &&& self.look.cursor < self.bursts.len() || self.look.cursor == 0
        &&& match self.look.screen {
            Screen::Overview => true,
            Screen::Burst { b, frame } => b < self.bursts.len() && frame
                < self.bursts[b as int].len(),
        }
    }

    /// Id of frame `k` of burst `b`, in capture order.
    pub open spec fn id(self, b: int, k: int) -> usize {
        self.bursts[b][k].lead()
    }

    /// Ids of the frames of burst `b`, in capture order.
    pub open spec fn ids(self, b: int) -> Seq<usize> {
        Seq::new(self.bursts[b].len(), |k: int| self.id(b, k))
    }

    /// What has been decided about picture `id`.
    pub open spec fn state(self, id: usize) -> ImgState {
        marks::state_of(self.marks.state, id)
    }

    /// Whether every frame of burst `b` is picked or rejected.
    pub open spec fn culled(self, b: int) -> bool {
        forall|k: int|
            0 <= k < self.bursts[b].len() ==> self.state(#[trigger] self.id(b, k)).flag
                != Flag::Unrated
    }

    /// What the frames of burst `b` are ranked by under a sort mode, in capture
    /// order.
    pub open spec fn keys(self, b: int, sort: SortMode) -> Seq<(bool, Real32)> {
        Seq::new(
            self.bursts[b].len(),
            |k: int|
                roi::rank_key(
                    self.scores,
                    self.tracks.track(b as usize),
                    sort,
                    self.id(b, k),
                ),
        )
    }

    /// Frame display order of burst `b` under the current sort mode.
    pub open spec fn order(self, b: int) -> Seq<usize> {
        if self.look.sort == SortMode::Time {
            Seq::new(self.bursts[b].len(), |k: int| k as usize)
        } else {
            ranking(self.keys(b, self.look.sort))
        }
    }

    /// The picture under the cursor, if a burst is open.
    pub open spec fn current(self) -> Option<usize> {
        match self.look.screen {
            Screen::Overview => None,
            Screen::Burst { b, frame } => Some(
                self.id(b as int, self.order(b as int)[frame as int] as int),
            ),
        }
    }
}

/// Whether a frame with key `x` ranks before one with key `y`.
pub open spec fn outranks(x: (bool, Real32), y: (bool, Real32)) -> bool {
    (x.0 && !y.0) || (x.0 == y.0 && y.1.below(x.1))
}

/// Whether `s` lists the positions of `keys` from the best to the worst, those
/// that rank alike in their order.
pub open spec fn is_ranking(keys: Seq<(bool, Real32)>, s: Seq<usize>) -> bool {
    &&& s.len() == keys.len()
    &&& forall|i: int| 0 <= i < s.len() ==> 0 <= #[trigger] s[i] < keys.len()
    &&& forall|p: int| 0 <= p < keys.len() ==> #[trigger] s.contains(p as usize)
    &&& forall|i: int, j: int|
        0 <= i < j < s.len() ==> {
            let (x, y) = (keys[#[trigger] s[i] as int], keys[#[trigger] s[j] as int]);
            outranks(x, y) || (!outranks(y, x) && s[i] < s[j])
        }
}

/// The positions of `keys` from the best to the worst.
pub open spec fn ranking(keys: Seq<(bool, Real32)>) -> Seq<usize> {
    choose|s: Seq<usize>| is_ranking(keys, s)
}

/// Order of frames by what they are ranked by.
struct ByKey<'a> {
    keys: &'a Vec<(bool, Real32)>,
}

impl<'a> Ranking for ByKey<'a> {
    closed spec fn ahead(&self, a: int, b: int) -> bool {
        outranks(self.keys@[a], self.keys@[b])
    }

    closed spec fn has(&self, a: int) -> bool {
        0 <= a < self.keys@.len() && !self.keys@[a].1.is_nan_spec()
    }

    proof fn is_order(&self, a: int, b: int, c: int) {
    }

    fn is_ahead(&self, a: usize, b: usize) -> (r: bool) {
        let (x, y) = (self.keys[a], self.keys[b]);
        (x.0 && !y.0) || (x.0 == y.0 && y.1.lt(&x.1))
    }
}

/// The positions of `keys` from the best to the worst.
pub fn rank_by_score(keys: &Vec<(bool, Real32)>) -> (r: Vec<usize>)
    requires
        forall|k: int| 0 <= k < keys@.len() ==> !(#[trigger] keys@[k]).1.is_nan_spec(),
    ensures
        r@ == ranking(keys@),
        is_ranking(keys@, r@),
{
    let n: usize = keys.len();
    let by = ByKey { keys };
    let s = sort::sorted_positions(&by, 0, n);
    proof {
        lemma_is_ranking(&by, s@);
        let t = ranking(keys@);
        lemma_is_sorted(&by, t);
        sort::stable_order_is_unique(&by, s@, t, 0, n as int);
    }
    s
}

proof fn lemma_is_ranking(by: &ByKey, s: Seq<usize>)
    requires
        sort::is_sorted(by, s, 0, by.keys@.len() as int),
    ensures
        is_ranking(by.keys@, s),
{
    assert forall|i: int, j: int| 0 <= i < j < s.len() implies {
        let (x, y) = (by.keys@[#[trigger] s[i] as int], by.keys@[#[trigger] s[j] as int]);
        outranks(x, y) || (!outranks(y, x) && s[i] < s[j])
    } by {
        assert(sort::precedes(by, s[i] as int, s[j] as int));
    }
}

proof fn lemma_is_sorted(by: &ByKey, s: Seq<usize>)
    requires
        is_ranking(by.keys@, s),
    ensures
        sort::is_sorted(by, s, 0, by.keys@.len() as int),
{
}

/// Where `x` belongs among the first `k` of `s`: after those that it does not
/// outrank.
spec fn place_for(keys: Seq<(bool, Real32)>, s: Seq<usize>, x: (bool, Real32), k: int) -> int
    decreases k,
{
    if k <= 0 {
        0
    } else if outranks(x, keys[s[k - 1] as int]) {
        place_for(keys, s, x, k - 1)
    } else {
        k
    }
}

proof fn lemma_place_for(keys: Seq<(bool, Real32)>, s: Seq<usize>, x: (bool, Real32), k: int)
    requires
        0 <= k <= s.len(),
    ensures
        0 <= place_for(keys, s, x, k) <= k,
        forall|i: int|
            place_for(keys, s, x, k) <= i < k ==> outranks(x, keys[#[trigger] s[i] as int]),
        place_for(keys, s, x, k) > 0 ==> !outranks(
            x,
            keys[s[place_for(keys, s, x, k) - 1] as int],
        ),
    decreases k,
{
    if k > 0 && outranks(x, keys[s[k - 1] as int]) {
        lemma_place_for(keys, s, x, k - 1);
    }
}

proof fn lemma_ranking_exists(keys: Seq<(bool, Real32)>)
    requires
        keys.len() <= usize::MAX,
        forall|k: int| 0 <= k < keys.len() ==> !(#[trigger] keys[k]).1.is_nan_spec(),
    ensures
        is_ranking(keys, ranking(keys)),
    decreases keys.len(),
{
    if keys.len() == 0 {
        assert(is_ranking(keys, Seq::empty()));
    } else {
        let n = keys.len() as int;
        let init = keys.drop_last();
        let x = keys.last();
        lemma_ranking_exists(init);
        let s = ranking(init);
        let p = place_for(init, s, x, n - 1);
        lemma_place_for(init, s, x, n - 1);
        let t = s.insert(p, (n - 1) as usize);
        assert forall|i: int| 0 <= i < p implies !outranks(x, init[#[trigger] s[i] as int]) by {
            if i < p - 1 {
                let (y, z) = (init[s[i] as int], init[s[p - 1] as int]);
                assert(outranks(y, z) || (!outranks(z, y) && s[i] < s[p - 1]));
            }
        }
        assert forall|i: int| 0 <= i < n implies #[trigger] t[i] == (if i < p {
            s[i]
        } else if i == p {
            (n - 1) as usize
        } else {
            s[i - 1]
        }) by {}
        assert forall|i: int| 0 <= i < t.len() implies 0 <= #[trigger] t[i] < keys.len() by {
            if i < p {
                assert(0 <= s[i] < init.len());
            } else if i > p {
                assert(0 <= s[i - 1] < init.len());
            }
        }
        assert forall|q: int| 0 <= q < keys.len() implies #[trigger] t.contains(q as usize) by {
            if q == n - 1 {
                assert(t[p] == q as usize);
            } else {
                assert(s.contains(q as usize));
                let i = choose|i: int| 0 <= i < s.len() && s[i] == q as usize;
                if i < p {
                    assert(t[i] == q as usize);
                } else {
                    assert(t[i + 1] == q as usize);
                }
            }
        }
        assert forall|i: int, j: int| 0 <= i < j < t.len() implies {
            let (y, z) = (keys[#[trigger] t[i] as int], keys[#[trigger] t[j] as int]);
            outranks(y, z) || (!outranks(z, y) && t[i] < t[j])
        } by {
            let a = if i < p {
                i
            } else {
                i - 1
            };
            let b = if j < p {
                j
            } else {
                j - 1
            };
            if i == p {
                assert(outranks(x, init[s[b] as int]));
            } else if j == p {
                assert(!outranks(x, init[s[a] as int]));
            } else {
                let (y, z) = (init[s[a] as int], init[s[b] as int]);
                assert(outranks(y, z) || (!outranks(z, y) && s[a] < s[b]));
            }
        }
        assert(is_ranking(keys, t));
    }
}

/// The frames of every burst can be ranked under every sort mode.
pub proof fn frames_can_be_ranked(v: CullView, b: int, sort: SortMode)
    requires
        v.wf(),
        0 <= b < v.bursts.len(),
    ensures
        is_ranking(v.keys(b, sort), ranking(v.keys(b, sort))),
{
    assert(v.bursts[b].len() <= usize::MAX);
    lemma_ranking_exists(v.keys(b, sort));
}

/// A frame of the upper tier ranks before every frame of the lower one:
/// frames where the track was lost come last.
pub proof fn upper_tier_ranks_first(keys: Seq<(bool, Real32)>, s: Seq<usize>, i: int, j: int)
    requires
        is_ranking(keys, s),
        0 <= i < s.len(),
        0 <= j < s.len(),
        keys[s[i] as int].0,
        !keys[s[j] as int].0,
    ensures
        i < j,
{
    if j < i {
        let (x, y) = (keys[s[j] as int], keys[s[i] as int]);
        assert(outranks(x, y) || (!outranks(y, x) && s[j] < s[i]));
    }
}

impl CullView {
    /// The first burst after `from` that is not culled, wrapping around, among
    /// those at distance `d` and further.
    pub open spec fn unculled_from(self, from: int, d: int) -> Option<usize>
        decreases self.bursts.len() + 1 - d,
    {
        let n = self.bursts.len() as int;
        if d > n {
            None
        } else if !self.culled((from + d) % n) {
            Some(((from + d) % n) as usize)
        } else {
            self.unculled_from(from, d + 1)
        }
    }

    /// The next burst after `from` that is not culled, `from` itself last.
    pub open spec fn next_unculled(self, from: int) -> Option<usize> {
        self.unculled_from(from, 1)
    }

    /// Whether the camera gives an eye point on a frame of burst `b`.
    pub open spec fn has_eye(self, b: int) -> bool {
        exists|k: int|
            0 <= k < self.bursts[b].len() && meta::eye_box(
                self.metas[#[trigger] self.id(b, k) as int]@,
            ) is Some
    }

    /// Whether an action applies right now.
    pub open spec fn enabled(self, a: Action) -> bool {
        let in_burst = self.look.screen is Burst;
        let has_bursts = self.bursts.len() > 0;
        match a {
            Action::OpenFolder
            | Action::OpenRecipe
            | Action::Quit
            | Action::ToggleHelp
            | Action::ShowAbout
            | Action::ToggleSort
            | Action::SetSort(_)
            | Action::SetSource(_)
            | Action::ToggleBrighten
            | Action::TogglePeaking
            | Action::ToggleAfPins => true,
            Action::SaveSession => !(self.marks.state =~= Map::<usize, ImgState>::empty()),
            Action::Harvest
            | Action::NextUnculled
            | Action::NavLeft
            | Action::NavRight
            | Action::NavUp
            | Action::NavDown => has_bursts,
            Action::Undo => self.marks.undo.len() > 0,
            Action::Pick
            | Action::Reject
            | Action::ClearFlag
            | Action::Rate(_)
            | Action::RateUp
            | Action::RateDown
            | Action::BackToOverview
            | Action::AcceptTop
            | Action::RejectAll
            | Action::ToggleZoom
            | Action::ToggleInspect => in_burst,
            Action::OpenBurst => has_bursts && !in_burst,
            Action::ClearTrack => match self.look.screen {
                Screen::Burst { b, .. } => self.tracks.track(b) is Some,
                Screen::Overview => false,
            },
            Action::Unpin => match self.look.screen {
                Screen::Burst { b, .. } => pipeline::is_pinned(
                    self.tracks.seeds(b),
                    self.current()->0,
                ),
                Screen::Overview => false,
            },
        }
    }
}

impl Cull {
    /// What has been decided about picture `id`.
    pub fn img_state(&self, id: usize) -> (r: ImgState)
        ensures
            r == self@.state(id),
    {
        self.marks.img_state(id)
    }

    fn id(&self, b: usize, k: usize) -> (r: usize)
        requires
            self@.wf(),
            b < self@.bursts.len(),
            k < self@.bursts[b as int].len(),
        ensures
            r == self@.id(b as int, k as int),
            r < self@.metas.len(),
    {
        proof {
            assert(self@.bursts[b as int] == self.bursts@[b as int].images@);
            assert(self@.bursts[b as int][k as int].wf());
        }
        self.bursts[b].images[k].primary()
    }

    fn frames_in(&self, b: usize) -> (r: usize)
        requires
            b < self@.bursts.len(),
        ensures
            r == self@.bursts[b as int].len(),
    {
        self.bursts[b].images.len()
    }

    /// Ids of the frames of burst `b`, in capture order.
    pub fn ids(&self, b: usize) -> (r: Vec<usize>)
        requires
            self@.wf(),
            b < self@.bursts.len(),
        ensures
            r@ == self@.ids(b as int),
    {
        let n = self.frames_in(b);
        let mut out: Vec<usize> = Vec::new();
        let mut k: usize = 0;
        while k < n
            invariant
                self@.wf(),
                b < self@.bursts.len(),
                n == self@.bursts[b as int].len(),
                k <= n,
                out@ == self@.ids(b as int).take(k as int),
            decreases n - k,
        {
            out.push(self.id(b, k));
            k += 1;
            assert(out@ =~= self@.ids(b as int).take(k as int));
        }
        assert(out@ =~= self@.ids(b as int));
        out
    }

    /// Whether every frame of burst `b` is picked or rejected.
    pub fn burst_culled(&self, b: usize) -> (r: bool)
        requires
            self@.wf(),
            b < self@.bursts.len(),
        ensures
            r == self@.culled(b as int),
    {
        let n = self.frames_in(b);
        let mut k: usize = 0;
        while k < n
            invariant
                self@.wf(),
                b < self@.bursts.len(),
                n == self@.bursts[b as int].len(),
                k <= n,
                forall|j: int|
                    0 <= j < k ==> self@.state(#[trigger] self@.id(b as int, j)).flag != Flag::Unrated,
            decreases n - k,
        {
            let id = self.id(b, k);
            if self.img_state(id).flag == Flag::Unrated {
                assert(self@.state(self@.id(b as int, k as int)).flag == Flag::Unrated);
                return false;
            }
            k += 1;
        }
        true
    }

    /// What the frames of burst `b` are ranked by under a sort mode, in capture
    /// order.
    fn keys(&self, b: usize, sort: SortMode) -> (r: Vec<(bool, Real32)>)
        requires
            self@.wf(),
            b < self@.bursts.len(),
        ensures
            r@ == self@.keys(b as int, sort),
            forall|k: int| 0 <= k < r@.len() ==> !(#[trigger] r@[k]).1.is_nan_spec(),
    {
        let n = self.frames_in(b);
        let t = self.tracks.get(b);
        let mut out: Vec<(bool, Real32)> = Vec::new();
        let mut k: usize = 0;
        while k < n
            invariant
                self@.wf(),
                b < self@.bursts.len(),
                n == self@.bursts[b as int].len(),
                k <= n,
                roi::track_view(t) == self@.tracks.track(b),
                out@ == self@.keys(b as int, sort).take(k as int),
                forall|j: int| 0 <= j < k ==> !(#[trigger] out@[j]).1.is_nan_spec(),
            decreases n - k,
        {
            let id = self.id(b, k);
            out.push(roi::effective_score(&self.scores, t, sort, id));
            k += 1;
            assert(out@ =~= self@.keys(b as int, sort).take(k as int));
        }
        assert(out@ =~= self@.keys(b as int, sort));
        out
    }

    /// Frame display order for a burst under the current sort mode.
    pub fn order(&self, b: usize) -> (r: Vec<usize>)
        requires
            self@.wf(),
            b < self@.bursts.len(),
        ensures
            r@ == self@.order(b as int),
            r@.len() == self@.bursts[b as int].len(),
            forall|k: int| 0 <= k < r@.len() ==> (#[trigger] r@[k]) < self@.bursts[b as int].len(),
    {
        if self.look.sort == SortMode::Time {
            let n = self.frames_in(b);
            let mut out: Vec<usize> = Vec::new();
            let mut k: usize = 0;
            while k < n
                invariant
                    k <= n,
                    out@.len() == k,
                    forall|j: int| 0 <= j < k ==> (#[trigger] out@[j]) == j,
                decreases n - k,
            {
                out.push(k);
                k += 1;
            }
            assert(out@ =~= self@.order(b as int));
            return out;
        }
        let keys = self.keys(b, self.look.sort);
        rank_by_score(&keys)
    }

    /// Meta index of the logical image under the cursor, if a burst is open.
    pub fn current_id(&self) -> (r: Option<usize>)
        requires
            self@.wf(),
        ensures
            r == self@.current(),
    {
        match self.look.screen {
            Screen::Overview => None,
            Screen::Burst { b, frame } => {
                let order = self.order(b);
                Some(self.id(b, order[frame]))
            },
        }
    }

    /// The next burst after `from` that is not culled, `from` itself last.
    pub fn next_unculled(&self, from: usize) -> (r: Option<usize>)
        requires
            self@.wf(),
            from < self@.bursts.len() || from == 0,
        ensures
            r == self@.next_unculled(from as int),
            r matches Some(b) ==> b < self@.bursts.len() && !self@.culled(b as int),
    {
        let n = self.bursts.len();
        let mut d: usize = 1;
        if n == 0 {
            return None;
        }
        // the burst at distance d
        let mut b: usize = if from + 1 < n {
            from + 1
        } else {
            0
        };
        assert(b == (from + 1) % n as int) by {
            if from + 1 < n {
                vstd::arithmetic::div_mod::lemma_small_mod((from + 1) as nat, n as nat);
            } else {
                assert(from + 1 == n);
                vstd::arithmetic::div_mod::lemma_mod_self_0(n as int);
            }
        }
        while d <= n
            invariant
                self@.wf(),
                from < n,
                n == self@.bursts.len(),
                1 <= d <= n + 1,
                b < n,
                d <= n ==> b == (from + d) % n as int,
                self@.next_unculled(from as int) == self@.unculled_from(from as int, d as int),
            decreases n + 1 - d,
        {
            if !self.burst_culled(b) {
                return Some(b);
            }
            if d == n {
                assert(self@.unculled_from(from as int, d + 1) is None);
                return None;
            }
            proof {
                let x = (from + d) as int;
                vstd::arithmetic::div_mod::lemma_add_mod_noop(x, 1, n as int);
                if n > 1 {
                    vstd::arithmetic::div_mod::lemma_small_mod(1, n as nat);
                }
                if b + 1 < n {
                    vstd::arithmetic::div_mod::lemma_small_mod((b + 1) as nat, n as nat);
                } else {
                    vstd::arithmetic::div_mod::lemma_mod_self_0(n as int);
                }
            }
            b = if b + 1 < n {
                b + 1
            } else {
                0
            };
            d += 1;
        }
        None
    }

    fn has_eye(&self, b: usize) -> (r: bool)
        requires
            self@.wf(),
            b < self@.bursts.len(),
        ensures
            r == self@.has_eye(b as int),
    {
        let n = self.frames_in(b);
        let mut k: usize = 0;
        while k < n
            invariant
                self@.wf(),
                b < self@.bursts.len(),
                n == self@.bursts[b as int].len(),
                k <= n,
                forall|j: int|
                    0 <= j < k ==> meta::eye_box(self@.metas[#[trigger] self@.id(b as int, j) as int]@)
                        is None,
            decreases n - k,
        {
            let id = self.id(b, k);
            if self.metas[id].af_box_eye().is_some() {
                assert(self@.id(b as int, k as int) == id);
                return true;
            }
            k += 1;
        }
        false
    }

    /// Whether an action applies right now. Drives greying-out, so the menus
    /// show what exists even when it is momentarily unavailable.
    pub fn enabled(&self, a: Action) -> (r: bool)
        requires
            self@.wf(),
        ensures
            r == self@.enabled(a),
    {
        let in_burst = match self.look.screen {
            Screen::Burst { .. } => true,
            Screen::Overview => false,
        };
        let has_bursts = self.bursts.len() > 0;
        match a {
            Action::OpenFolder
            | Action::OpenRecipe
            | Action::Quit
            | Action::ToggleHelp
            | Action::ShowAbout
            | Action::ToggleSort
            | Action::SetSort(_)
            | Action::SetSource(_)
            | Action::ToggleBrighten
            | Action::TogglePeaking
            | Action::ToggleAfPins => true,
            Action::SaveSession => !self.marks.is_empty(),
            Action::Harvest => has_bursts,
            Action::Undo => self.marks.undo.len() > 0,
            Action::Pick
            | Action::Reject
            | Action::ClearFlag
            | Action::Rate(_)
            | Action::RateUp
            | Action::RateDown => in_burst,
            Action::OpenBurst => has_bursts && !in_burst,
            Action::BackToOverview => in_burst,
            Action::NextUnculled => has_bursts,
            Action::NavLeft | Action::NavRight | Action::NavUp | Action::NavDown => has_bursts,
            Action::AcceptTop
            | Action::RejectAll
            | Action::ToggleZoom
            | Action::ToggleInspect => in_burst,
            Action::ClearTrack => match self.look.screen {
                Screen::Burst { b, .. } => self.tracks.has(b),
                Screen::Overview => false,
            },
            Action::Unpin => match (self.look.screen, self.current_id()) {
                (Screen::Burst { b, .. }, Some(id)) => self.tracks.is_pinned(b, id),
                _ => false,
            },
        }
    }
}

/// Wherever a burst is left to cull, one is found.
pub proof fn an_unculled_burst_is_found(v: CullView, from: int, b: int)
    requires
        0 <= from < v.bursts.len(),
        0 <= b < v.bursts.len(),
        !v.culled(b),
    ensures
        v.next_unculled(from) is Some,
{
    let n = v.bursts.len() as int;
    let d = if b > from {
        b - from
    } else {
        b - from + n
    };
    assert((from + d) % n == b) by {
        if b > from {
            vstd::arithmetic::div_mod::lemma_small_mod(b as nat, n as nat);
        } else {
            vstd::arithmetic::div_mod::lemma_mod_add_multiples_vanish(b, n);
            vstd::arithmetic::div_mod::lemma_small_mod(b as nat, n as nat);
        }
    }
    lemma_found(v, from, 1, d);
}

proof fn lemma_found(v: CullView, from: int, d: int, at: int)
    requires
        1 <= d <= at <= v.bursts.len(),
        !v.culled((from + at) % (v.bursts.len() as int)),
    ensures
        v.unculled_from(from, d) is Some,
    decreases at - d,
{
    if d < at {
        lemma_found(v, from, d + 1, at);
    }
}

/// What the caller has to do beyond the session itself.
pub enum Effect {
    Nothing,
    /// Ask for a folder and open it.
    PickFolder,
    /// Ask for a recipe file and review it.
    PickRecipe,
    /// Write the session file.
    Save,
    Quit,
    /// Open the folder again, with a fresh engine.
    Reopen,
    /// Decode what is on screen again.
    Redecode,
    /// Start a track.
    Track(TrackRequest),
}

/// The value of an `Effect`.
pub enum EffectView {
    Nothing,
    PickFolder,
    PickRecipe,
    Save,
    Quit,
    Reopen,
    Redecode,
    Track(roi::RequestView),
}

impl View for Effect {
    type V = EffectView;

    open spec fn view(&self) -> EffectView {
        match *self {
            Effect::Nothing => EffectView::Nothing,
            Effect::PickFolder => EffectView::PickFolder,
            Effect::PickRecipe => EffectView::PickRecipe,
            Effect::Save => EffectView::Save,
            Effect::Quit => EffectView::Quit,
            Effect::Reopen => EffectView::Reopen,
            Effect::Redecode => EffectView::Redecode,
            Effect::Track(req) => EffectView::Track(req@),
        }
    }
}

/// No offset.
pub open spec fn no_pan() -> (Real32, Real32) {
    (Real32 { bits: roi::ZERO }, Real32 { bits: roi::ZERO })
}

/// The saved pins of the first `k` of the frames `ids`, and what is left of
/// the saved pins.
pub open spec fn taken_pins(
    pending: Map<usize, (Real32, Real32)>,
    ids: Seq<usize>,
    k: int,
) -> (Seq<Pin>, Map<usize, (Real32, Real32)>)
    decreases k,
{
    if k <= 0 {
        (Seq::empty(), pending)
    } else {
        let (pins, rest) = taken_pins(pending, ids, k - 1);
        let id = ids[k - 1];
        if rest.dom().contains(id) {
            (pins.push(Pin { frame: id, x: rest[id].0, y: rest[id].1 }), rest.remove(id))
        } else {
            (pins, rest)
        }
    }
}

impl CullView {
    /// The session after a change of marks that can be taken back.
    pub open spec fn changed(self, changes: Seq<(usize, ImgState)>) -> CullView {
        CullView {
            marks: marks::applied(self.marks, changes),
            look: Look { dirty: true, ..self.look },
            ..self
        }
    }

    /// The session after the last change is taken back.
    pub open spec fn undone(self) -> CullView {
        if self.marks.undo.len() == 0 {
            self
        } else {
            CullView {
                marks: marks::undone(self.marks),
                look: Look { dirty: true, ..self.look },
                ..self
            }
        }
    }

    /// Picks the best `top` frames of burst `b` by sharpness, whatever the sort
    /// mode, and rejects the rest, as a change.
    pub open spec fn best_changes(self, b: int, top: int) -> Seq<(usize, ImgState)> {
        let order = ranking(self.keys(b, SortMode::Sharpness));
        Seq::new(
            self.bursts[b].len(),
            |k: int|
                {
                    let id = self.id(b, order[k] as int);
                    let flag = if k < top {
                        Flag::Picked
                    } else {
                        Flag::Rejected
                    };
                    (id, ImgState { flag, ..self.state(id) })
                },
        )
    }

    /// Picks the usual number of best frames of burst `b` and rejects the
    /// rest, as a change.
    pub open spec fn top_changes(self, b: int) -> Seq<(usize, ImgState)> {
        self.best_changes(b, AUTO_PICK_N as int)
    }

    /// Rejects every frame of burst `b`, as a change.
    pub open spec fn reject_changes(self, b: int) -> Seq<(usize, ImgState)> {
        Seq::new(
            self.bursts[b].len(),
            |k: int|
                (
                    self.id(b, k),
                    ImgState { flag: Flag::Rejected, ..self.state(self.id(b, k)) },
                ),
        )
    }

    /// The session with frame `frame`, or the last one, of burst `b` on screen.
    pub open spec fn at_frame(self, b: int, frame: int) -> CullView {
        let last = self.bursts[b].len() - 1;
        let screen = Screen::Burst {
            b: b as usize,
            frame: (if frame < last {
                frame
            } else {
                last
            }) as usize,
        };
        CullView { look: Look { screen, ..self.look }, ..self }
    }

    /// The session after burst `b`'s track is started (again) from `seeds`.
    pub open spec fn track_run(self, b: int, seeds: Seq<Pin>) -> (CullView, EffectView) {
        let v = CullView {
            tracks: self.tracks.started(b as usize, seeds),
            look: Look { dirty: true, ..self.look },
            ..self
        };
        (
            v,
            EffectView::Track(
                roi::RequestView {
                    req_id: v.tracks.last_id,
                    frames: self.ids(b),
                    seeds,
                    roi_frac: self.look.roi_frac,
                    use_af: self.look.use_af,
                },
            ),
        )
    }

    /// The session after burst `b`'s track is started from its saved pins and
    /// the camera's eye frames, if it has any and no track exists yet.
    pub open spec fn auto_tracked(self, b: int) -> (CullView, EffectView) {
        if self.tracks.track(b as usize) is Some {
            (self, EffectView::Nothing)
        } else {
            let (pins, rest) = taken_pins(self.pending, self.ids(b), self.bursts[b].len() as int);
            let v = CullView { pending: rest, ..self };
            if pins.len() > 0 || (self.look.use_af && self.has_eye(b)) {
                v.track_run(b, pins)
            } else {
                (v, EffectView::Nothing)
            }
        }
    }

    /// The session after burst `b` is opened. The zoom level and inspect mode
    /// carry over so a zoomed comparison continues in the next burst; the pan
    /// recentres.
    pub open spec fn entered(self, b: int) -> (CullView, EffectView) {
        let v = CullView {
            look: Look {
                screen: Screen::Burst { b: b as usize, frame: 0 },
                pan: no_pan(),
                ..self.look
            },
            ..self
        };
        v.auto_tracked(b)
    }

    /// The session after the user's pin on frame `id` of burst `b` is taken
    /// away: the frame goes back to the camera's eye point, or to tracking
    /// from the remaining pins.
    pub open spec fn unpinned(self, b: int, id: usize) -> (CullView, EffectView) {
        let seeds = roi::without_frame(self.tracks.seeds(b as usize), id);
        if seeds.len() == 0 && !(self.look.use_af && self.has_eye(b)) {
            (
                CullView {
                    tracks: self.tracks.dropped(b as usize),
                    look: Look { dirty: true, ..self.look },
                    ..self
                },
                EffectView::Nothing,
            )
        } else {
            self.track_run(b, seeds)
        }
    }

    /// The session after the point is pinned on frame `id` of burst `b`, in
    /// place of an earlier pin on that frame.
    pub open spec fn pinned(self, b: int, id: usize, x: Real32, y: Real32) -> (CullView, EffectView) {
        self.track_run(
            b,
            roi::without_frame(self.tracks.seeds(b as usize), id).push(Pin { frame: id, x, y }),
        )
    }

    /// The session after the measuring area is resized: the burst's track, if
    /// it has one, is run again.
    pub open spec fn resized(self, b: int, roi_frac: Real32) -> (CullView, EffectView) {
        let v = CullView { look: Look { roi_frac, ..self.look }, ..self };
        match self.tracks.track(b as usize) {
            Some(t) => v.track_run(b, t.seeds),
            None => (v, EffectView::Nothing),
        }
    }

    /// The session after the current frame is flagged; picks and rejects
    /// advance, clearing does not.
    pub open spec fn flagged(self, flag: Flag) -> CullView {
        match self.look.screen {
            Screen::Overview => self,
            Screen::Burst { b, frame } => {
                let id = self.current()->0;
                let v = self.changed(seq![(id, ImgState { flag, ..self.state(id) })]);
                if flag == Flag::Unrated {
                    v
                } else {
                    v.at_frame(b as int, frame + 1)
                }
            },
        }
    }

    /// The session after the current picture is rated.
    pub open spec fn rated(self, rating: u8) -> CullView {
        match self.current() {
            None => self,
            Some(id) => self.changed(seq![(id, ImgState { rating, ..self.state(id) })]),
        }
    }
}

impl Cull {
    /// Makes a change of marks that can be taken back.
    pub fn apply(&mut self, changes: Vec<(usize, ImgState)>)
        requires
            old(self)@.wf(),
        ensures
            final(self)@ == old(self)@.changed(changes@),
            final(self)@.wf(),
    {
        proof {
            marks::changes_leave_no_blanks(self@.marks, changes@);
        }
        self.marks.apply(changes);
        self.look.dirty = true;
    }

    /// Takes the last change back.
    pub fn undo_last(&mut self)
        requires
            old(self)@.wf(),
        ensures
            final(self)@ == old(self)@.undone(),
            final(self)@.wf(),
    {
        proof {
            marks::changes_leave_no_blanks(self@.marks, Seq::empty());
        }
        if self.marks.undo_last() {
            self.look.dirty = true;
        }
    }

    /// Picks the best `top` frames of burst `b` by sharpness, whatever the sort
    /// mode, and rejects the rest.
    pub fn accept_best(&mut self, b: usize, top: usize)
        requires
            old(self)@.wf(),
            b < old(self)@.bursts.len(),
        ensures
            final(self)@ == old(self)@.changed(old(self)@.best_changes(b as int, top as int)),
            final(self)@.wf(),
    {
        let keys = self.keys(b, SortMode::Sharpness);
        let order = rank_by_score(&keys);
        let n: usize = order.len();
        let mut changes: Vec<(usize, ImgState)> = Vec::new();
        let mut k: usize = 0;
        while k < n
            invariant
                self@ == old(self)@,
                self@.wf(),
                b < self@.bursts.len(),
                n == self@.bursts[b as int].len(),
                k <= n,
                order@ == ranking(self@.keys(b as int, SortMode::Sharpness)),
                order@.len() == n,
                forall|i: int| 0 <= i < n ==> 0 <= #[trigger] order@[i] < n,
                changes@ == self@.best_changes(b as int, top as int).take(k as int),
            decreases n - k,
        {
            let id = self.id(b, order[k]);
            let mut st = self.img_state(id);
            st.flag = if k < top {
                Flag::Picked
            } else {
                Flag::Rejected
            };
            changes.push((id, st));
            k += 1;
            assert(changes@ =~= self@.best_changes(b as int, top as int).take(k as int));
        }
        assert(changes@ =~= self@.best_changes(b as int, top as int));
        self.apply(changes);
    }

    /// Picks the usual number of best frames of burst `b` and rejects the
    /// rest.
    pub fn accept_burst(&mut self, b: usize)
        requires
            old(self)@.wf(),
            b < old(self)@.bursts.len(),
        ensures
            final(self)@ == old(self)@.changed(old(self)@.top_changes(b as int)),
            final(self)@.wf(),
    {
        self.accept_best(b, AUTO_PICK_N);
    }

    /// Rejects every frame of burst `b`.
    pub fn reject_all(&mut self, b: usize)
        requires
            old(self)@.wf(),
            b < old(self)@.bursts.len(),
        ensures
            final(self)@ == old(self)@.changed(old(self)@.reject_changes(b as int)),
            final(self)@.wf(),
    {
        let n = self.frames_in(b);
        let mut changes: Vec<(usize, ImgState)> = Vec::new();
        let mut k: usize = 0;
        while k < n
            invariant
                self@ == old(self)@,
                self@.wf(),
                b < self@.bursts.len(),
                n == self@.bursts[b as int].len(),
                k <= n,
                changes@ == self@.reject_changes(b as int).take(k as int),
            decreases n - k,
        {
            let id = self.id(b, k);
            let mut st = self.img_state(id);
            st.flag = Flag::Rejected;
            changes.push((id, st));
            k += 1;
            assert(changes@ =~= self@.reject_changes(b as int).take(k as int));
        }
        assert(changes@ =~= self@.reject_changes(b as int));
        self.apply(changes);
    }

    /// Move within a burst. Zoom and pan are kept on purpose: every frame of
    /// a burst has the same dimensions, so the same offset shows the same
    /// spot.
    pub fn goto_frame(&mut self, b: usize, frame: usize)
        requires
            old(self)@.wf(),
            b < old(self)@.bursts.len(),
        ensures
            final(self)@ == old(self)@.at_frame(b as int, frame as int),
            final(self)@.wf(),
    {
        let nf = self.frames_in(b);
        self.look.screen = Screen::Burst {
            b,
            frame: if frame < nf - 1 {
                frame
            } else {
                nf - 1
            },
        };
    }

    /// Flag the current frame; picks and rejects advance, clearing does not.
    pub fn flag_current(&mut self, flag: Flag)
        requires
            old(self)@.wf(),
        ensures
            final(self)@ == old(self)@.flagged(flag),
            final(self)@.wf(),
    {
        if let (Screen::Burst { b, frame }, Some(id)) = (self.look.screen, self.current_id()) {
            let mut st = self.img_state(id);
            st.flag = flag;
            let changes: Vec<(usize, ImgState)> = vec![(id, st)];
            assert(changes@ =~= seq![(id, ImgState { flag, ..self@.state(id) })]);
            self.apply(changes);
            if flag != Flag::Unrated {
                self.goto_frame(b, frame + 1);
            }
        }
    }

    /// Rates the current picture.
    pub fn rate_current(&mut self, rating: u8)
        requires
            old(self)@.wf(),
        ensures
            final(self)@ == old(self)@.rated(rating),
            final(self)@.wf(),
    {
        if let Some(id) = self.current_id() {
            let mut st = self.img_state(id);
            st.rating = rating;
            let changes: Vec<(usize, ImgState)> = vec![(id, st)];
            assert(changes@ =~= seq![(id, ImgState { rating, ..self@.state(id) })]);
            self.apply(changes);
        }
    }

    /// (Re)start the burst's track from the given pins.
    pub fn run_track(&mut self, b: usize, seeds: Vec<Pin>) -> (r: Effect)
        requires
            old(self)@.wf(),
            b < old(self)@.bursts.len(),
            old(self)@.tracks.last_id < u64::MAX,
        ensures
            (final(self)@, r@) == old(self)@.track_run(b as int, seeds@),
            final(self)@.wf(),
    {
        let frames = self.ids(b);
        let sent = roi::copy_pins(&seeds);
        let req_id = self.tracks.start(b, seeds);
        self.look.dirty = true;
        Effect::Track(
            TrackRequest {
                req_id,
                frames,
                seeds: sent,
                roi_frac: self.look.roi_frac,
                use_af: self.look.use_af,
            },
        )
    }

    /// The saved pins of the frames of burst `b`, no longer kept as saved.
    fn take_pins(&mut self, b: usize) -> (r: Vec<Pin>)
        requires
            old(self)@.wf(),
            b < old(self)@.bursts.len(),
        ensures
            ({
                let (pins, rest) = taken_pins(
                    old(self)@.pending,
                    old(self)@.ids(b as int),
                    old(self)@.bursts[b as int].len() as int,
                );
                r@ == pins && final(self)@ == (CullView { pending: rest, ..old(self)@ })
            }),
            final(self)@.wf(),
    {
        broadcast use vstd::std_specs::hash::group_hash_axioms;

        let ids = self.ids(b);
        let n: usize = ids.len();
        let mut pins: Vec<Pin> = Vec::new();
        let mut k: usize = 0;
        while k < n
            invariant
                n == ids@.len(),
                k <= n,
                self@ == (CullView {
                    pending: taken_pins(old(self)@.pending, ids@, k as int).1,
                    ..old(self)@
                }),
                pins@ == taken_pins(old(self)@.pending, ids@, k as int).0,
            decreases n - k,
        {
            broadcast use vstd::std_specs::hash::group_hash_axioms;

            let id: usize = ids[k];
            let ghost rest = self.pending_pins@;
            if let Some((x, y)) = self.pending_pins.remove(&id) {
                pins.push(Pin { frame: id, x, y });
            }
            assert(self.pending_pins@ =~= rest.remove(id));
            assert(!rest.dom().contains(id) ==> rest.remove(id) =~= rest);
            k += 1;
        }
        pins
    }

    /// Start the burst's track from its saved pins and the camera's eye
    /// frames, if it has any and no track exists yet.
    pub fn auto_track(&mut self, b: usize) -> (r: Effect)
        requires
            old(self)@.wf(),
            b < old(self)@.bursts.len(),
            old(self)@.tracks.last_id < u64::MAX,
        ensures
            (final(self)@, r@) == old(self)@.auto_tracked(b as int),
            final(self)@.wf(),
    {
        if self.tracks.has(b) {
            return Effect::Nothing;
        }
        let has_eye = self.has_eye(b);
        let pins = self.take_pins(b);
        if pins.len() > 0 || (self.look.use_af && has_eye) {
            self.run_track(b, pins)
        } else {
            Effect::Nothing
        }
    }

    /// Open a burst.
    pub fn enter_burst(&mut self, b: usize) -> (r: Effect)
        requires
            old(self)@.wf(),
            b < old(self)@.bursts.len(),
            old(self)@.tracks.last_id < u64::MAX,
        ensures
            (final(self)@, r@) == old(self)@.entered(b as int),
            final(self)@.wf(),
    {
        assert(self@.bursts[b as int].len() > 0);
        self.look.screen = Screen::Burst { b, frame: 0 };
        self.look.pan = (Real32 { bits: roi::ZERO }, Real32 { bits: roi::ZERO });
        self.auto_track(b)
    }

    /// Cancel the manual override on one frame: it goes back to the camera's
    /// eye point (or to tracking from the remaining pins).
    pub fn unpin(&mut self, b: usize, id: usize) -> (r: Effect)
        requires
            old(self)@.wf(),
            b < old(self)@.bursts.len(),
            old(self)@.tracks.last_id < u64::MAX,
        ensures
            (final(self)@, r@) == old(self)@.unpinned(b as int, id),
            final(self)@.wf(),
    {
        let seeds = roi::drop_frame(&self.tracks.seeds(b), id);
        if seeds.len() == 0 && !(self.look.use_af && self.has_eye(b)) {
            self.tracks.remove(b);
            self.look.dirty = true;
            Effect::Nothing
        } else {
            self.run_track(b, seeds)
        }
    }

    /// Pin the focus point on `seed_id` (replacing an earlier pin on that
    /// frame) and re-run the burst's track from all its pins.
    pub fn start_track(&mut self, b: usize, seed_id: usize, x: Real32, y: Real32) -> (r: Effect)
        requires
            old(self)@.wf(),
            b < old(self)@.bursts.len(),
            old(self)@.tracks.last_id < u64::MAX,
        ensures
            (final(self)@, r@) == old(self)@.pinned(b as int, seed_id, x, y),
            final(self)@.wf(),
    {
        let mut seeds = roi::drop_frame(&self.tracks.seeds(b), seed_id);
        seeds.push(Pin { frame: seed_id, x, y });
        self.run_track(b, seeds)
    }

    /// Resize the focus measuring area (already limited to what is sensible)
    /// and re-run the burst's track (if any) so its scores use the new size.
    pub fn set_roi_frac(&mut self, b: usize, roi_frac: Real32) -> (r: Effect)
        requires
            old(self)@.wf(),
            b < old(self)@.bursts.len(),
            old(self)@.tracks.last_id < u64::MAX,
        ensures
            (final(self)@, r@) == old(self)@.resized(b as int, roi_frac),
            final(self)@.wf(),
    {
        self.look.roi_frac = roi_frac;
        if self.tracks.has(b) {
            let seeds = self.tracks.seeds(b);
            self.run_track(b, seeds)
        } else {
            Effect::Nothing
        }
    }
}

/// One star more, up to the highest rating.
pub open spec fn star_more(rating: u8) -> u8 {
    if rating < MAX_RATING {
        (rating + 1) as u8
    } else {
        MAX_RATING
    }
}

/// One star less, down to none.
pub open spec fn star_less(rating: u8) -> u8 {
    if rating == 0 {
        0
    } else {
        (rating - 1) as u8
    }
}

/// Where an arrow key takes the cursor of an overview of `n` bursts from `c`:
/// left and right by one, up and down by a row of `cols`, never off the sheet.
pub open spec fn stepped(n: int, c: int, a: Action, cols: int) -> int {
    let back = match a {
        Action::NavLeft => 1,
        Action::NavUp => cols,
        _ => 0,
    };
    let on = match a {
        Action::NavRight => 1,
        Action::NavDown => cols,
        _ => 0,
    };
    if n == 0 {
        0
    } else {
        pipeline::clamp_to(c - back + on, 0, n - 1)
    }
}

fn step(n: usize, c: usize, a: Action, cols: usize) -> (r: usize)
    requires
        c == 0 || c < n,
    ensures
        r == stepped(n as int, c as int, a, cols as int),
{
    let by_how_many: usize = match a {
        Action::NavLeft | Action::NavRight => 1,
        Action::NavUp | Action::NavDown => cols,
        _ => 0,
    };
    match a {
        Action::NavLeft | Action::NavUp => if c > by_how_many {
            c - by_how_many
        } else {
            0
        },
        _ => if n == 0 {
            0
        } else if by_how_many <= n - 1 - c {
            c + by_how_many
        } else {
            n - 1
        },
    }
}

impl CullView {
    /// The session with the look changed.
    pub open spec fn looking(self, look: Look) -> CullView {
        CullView { look, ..self }
    }

    /// The session with the overview's cursor on burst `b`.
    pub open spec fn cursor_at(self, b: int) -> CullView {
        self.looking(Look { cursor: b as usize, ..self.look })
    }

    /// The last burst not beyond `b`.
    pub open spec fn last_burst(self, b: int) -> int {
        if b < self.bursts.len() {
            b
        } else {
            self.bursts.len() - 1
        }
    }

    /// The session after an arrow key; `cols` is the number of bursts in a row
    /// of the overview.
    pub open spec fn navigated(self, a: Action, cols: int) -> (CullView, EffectView) {
        match self.look.screen {
            Screen::Overview => (
                self.cursor_at(
                    stepped(self.bursts.len() as int, self.look.cursor as int, a, cols),
                ),
                EffectView::Nothing,
            ),
            Screen::Burst { b, frame } => match a {
                Action::NavLeft => (
                    self.at_frame(
                        b as int,
                        if frame > 0 {
                            frame - 1
                        } else {
                            0
                        },
                    ),
                    EffectView::Nothing,
                ),
                Action::NavRight => (self.at_frame(b as int, frame + 1), EffectView::Nothing),
                Action::NavUp => if b > 0 {
                    self.entered(b - 1)
                } else {
                    (self, EffectView::Nothing)
                },
                _ => if b + 1 < self.bursts.len() {
                    self.entered(b + 1)
                } else {
                    (self, EffectView::Nothing)
                },
            },
        }
    }

    /// The session after the next unculled burst is gone to.
    pub open spec fn jumped(self) -> (CullView, EffectView) {
        let from = match self.look.screen {
            Screen::Overview => self.look.cursor,
            Screen::Burst { b, .. } => b,
        };
        match self.next_unculled(from as int) {
            None => (self, EffectView::Nothing),
            Some(nb) => match self.look.screen {
                Screen::Overview => (self.cursor_at(nb as int), EffectView::Nothing),
                Screen::Burst { .. } => self.entered(nb as int),
            },
        }
    }

    /// The session after the top of the open burst is accepted and the next
    /// unculled burst opened.
    pub open spec fn accepted(self) -> (CullView, EffectView) {
        match self.look.screen {
            Screen::Overview => (self, EffectView::Nothing),
            Screen::Burst { b, .. } => {
                let v = self.changed(self.top_changes(b as int));
                match v.next_unculled(b as int) {
                    Some(nb) => v.entered(nb as int),
                    None => (v, EffectView::Nothing),
                }
            },
        }
    }

    /// The session after the camera's eye points are turned on or off.
    pub open spec fn af_toggled(self) -> (CullView, EffectView) {
        let v = self.looking(Look { use_af: !self.look.use_af, ..self.look });
        match v.look.screen {
            Screen::Overview => (v, EffectView::Nothing),
            Screen::Burst { b, .. } => if v.tracks.seeds(b).len() == 0 && !v.look.use_af {
                (CullView { tracks: v.tracks.dropped(b), ..v }, EffectView::Nothing)
            } else {
                v.track_run(b as int, v.tracks.seeds(b))
            },
        }
    }

    /// The session after the pins of the open burst are cleared; the camera's
    /// eye points come back on their own.
    pub open spec fn track_cleared(self) -> (CullView, EffectView) {
        match self.look.screen {
            Screen::Overview => (self, EffectView::Nothing),
            Screen::Burst { b, .. } => CullView {
                tracks: self.tracks.dropped(b),
                look: Look { dirty: true, ..self.look },
                ..self
            }.auto_tracked(b as int),
        }
    }

    /// The session after a change of marks that the user asks for.
    pub open spec fn edited(self, a: Action) -> CullView {
        match a {
            Action::Undo => self.undone(),
            Action::Pick => self.flagged(Flag::Picked),
            Action::Reject => self.flagged(Flag::Rejected),
            Action::ClearFlag => self.flagged(Flag::Unrated),
            Action::Rate(r) => self.rated(r),
            Action::RateUp => self.rated(star_more(self.state(self.current()->0).rating)),
            Action::RateDown => self.rated(star_less(self.state(self.current()->0).rating)),
            _ => self,
        }
    }

    /// The session after a move or a change of the track, and what is left to
    /// do for it.
    pub open spec fn moved(self, a: Action, cols: int) -> (CullView, EffectView) {
        match a {
            Action::OpenBurst => if self.bursts.len() > 0 {
                self.entered(self.last_burst(self.look.cursor as int))
            } else {
                (self, EffectView::Nothing)
            },
            Action::NextUnculled => self.jumped(),
            Action::NavLeft | Action::NavRight | Action::NavUp | Action::NavDown => self.navigated(
                a,
                cols,
            ),
            Action::AcceptTop => self.accepted(),
            Action::ClearTrack => self.track_cleared(),
            Action::Unpin => match self.look.screen {
                Screen::Overview => (self, EffectView::Nothing),
                Screen::Burst { b, .. } => self.unpinned(b as int, self.current()->0),
            },
            Action::ToggleAfPins => self.af_toggled(),
            _ => (self, EffectView::Nothing),
        }
    }

    /// The session after an action, and what is left to do for it.
    pub open spec fn performed(self, a: Action, cols: int) -> (CullView, EffectView) {
        match a {
            Action::Undo
            | Action::Pick
            | Action::Reject
            | Action::ClearFlag
            | Action::Rate(_)
            | Action::RateUp
            | Action::RateDown => (self.edited(a), EffectView::Nothing),
            Action::OpenBurst
            | Action::NextUnculled
            | Action::NavLeft
            | Action::NavRight
            | Action::NavUp
            | Action::NavDown
            | Action::AcceptTop
            | Action::ClearTrack
            | Action::Unpin
            | Action::ToggleAfPins => self.moved(a, cols),
            _ => (self.looking(self.look.turned(a)), self.look.asks(a)),
        }
    }
}

impl Look {
    /// What is shown after an action that changes nothing else.
    pub open spec fn turned(self, a: Action) -> Look {
        match a {
            Action::Harvest => Look { harvest_open: true, ..self },
            Action::BackToOverview => match self.screen {
                Screen::Overview => self,
                Screen::Burst { b, .. } => Look {
                    cursor: b,
                    screen: Screen::Overview,
                    zoom: None,
                    inspect: false,
                    ..self
                },
            },
            Action::RejectAll => match self.screen {
                Screen::Overview => self,
                Screen::Burst { b, .. } => Look { confirm: Some(Confirm::RejectAll { b }), ..self },
            },
            Action::ToggleZoom => Look {
                zoom: if self.zoom is Some {
                    None
                } else {
                    Some(Real32 { bits: roi::ONE })
                },
                inspect: false,
                pan: no_pan(),
                ..self
            },
            Action::ToggleInspect => Look {
                inspect: !self.inspect,
                zoom: None,
                pan: no_pan(),
                ..self
            },
            Action::ToggleSort => Look {
                sort: match self.sort {
                    SortMode::Time => SortMode::Sharpness,
                    SortMode::Sharpness => SortMode::Coverage,
                    SortMode::Coverage => SortMode::Time,
                },
                ..self
            },
            Action::SetSort(m) => Look { sort: m, ..self },
            Action::SetSource(s) => Look { source: s, ..self },
            Action::ToggleBrighten => Look { brighten: !self.brighten, ..self },
            Action::TogglePeaking => Look { peaking: !self.peaking, ..self },
            Action::ToggleHelp => Look { show_help: !self.show_help, ..self },
            Action::ShowAbout => Look { show_about: true, ..self },
            _ => self,
        }
    }

    /// What an action asks for beyond the session itself. Previews, scores and
    /// tracks all derive from the source, so another source means opening the
    /// folder again.
    pub open spec fn asks(self, a: Action) -> EffectView {
        match a {
            Action::OpenFolder => EffectView::PickFolder,
            Action::OpenRecipe => EffectView::PickRecipe,
            Action::SaveSession => EffectView::Save,
            Action::Quit => EffectView::Quit,
            Action::SetSource(s) => if self.source == s {
                EffectView::Nothing
            } else {
                EffectView::Reopen
            },
            Action::ToggleBrighten | Action::TogglePeaking => EffectView::Redecode,
            _ => EffectView::Nothing,
        }
    }

    fn turn(self, a: Action) -> (r: Look)
        ensures
            r == self.turned(a),
    {
        let mut l = self;
        let zero = (Real32 { bits: roi::ZERO }, Real32 { bits: roi::ZERO });
        match a {
            Action::Harvest => l.harvest_open = true,
            Action::BackToOverview => {
                if let Screen::Burst { b, .. } = l.screen {
                    l.cursor = b;
                    l.screen = Screen::Overview;
                    l.zoom = None;
                    l.inspect = false;
                }
            },
            Action::RejectAll => {
                if let Screen::Burst { b, .. } = l.screen {
                    l.confirm = Some(Confirm::RejectAll { b });
                }
            },
            Action::ToggleZoom => {
                l.zoom = if l.zoom.is_some() {
                    None
                } else {
                    Some(Real32 { bits: roi::ONE })
                };
                l.inspect = false;
                l.pan = zero;
            },
            Action::ToggleInspect => {
                l.inspect = !l.inspect;
                l.zoom = None;
                l.pan = zero;
            },
            Action::ToggleSort => {
                l.sort = match l.sort {
                    SortMode::Time => SortMode::Sharpness,
                    SortMode::Sharpness => SortMode::Coverage,
                    SortMode::Coverage => SortMode::Time,
                };
            },
            Action::SetSort(m) => l.sort = m,
            Action::SetSource(s) => l.source = s,
            Action::ToggleBrighten => l.brighten = !l.brighten,
            Action::TogglePeaking => l.peaking = !l.peaking,
            Action::ToggleHelp => l.show_help = !l.show_help,
            Action::ShowAbout => l.show_about = true,
            _ => {},
        }
        l
    }

    fn ask(self, a: Action) -> (r: Effect)
        ensures
            r@ == self.asks(a),
    {
        match a {
            Action::OpenFolder => Effect::PickFolder,
            Action::OpenRecipe => Effect::PickRecipe,
            Action::SaveSession => Effect::Save,
            Action::Quit => Effect::Quit,
            Action::SetSource(s) => if self.source == s {
                Effect::Nothing
            } else {
                Effect::Reopen
            },
            Action::ToggleBrighten | Action::TogglePeaking => Effect::Redecode,
            _ => Effect::Nothing,
        }
    }
}

impl Cull {
    fn navigate(&mut self, a: Action, cols: usize) -> (r: Effect)
        requires
            old(self)@.wf(),
            old(self)@.tracks.last_id < u64::MAX,
        ensures
            (final(self)@, r@) == old(self)@.navigated(a, cols as int),
            final(self)@.wf(),
    {
        let n = self.bursts.len();
        match self.look.screen {
            Screen::Overview => {
                self.look.cursor = step(n, self.look.cursor, a, cols);
                Effect::Nothing
            },
            Screen::Burst { b, frame } => self.navigate_burst(b, frame, a),
        }
    }

    fn navigate_burst(&mut self, b: usize, frame: usize, a: Action) -> (r: Effect)
        requires
            old(self)@.wf(),
            old(self)@.tracks.last_id < u64::MAX,
            old(self)@.look.screen == (Screen::Burst { b, frame }),
        ensures
            (final(self)@, r@) == old(self)@.navigated(a, 0),
            final(self)@.wf(),
    {
        match a {
            Action::NavLeft => {
                self.goto_frame(
                    b,
                    if frame > 0 {
                        frame - 1
                    } else {
                        0
                    },
                );
                Effect::Nothing
            },
            Action::NavRight => {
                self.goto_frame(b, frame + 1);
                Effect::Nothing
            },
            Action::NavUp => if b > 0 {
                self.enter_burst(b - 1)
            } else {
                Effect::Nothing
            },
            _ => if b + 1 < self.bursts.len() {
                self.enter_burst(b + 1)
            } else {
                Effect::Nothing
            },
        }
    }

    fn jump(&mut self) -> (r: Effect)
        requires
            old(self)@.wf(),
            old(self)@.tracks.last_id < u64::MAX,
        ensures
            (final(self)@, r@) == old(self)@.jumped(),
            final(self)@.wf(),
    {
        let from = match self.look.screen {
            Screen::Overview => self.look.cursor,
            Screen::Burst { b, .. } => b,
        };
        match self.next_unculled(from) {
            None => Effect::Nothing,
            Some(nb) => match self.look.screen {
                Screen::Overview => {
                    self.look.cursor = nb;
                    Effect::Nothing
                },
                Screen::Burst { .. } => self.enter_burst(nb),
            },
        }
    }

    fn accept_top(&mut self) -> (r: Effect)
        requires
            old(self)@.wf(),
            old(self)@.tracks.last_id < u64::MAX,
        ensures
            (final(self)@, r@) == old(self)@.accepted(),
            final(self)@.wf(),
    {
        match self.look.screen {
            Screen::Overview => Effect::Nothing,
            Screen::Burst { b, .. } => {
                self.accept_burst(b);
                match self.next_unculled(b) {
                    Some(nb) => self.enter_burst(nb),
                    None => Effect::Nothing,
                }
            },
        }
    }

    fn toggle_af(&mut self) -> (r: Effect)
        requires
            old(self)@.wf(),
            old(self)@.tracks.last_id < u64::MAX,
        ensures
            (final(self)@, r@) == old(self)@.af_toggled(),
            final(self)@.wf(),
    {
        self.look.use_af = !self.look.use_af;
        match self.look.screen {
            Screen::Overview => Effect::Nothing,
            Screen::Burst { b, .. } => {
                let seeds = self.tracks.seeds(b);
                if seeds.len() == 0 && !self.look.use_af {
                    self.tracks.remove(b);
                    Effect::Nothing
                } else {
                    self.run_track(b, seeds)
                }
            },
        }
    }

    fn clear_track(&mut self) -> (r: Effect)
        requires
            old(self)@.wf(),
            old(self)@.tracks.last_id < u64::MAX,
        ensures
            (final(self)@, r@) == old(self)@.track_cleared(),
            final(self)@.wf(),
    {
        match self.look.screen {
            Screen::Overview => Effect::Nothing,
            Screen::Burst { b, .. } => {
                self.tracks.remove(b);
                self.look.dirty = true;
                self.auto_track(b)
            },
        }
    }

    fn edit(&mut self, a: Action)
        requires
            old(self)@.wf(),
        ensures
            final(self)@ == old(self)@.edited(a),
            final(self)@.wf(),
    {
        match a {
            Action::Undo => self.undo_last(),
            Action::Pick => self.flag_current(Flag::Picked),
            Action::Reject => self.flag_current(Flag::Rejected),
            Action::ClearFlag => self.flag_current(Flag::Unrated),
            Action::Rate(r) => self.rate_current(r),
            // Step the rating without wrapping: + stays at 5, - stays at 0.
            Action::RateUp => {
                if let Some(id) = self.current_id() {
                    let rating = self.img_state(id).rating;
                    self.rate_current(
                        if rating < MAX_RATING {
                            rating + 1
                        } else {
                            MAX_RATING
                        },
                    );
                }
            },
            Action::RateDown => {
                if let Some(id) = self.current_id() {
                    let rating = self.img_state(id).rating;
                    self.rate_current(
                        if rating == 0 {
                            0
                        } else {
                            rating - 1
                        },
                    );
                }
            },
            _ => {},
        }
    }

    fn go(&mut self, a: Action, cols: usize) -> (r: Effect)
        requires
            old(self)@.wf(),
            old(self)@.tracks.last_id < u64::MAX,
        ensures
            (final(self)@, r@) == old(self)@.moved(a, cols as int),
            final(self)@.wf(),
    {
        match a {
            Action::OpenBurst => {
                let n = self.bursts.len();
                if n == 0 {
                    return Effect::Nothing;
                }
                let b = if self.look.cursor < n {
                    self.look.cursor
                } else {
                    n - 1
                };
                self.enter_burst(b)
            },
            Action::NextUnculled => self.jump(),
            Action::NavLeft | Action::NavRight | Action::NavUp | Action::NavDown => self.navigate(
                a,
                cols,
            ),
            Action::AcceptTop => self.accept_top(),
            Action::ClearTrack => self.clear_track(),
            Action::Unpin => match (self.look.screen, self.current_id()) {
                (Screen::Burst { b, .. }, Some(id)) => self.unpin(b, id),
                _ => Effect::Nothing,
            },
            Action::ToggleAfPins => self.toggle_af(),
            _ => Effect::Nothing,
        }
    }

    /// The single place an action takes effect, whatever route emitted it.
    /// `cols` is the number of bursts in a row of the overview.
    pub fn perform(&mut self, a: Action, cols: usize) -> (r: Effect)
        requires
            old(self)@.wf(),
            old(self)@.tracks.last_id < u64::MAX,
        ensures
            (final(self)@, r@) == old(self)@.performed(a, cols as int),
            final(self)@.wf(),
    {
        match a {
            Action::Undo
            | Action::Pick
            | Action::Reject
            | Action::ClearFlag
            | Action::Rate(_)
            | Action::RateUp
            | Action::RateDown => {
                self.edit(a);
                Effect::Nothing
            },
            Action::OpenBurst
            | Action::NextUnculled
            | Action::NavLeft
            | Action::NavRight
            | Action::NavUp
            | Action::NavDown
            | Action::AcceptTop
            | Action::ClearTrack
            | Action::Unpin
            | Action::ToggleAfPins => self.go(a, cols),
            _ => {
                let effect = self.look.ask(a);
                self.look = self.look.turn(a);
                effect
            },
        }
    }
}

impl CullView {
    /// The session after a question is answered.
    pub open spec fn answered(self, yes: bool) -> CullView {
        let v = match self.look.confirm {
            Some(Confirm::RejectAll { b }) => if yes {
                self.changed(self.reject_changes(b as int))
            } else {
                self
            },
            None => self,
        };
        v.looking(Look { confirm: None, ..v.look })
    }

    /// The session in another folder: what was decided about pictures and
    /// measured on them is gone, how things are shown stays.
    pub open spec fn moved_on(self) -> CullView {
        CullView {
            metas: Seq::empty(),
            images: Seq::empty(),
            bursts: Seq::empty(),
            marks: marks::MarksView { state: Map::empty(), undo: Seq::empty() },
            scores: Map::empty(),
            tracks: roi::TracksView {
                roi: Map::empty(),
                burst_of: Map::empty(),
                last_id: self.tracks.last_id,
            },
            pending: Map::empty(),
            look: Look {
                screen: Screen::Overview,
                cursor: 0,
                zoom: None,
                inspect: false,
                pan: no_pan(),
                dirty: false,
                harvest_open: false,
                ..self.look
            },
        }
    }

    /// Whether the session has taken in the scanned files `metas`, and is `v`
    /// otherwise.
    pub open spec fn took_in(self, v: CullView, metas: Seq<FileMeta>) -> bool {
        &&& self == (CullView { metas, images: self.images, bursts: self.bursts, ..v })
        &&& exists|ks: Seq<burst::PairKey>| #[trigger]
            burst::are_keys(metas, ks) && self.images == burst::pictures(ks, burst::kinds_of(metas))
        &&& exists|ord: Seq<usize>| #[trigger]
            burst::is_timeline(metas, self.images, ord) && self.bursts == burst::grouped(
                metas,
                self.images,
                GAP_CENTIS as int,
                ord,
            )
    }

    /// Ids of all frames, burst by burst, of the first `k` bursts.
    pub open spec fn all_ids(self, k: int) -> Seq<usize>
        decreases k,
    {
        if k <= 0 {
            Seq::empty()
        } else {
            self.all_ids(k - 1) + self.ids(k - 1)
        }
    }
}

/// A session with nothing scanned yet.
pub open spec fn blank_session(
    source: Source,
    roi_frac: Real32,
    brighten: bool,
    peaking: bool,
) -> CullView {
    CullView {
        metas: Seq::empty(),
        images: Seq::empty(),
        bursts: Seq::empty(),
        marks: marks::MarksView { state: Map::empty(), undo: Seq::empty() },
        scores: Map::empty(),
        tracks: roi::TracksView { roi: Map::empty(), burst_of: Map::empty(), last_id: 0 },
        pending: Map::empty(),
        look: Look {
            screen: Screen::Overview,
            cursor: 0,
            sort: SortMode::Sharpness,
            source,
            zoom: None,
            inspect: false,
            pan: no_pan(),
            roi_frac,
            brighten,
            peaking,
            use_af: true,
            harvest_open: false,
            show_help: false,
            show_about: false,
            confirm: None,
            dirty: false,
        },
    }
}

impl Cull {
    /// A session with nothing scanned yet.
    pub fn new(source: Source, roi_frac: Real32, brighten: bool, peaking: bool) -> (r: Cull)
        ensures
            r@ == blank_session(source, roi_frac, brighten, peaking),
            r@.wf(),
    {
        broadcast use vstd::std_specs::hash::group_hash_axioms;

        let zero = Real32 { bits: roi::ZERO };
        Cull {
            metas: Vec::new(),
            images: Vec::new(),
            bursts: Vec::new(),
            marks: Marks::new(),
            scores: HashMap::new(),
            tracks: Tracks::new(),
            pending_pins: HashMap::new(),
            look: Look {
                screen: Screen::Overview,
                cursor: 0,
                sort: SortMode::Sharpness,
                source,
                zoom: None,
                inspect: false,
                pan: (zero, zero),
                roi_frac,
                brighten,
                peaking,
                use_af: true,
                harvest_open: false,
                show_help: false,
                show_about: false,
                confirm: None,
                dirty: false,
            },
        }
    }

    /// Takes the user's answer to the pending question.
    pub fn answer(&mut self, yes: bool)
        requires
            old(self)@.wf(),
            yes && old(self).look.confirm is Some ==> ({
                let Confirm::RejectAll { b } = old(self).look.confirm->0;
                b < old(self)@.bursts.len()
            }),
        ensures
            final(self)@ == old(self)@.answered(yes),
            final(self)@.wf(),
    {
        if yes {
            if let Some(Confirm::RejectAll { b }) = self.look.confirm {
                self.reject_all(b);
            }
        }
        self.look.confirm = None;
    }

    /// Point the session at a different folder: all per-folder state is
    /// cleared.
    pub fn open_dir(&mut self)
        requires
            old(self)@.wf(),
        ensures
            final(self)@ == old(self)@.moved_on(),
            final(self)@.wf(),
    {
        broadcast use vstd::std_specs::hash::group_hash_axioms;

        let last_id = self.tracks.last_id;
        let zero = Real32 { bits: roi::ZERO };
        self.metas = Vec::new();
        self.images = Vec::new();
        self.bursts = Vec::new();
        self.marks = Marks::new();
        self.scores = HashMap::new();
        self.tracks = Tracks::new();
        self.tracks.last_id = last_id;
        self.pending_pins = HashMap::new();
        self.look.screen = Screen::Overview;
        self.look.cursor = 0;
        self.look.zoom = None;
        self.look.inspect = false;
        self.look.pan = (zero, zero);
        self.look.dirty = false;
        self.look.harvest_open = false;
        assert(self@.bursts =~= Seq::empty());
        assert(self@.tracks.roi =~= Map::empty());
    }

    /// Takes in the files that a scan found: pairs them, and groups the
    /// pictures into bursts.
    pub fn scanned(&mut self, metas: Vec<FileMeta>)
        requires
            old(self)@.wf(),
            old(self)@.look.screen == Screen::Overview,
            old(self)@.look.cursor == 0,
        ensures
            final(self)@.took_in(old(self)@, metas@),
            final(self)@.wf(),
    {
        let images = burst::pair(&metas);
        let mut copies: Vec<LogicalImage> = Vec::new();
        let n: usize = images.len();
        let mut i: usize = 0;
        while i < n
            invariant
                i <= n == images@.len(),
                copies@ == images@.take(i as int),
            decreases n - i,
        {
            copies.push(images[i]);
            i += 1;
            assert(copies@ =~= images@.take(i as int));
        }
        assert(copies@ =~= images@);
        self.bursts = burst::group(&metas, copies, GAP_CENTIS);
        self.images = images;
        self.metas = metas;
        let bn: usize = self.bursts.len();
        proof {
            let ord = choose|ord: Seq<usize>| #[trigger]
                burst::is_timeline(self@.metas, self@.images, ord) && self@.bursts == burst::grouped(
                    self@.metas,
                    self@.images,
                    GAP_CENTIS as int,
                    ord,
                );
            assert forall|b: int| 0 <= b < self@.bursts.len() implies (#[trigger] self@.bursts[b]).len()
                > 0 && burst::valid_images(self@.bursts[b], self@.metas.len() as int) by {
                burst::bursts_are_of_pictures(self@.metas, self@.images, GAP_CENTIS as int, ord, b);
                assert forall|k: int| 0 <= k < self@.bursts[b].len() implies (
                #[trigger] self@.bursts[b][k]).wf() && self@.bursts[b][k].exists_in(
                    self@.metas.len() as int,
                ) by {
                    assert(self@.images.contains(self@.bursts[b][k]));
                }
            }
            let ks = choose|ks: Seq<burst::PairKey>| #[trigger]
                burst::are_keys(self@.metas, ks) && self@.images == burst::pictures(
                    ks,
                    burst::kinds_of(self@.metas),
                );
            assert(self.metas.len() == ks.len());
            burst::every_file_has_its_picture(ks, burst::kinds_of(self@.metas));
            assert forall|b: int| 0 <= b < self@.bursts.len() implies burst::told_apart(
                #[trigger] self@.bursts[b],
            ) by {
                burst::bursts_repeat_no_picture(self@.metas, self@.images, GAP_CENTIS as int, ord, b);
            }
            assert forall|b: int| 0 <= b < self@.bursts.len() implies (#[trigger] self@.bursts[b]).len()
                <= usize::MAX by {
                assert(self@.bursts[b] == self.bursts@[b].images@);
                assert(self.bursts@[b].images.len() == self@.bursts[b].len());
            }
        }
    }

    /// Ids of all frames, burst by burst: what is scored in the background.
    pub fn frames_to_score(&self) -> (r: Vec<usize>)
        requires
            self@.wf(),
        ensures
            r@ == self@.all_ids(self@.bursts.len() as int),
    {
        let n: usize = self.bursts.len();
        let mut out: Vec<usize> = Vec::new();
        let mut b: usize = 0;
        while b < n
            invariant
                self@.wf(),
                n == self@.bursts.len(),
                b <= n,
                out@ == self@.all_ids(b as int),
            decreases n - b,
        {
            let mut ids = self.ids(b);
            out.append(&mut ids);
            b += 1;
            assert(out@ =~= self@.all_ids(b as int));
        }
        out
    }

    /// News of a frame's overall sharpness.
    pub fn on_score(&mut self, idx: usize, score: Real32)
        requires
            old(self)@.wf(),
            !score.is_nan_spec(),
        ensures
            final(self)@ == (CullView { scores: old(self)@.scores.insert(idx, score), ..old(self)@ }),
            final(self)@.wf(),
    {
        broadcast use vstd::std_specs::hash::group_hash_axioms;

        self.scores.insert(idx, score);
    }

    /// News of a tracked point.
    pub fn on_point(
        &mut self,
        req_id: u64,
        idx: usize,
        p: roi::Point,
        roi_score: Real32,
        coverage: Real32,
    )
        requires
            old(self)@.wf(),
            !roi_score.is_nan_spec(),
            !coverage.is_nan_spec(),
        ensures
            final(self)@ == (CullView {
                tracks: old(self)@.tracks.with_point(req_id, idx, p, roi_score, coverage),
                ..old(self)@
            }),
            final(self)@.wf(),
    {
        self.tracks.on_point(req_id, idx, p, roi_score, coverage);
    }

    /// News of a measured pupil.
    pub fn on_eye(&mut self, req_id: u64, idx: usize, x: Real32, y: Real32, eye: roi::Eye)
        requires
            old(self)@.wf(),
            !eye.acuity.is_nan_spec(),
        ensures
            final(self)@ == (CullView {
                tracks: old(self)@.tracks.with_eye(req_id, idx, x, y, eye),
                ..old(self)@
            }),
            final(self)@.wf(),
    {
        self.tracks.on_eye(req_id, idx, x, y, eye);
    }

    /// News that a track is complete.
    pub fn on_done(&mut self, req_id: u64)
        requires
            old(self)@.wf(),
        ensures
            final(self)@ == (CullView {
                tracks: old(self)@.tracks.with_done(req_id),
                ..old(self)@
            }),
            final(self)@.wf(),
    {
        self.tracks.on_done(req_id);
    }
}

proof fn lemma_flagged_all(m: Map<usize, ImgState>, changes: Seq<(usize, ImgState)>, k: int)
    requires
        0 <= k <= changes.len(),
        forall|i: int| 0 <= i < changes.len() ==> (#[trigger] changes[i]).1.flag != Flag::Unrated,
    ensures
        forall|i: int|
            0 <= i < k ==> marks::state_of(
                marks::with_states(m, changes, k),
                (#[trigger] changes[i]).0,
            ).flag != Flag::Unrated,
    decreases k,
{
    if k > 0 {
        lemma_flagged_all(m, changes, k - 1);
    }
}

/// A burst whose best frames are accepted, however many, is culled, and so
/// is one that is rejected.
pub proof fn accepting_culls_the_burst(v: CullView, b: int, top: int)
    requires
        v.wf(),
        0 <= b < v.bursts.len(),
    ensures
        v.changed(v.best_changes(b, top)).culled(b),
        v.changed(v.reject_changes(b)).culled(b),
{
    let n = v.bursts[b].len() as int;
    let order = ranking(v.keys(b, SortMode::Sharpness));
    let best = v.best_changes(b, top);
    let t = v.changed(best);
    frames_can_be_ranked(v, b, SortMode::Sharpness);
    lemma_flagged_all(v.marks.state, best, n);
    assert forall|k: int| 0 <= k < t.bursts[b].len() implies t.state(#[trigger] t.id(b, k)).flag
        != Flag::Unrated by {
        assert(order.contains(k as usize));
        let i = choose|i: int| 0 <= i < order.len() && order[i] == k as usize;
        assert(best[i].0 == v.id(b, k));
    }
    let all = v.reject_changes(b);
    let r = v.changed(all);
    lemma_flagged_all(v.marks.state, all, n);
    assert forall|k: int| 0 <= k < r.bursts[b].len() implies r.state(#[trigger] r.id(b, k)).flag
        != Flag::Unrated by {
        assert(all[k].0 == v.id(b, k));
    }
}

/// Where no picture is decided about twice, each gets its decision.
proof fn lemma_each_decided(m: Map<usize, ImgState>, changes: Seq<(usize, ImgState)>, k: int)
    requires
        0 <= k <= changes.len(),
        forall|i: int, j: int|
            0 <= i < j < changes.len() ==> (#[trigger] changes[i]).0 != (#[trigger] changes[j]).0,
    ensures
        forall|i: int|
            0 <= i < k ==> marks::state_of(
                marks::with_states(m, changes, k),
                (#[trigger] changes[i]).0,
            ) == changes[i].1,
    decreases k,
{
    if k > 0 {
        lemma_each_decided(m, changes, k - 1);
        assert forall|i: int| 0 <= i < k implies marks::state_of(
            marks::with_states(m, changes, k),
            (#[trigger] changes[i]).0,
        ) == changes[i].1 by {
            if i < k - 1 {
                assert(changes[i].0 != changes[k - 1].0);
            }
        }
    }
}

/// The frames of burst `b` that are picked.
pub open spec fn picked_frames(v: CullView, b: int) -> Set<int> {
    Set::new(|k: int| 0 <= k < v.bursts[b].len() && v.state(v.id(b, k)).flag == Flag::Picked)
}

/// Accepting a burst picks exactly as many frames as asked for, or all where
/// it has fewer: the best by sharpness. The rest is rejected, and ratings stay.
pub proof fn accepting_picks_the_best(v: CullView, b: int, top: int)
    requires
        v.wf(),
        0 <= b < v.bursts.len(),
        0 <= top,
    ensures
        ({
            let n = v.bursts[b].len() as int;
            let order = ranking(v.keys(b, SortMode::Sharpness));
            let t = v.changed(v.best_changes(b, top));
            &&& forall|k: int|
                0 <= k < n ==> t.state(v.id(b, #[trigger] order[k] as int)) == (ImgState {
                    flag: (if k < top {
                        Flag::Picked
                    } else {
                        Flag::Rejected
                    }),
                    ..v.state(v.id(b, order[k] as int))
                })
            &&& picked_frames(t, b).finite()
            &&& picked_frames(t, b).len() == (if top < n {
                top
            } else {
                n
            })
        }),
{
    let n = v.bursts[b].len() as int;
    let keys = v.keys(b, SortMode::Sharpness);
    let order = ranking(keys);
    let changes = v.best_changes(b, top);
    let t = v.changed(changes);
    frames_can_be_ranked(v, b, SortMode::Sharpness);
    assert forall|i: int, j: int| 0 <= i < j < n implies #[trigger] order[i] != #[trigger] order[j] by {
        let (x, y) = (keys[order[i] as int], keys[order[j] as int]);
    }
    assert forall|i: int, j: int| 0 <= i < j < n implies (#[trigger] changes[i]).0 != (
    #[trigger] changes[j]).0 by {
        assert(order[i] != order[j]);
        let (p, q) = (order[i] as int, order[j] as int);
        let (x, y) = (v.bursts[b][p], v.bursts[b][q]);
        assert(burst::told_apart(v.bursts[b]));
    }
    lemma_each_decided(v.marks.state, changes, n);
    assert forall|k: int| 0 <= k < n implies t.state(v.id(b, #[trigger] order[k] as int))
        == changes[k].1 by {
        assert(changes[k].0 == v.id(b, order[k] as int));
    }
    let m = if top < n {
        top
    } else {
        n
    };
    let first = vstd::set_lib::set_int_range(0, m);
    let place = |i: int| order[i] as int;
    vstd::set_lib::lemma_int_range(0, m);
    let picked = picked_frames(t, b);
    assert(first.map(place) =~= picked) by {
        assert forall|p: int| #[trigger] picked.contains(p) implies first.map(place).contains(p) by {
            assert(order.contains(p as usize));
            let i = choose|i: int| 0 <= i < order.len() && order[i] == p as usize;
            assert(t.id(b, p) == v.id(b, order[i] as int));
            assert(changes[i].1.flag == Flag::Picked);
            assert(first.contains(i) && place(i) == p);
        }
        assert forall|p: int| #[trigger] first.map(place).contains(p) implies picked.contains(p) by {
            let i = choose|i: int| first.contains(i) && place(i) == p;
            assert(t.state(v.id(b, order[i] as int)) == changes[i].1);
        }
    }
    assert(vstd::relations::injective_on(place, first)) by {
        assert forall|i: int, j: int|
            first.contains(i) && first.contains(j) && #[trigger] place(i) == #[trigger] place(
                j,
            ) implies i == j by {
            if i < j {
                assert(order[i] != order[j]);
            } else if j < i {
                assert(order[j] != order[i]);
            }
        }
    }
    vstd::set_lib::lemma_map_size(first, picked, place);
}

/// Taking a change back restores what was decided before it, and what can be
/// taken back next.
pub proof fn undo_reverses_a_change(v: CullView, changes: Seq<(usize, ImgState)>)
    requires
        v.wf(),
    ensures
        v.changed(changes).undone() == v.looking(Look { dirty: true, ..v.look }),
{
    marks::undo_takes_back(v.marks, changes);
}

/// Pinning a frame again moves its pin; unpinning it leaves the other pins
/// alone.
pub proof fn unpinning_undoes_pinning(seeds: Seq<Pin>, pin: Pin)
    ensures
        roi::without_frame(roi::without_frame(seeds, pin.frame).push(pin), pin.frame)
            == roi::without_frame(seeds, pin.frame),
{
    let id = pin.frame;
    let keep = |s: Pin| s.frame != id;
    let rest = seeds.filter(keep);
    assert forall|i: int| 0 <= i < rest.len() implies keep(#[trigger] rest[i]) by {
        broadcast use vstd::seq_lib::group_filter_ensures;
    }
    assert(rest.push(pin).drop_last() =~= rest);
    assert(rest.push(pin).filter(keep) == rest.filter(keep)) by {
        reveal(Seq::filter);
    }
    lemma_filter_all(rest, keep);
}

proof fn lemma_filter_all(s: Seq<Pin>, keep: spec_fn(Pin) -> bool)
    requires
        forall|i: int| 0 <= i < s.len() ==> keep(#[trigger] s[i]),
    ensures
        s.filter(keep) == s,
    decreases s.len(),
{
    reveal(Seq::filter);
    if s.len() > 0 {
        assert forall|i: int| 0 <= i < s.drop_last().len() implies keep(
            #[trigger] s.drop_last()[i],
        ) by {
            assert(s.drop_last()[i] == s[i]);
        }
        lemma_filter_all(s.drop_last(), keep);
        assert(s.drop_last().push(s.last()) =~= s);
    } else {
        assert(s.filter(keep) =~= s);
    }
}

/// Whether `i` and `j` are both in `order`, and `i` always before `j`.
pub open spec fn stands_before(order: Seq<usize>, i: int, j: int) -> bool {
    &&& exists|p: int| 0 <= p < order.len() && #[trigger] order[p] == i
    &&& exists|q: int| 0 <= q < order.len() && #[trigger] order[q] == j
    &&& forall|p: int, q: int|
        0 <= p < order.len() && 0 <= q < order.len() && #[trigger] order[p] == i
            && #[trigger] order[q] == j ==> p < q
}

proof fn lemma_stands_before(keys: Seq<(bool, Real32)>, s: Seq<usize>, i: int, j: int)
    requires
        is_ranking(keys, s),
        keys.len() <= usize::MAX,
        0 <= i < keys.len(),
        0 <= j < keys.len(),
        outranks(keys[i], keys[j]) || (!outranks(keys[j], keys[i]) && i < j),
    ensures
        stands_before(s, i, j),
{
    assert(s.contains(i as usize) && s.contains(j as usize));
    let p0 = choose|p: int| 0 <= p < s.len() && s[p] == i as usize;
    let q0 = choose|q: int| 0 <= q < s.len() && s[q] == j as usize;
    assert(s[p0] == i && s[q0] == j);
    assert forall|p: int, q: int|
        0 <= p < s.len() && 0 <= q < s.len() && #[trigger] s[p] == i && #[trigger] s[q] == j implies p
        < q by {
        if q < p {
            let (x, y) = (keys[s[q] as int], keys[s[p] as int]);
            assert(outranks(x, y) || (!outranks(y, x) && s[q] < s[p]));
        }
    }
}

/// A burst is shown whole under every sort mode: each of its frames once, and
/// by time in the order of capture.
pub proof fn orders_show_every_frame_once(v: CullView, b: int)
    requires
        v.wf(),
        0 <= b < v.bursts.len(),
    ensures
        v.order(b).len() == v.bursts[b].len(),
        forall|k: int|
            0 <= k < v.bursts[b].len() ==> #[trigger] v.order(b).contains(k as usize),
        forall|p: int, q: int|
            0 <= p < q < v.bursts[b].len() ==> #[trigger] v.order(b)[p] != #[trigger] v.order(b)[q],
        forall|p: int|
            0 <= p < v.bursts[b].len() ==> (#[trigger] v.order(b)[p]) < v.bursts[b].len(),
        v.look.sort == SortMode::Time ==> forall|p: int|
            0 <= p < v.bursts[b].len() ==> #[trigger] v.order(b)[p] == p,
{
    let n = v.bursts[b].len() as int;
    let order = v.order(b);
    assert(v.bursts[b].len() <= usize::MAX);
    if v.look.sort == SortMode::Time {
        assert forall|k: int| 0 <= k < n implies #[trigger] order.contains(k as usize) by {
            assert(order[k] == k as usize);
        }
    } else {
        let keys = v.keys(b, v.look.sort);
        frames_can_be_ranked(v, b, v.look.sort);
        assert forall|p: int, q: int| 0 <= p < q < n implies #[trigger] order[p]
            != #[trigger] order[q] by {
            let (x, y) = (keys[order[p] as int], keys[order[q] as int]);
        }
    }
}

/// A frame's overall sharpness decides where its burst has no track: the
/// sharper comes first, a frame that is not scored yet counts as 0, and frames
/// of the same sharpness stay in the order of capture.
pub proof fn sharper_frames_come_first(v: CullView, b: int, i: int, j: int)
    requires
        v.wf(),
        0 <= b < v.bursts.len(),
        0 <= i < v.bursts[b].len(),
        0 <= j < v.bursts[b].len(),
        v.look.sort == SortMode::Sharpness || v.look.sort == SortMode::Coverage,
        !v.tracks.roi.dom().contains(b as usize),
    ensures
        ({
            let (x, y) = (v.bursts[b][i].lead(), v.bursts[b][j].lead());
            let (known_x, known_y) = (v.scores.dom().contains(x), v.scores.dom().contains(y));
            let zero = Real32 { bits: 0 };
            &&& known_x && known_y && v.scores[y].below(v.scores[x]) ==> stands_before(
                v.order(b),
                i,
                j,
            )
            &&& known_x && !known_y && zero.below(v.scores[x]) ==> stands_before(v.order(b), i, j)
            &&& !known_x && known_y && v.scores[y].below(zero) ==> stands_before(v.order(b), i, j)
            &&& known_x && known_y && v.scores[x].same(v.scores[y]) && i < j ==> stands_before(
                v.order(b),
                i,
                j,
            )
            &&& !known_x && !known_y && i < j ==> stands_before(v.order(b), i, j)
        }),
{
    let keys = v.keys(b, v.look.sort);
    frames_can_be_ranked(v, b, v.look.sort);
    let (x, y) = (v.id(b, i), v.id(b, j));
    assert(keys[i].1 == roi::score_of(v.scores, x) && keys[j].1 == roi::score_of(v.scores, y));
    if outranks(keys[i], keys[j]) || (!outranks(keys[j], keys[i]) && i < j) {
        lemma_stands_before(keys, v.order(b), i, j);
    }
}

/// Once a track is done its pupils decide, whatever the overall scores are: of
/// two frames with a measured pupil the one of the greater acuity, that is the
/// narrower rim, comes first; a frame with a pupil comes before one without;
/// and of two frames without one, the sharper overall.
pub proof fn sharper_eyes_come_first(v: CullView, b: int, i: int, j: int)
    requires
        v.wf(),
        0 <= b < v.bursts.len(),
        0 <= i < v.bursts[b].len(),
        0 <= j < v.bursts[b].len(),
        v.look.sort == SortMode::Sharpness,
        v.tracks.roi.dom().contains(b as usize),
        v.tracks.roi[b as usize].done,
    ensures
        ({
            let (x, y) = (v.bursts[b][i].lead(), v.bursts[b][j].lead());
            let eyes = v.tracks.roi[b as usize].eyes;
            let (seen_x, seen_y) = (eyes.dom().contains(x), eyes.dom().contains(y));
            let scored = v.scores.dom().contains(x) && v.scores.dom().contains(y);
            &&& seen_x && seen_y && eyes[y].acuity.below(eyes[x].acuity) ==> stands_before(
                v.order(b),
                i,
                j,
            )
            &&& seen_x && seen_y && eyes[x].acuity.same(eyes[y].acuity) && i < j ==> stands_before(
                v.order(b),
                i,
                j,
            )
            &&& seen_x && !seen_y ==> stands_before(v.order(b), i, j)
            &&& !seen_x && !seen_y && scored && v.scores[y].below(v.scores[x]) ==> stands_before(
                v.order(b),
                i,
                j,
            )
        }),
{
    let keys = v.keys(b, v.look.sort);
    frames_can_be_ranked(v, b, v.look.sort);
    let (x, y) = (v.id(b, i), v.id(b, j));
    let t = v.tracks.roi[b as usize];
    assert(roi::measured(t));
    assert(keys[i] == roi::rank_key(v.scores, Some(t), v.look.sort, x));
    assert(keys[j] == roi::rank_key(v.scores, Some(t), v.look.sort, y));
    if outranks(keys[i], keys[j]) || (!outranks(keys[j], keys[i]) && i < j) {
        lemma_stands_before(keys, v.order(b), i, j);
    }
}

/// Whether a track follows frame `id` with a confidence of at least 0.55, and
/// has measured it.
pub open spec fn follows(t: roi::RoiView, measured: Map<usize, Real32>, id: usize) -> bool {
    &&& t.points.dom().contains(id)
    &&& measured.dom().contains(id)
    &&& !t.points[id].conf.is_nan_spec()
    &&& t.points[id].conf.place() >= 0x3F0C_CCCD
}

/// While a track is not done, the sharpness at the tracked point decides: of
/// two frames that are followed with confidence the sharper there comes first,
/// whatever the overall scores are; a followed frame comes before a lost one;
/// and of two lost ones, the sharper overall.
pub proof fn sharper_points_come_first(v: CullView, b: int, i: int, j: int)
    requires
        v.wf(),
        0 <= b < v.bursts.len(),
        0 <= i < v.bursts[b].len(),
        0 <= j < v.bursts[b].len(),
        v.look.sort == SortMode::Sharpness,
        v.tracks.roi.dom().contains(b as usize),
        !v.tracks.roi[b as usize].done,
    ensures
        ({
            let (x, y) = (v.bursts[b][i].lead(), v.bursts[b][j].lead());
            let t = v.tracks.roi[b as usize];
            let at = t.roi_scores;
            let (on_x, on_y) = (follows(t, at, x), follows(t, at, y));
            let scored = v.scores.dom().contains(x) && v.scores.dom().contains(y);
            &&& on_x && on_y && at[y].below(at[x]) ==> stands_before(v.order(b), i, j)
            &&& on_x && on_y && at[x].same(at[y]) && i < j ==> stands_before(v.order(b), i, j)
            &&& on_x && !on_y ==> stands_before(v.order(b), i, j)
            &&& !on_x && !on_y && scored && v.scores[y].below(v.scores[x]) ==> stands_before(
                v.order(b),
                i,
                j,
            )
        }),
{
    let keys = v.keys(b, v.look.sort);
    frames_can_be_ranked(v, b, v.look.sort);
    let (x, y) = (v.id(b, i), v.id(b, j));
    let t = v.tracks.roi[b as usize];
    assert(roi::measured(t));
    assert(keys[i] == roi::rank_key(v.scores, Some(t), v.look.sort, x));
    assert(keys[j] == roi::rank_key(v.scores, Some(t), v.look.sort, y));
    if outranks(keys[i], keys[j]) || (!outranks(keys[j], keys[i]) && i < j) {
        lemma_stands_before(keys, v.order(b), i, j);
    }
}

/// Sorted by coverage, the frame with more of its focus area in focus comes
/// first, of two that are followed with confidence, done or not; one that is
/// followed comes before one that was measured but lost; and of two lost ones,
/// the sharper overall.
pub proof fn wider_focus_comes_first(v: CullView, b: int, i: int, j: int)
    requires
        v.wf(),
        0 <= b < v.bursts.len(),
        0 <= i < v.bursts[b].len(),
        0 <= j < v.bursts[b].len(),
        v.look.sort == SortMode::Coverage,
        v.tracks.roi.dom().contains(b as usize),
        ({
            let (x, y) = (v.bursts[b][i].lead(), v.bursts[b][j].lead());
            let t = v.tracks.roi[b as usize];
            &&& t.points.dom().contains(x) && t.coverage.dom().contains(x)
            &&& t.points.dom().contains(y) && t.coverage.dom().contains(y)
        }),
    ensures
        ({
            let (x, y) = (v.bursts[b][i].lead(), v.bursts[b][j].lead());
            let t = v.tracks.roi[b as usize];
            let at = t.coverage;
            let (on_x, on_y) = (follows(t, at, x), follows(t, at, y));
            let scored = v.scores.dom().contains(x) && v.scores.dom().contains(y);
            &&& on_x && on_y && at[y].below(at[x]) ==> stands_before(v.order(b), i, j)
            &&& on_x && on_y && at[x].same(at[y]) && i < j ==> stands_before(v.order(b), i, j)
            &&& on_x && !on_y ==> stands_before(v.order(b), i, j)
            &&& !on_x && !on_y && scored && v.scores[y].below(v.scores[x]) ==> stands_before(
                v.order(b),
                i,
                j,
            )
        }),
{
    let keys = v.keys(b, v.look.sort);
    frames_can_be_ranked(v, b, v.look.sort);
    let (x, y) = (v.id(b, i), v.id(b, j));
    let t = v.tracks.roi[b as usize];
    assert(roi::measured(t));
    assert(keys[i] == roi::rank_key(v.scores, Some(t), v.look.sort, x));
    assert(keys[j] == roi::rank_key(v.scores, Some(t), v.look.sort, y));
    if outranks(keys[i], keys[j]) || (!outranks(keys[j], keys[i]) && i < j) {
        lemma_stands_before(keys, v.order(b), i, j);
    }
}

/// Sorted by coverage, frames whose focus area has not been measured rank as
/// they do by sharpness.
pub proof fn unmeasured_coverage_falls_back(v: CullView, w: CullView, b: int)
    requires
        v.look.sort == SortMode::Coverage,
        w == v.looking(Look { sort: SortMode::Sharpness, ..v.look }),
        0 <= b < v.bursts.len(),
        v.tracks.roi.dom().contains(b as usize) ==> forall|k: int|
            0 <= k < v.bursts[b].len() ==> !v.tracks.roi[b as usize].coverage.dom().contains(
                (#[trigger] v.bursts[b][k]).lead(),
            ),
    ensures
        v.order(b) == w.order(b),
{
    let (x, y) = (v.keys(b, SortMode::Coverage), w.keys(b, SortMode::Sharpness));
    assert forall|k: int| 0 <= k < x.len() implies x[k] == y[k] by {
        let f = v.bursts[b][k];
    }
    assert(x =~= y);
}

/// Accepting a burst keeps to the order by sharpness, whatever the sort mode:
/// the frames that this order shows first are picked, the others rejected, and
/// nothing else is decided.
pub proof fn accepting_keeps_to_sharpness(v: CullView, w: CullView, b: int, top: int)
    requires
        v.wf(),
        w == v.looking(Look { sort: SortMode::Sharpness, ..v.look }),
        0 <= b < v.bursts.len(),
        0 <= top,
    ensures
        ({
            let t = v.changed(v.best_changes(b, top));
            &&& forall|p: int|
                0 <= p < v.bursts[b].len() ==> {
                    let id = v.bursts[b][#[trigger] w.order(b)[p] as int].lead();
                    &&& t.state(id).flag == (if p < top {
                        Flag::Picked
                    } else {
                        Flag::Rejected
                    })
                    &&& t.state(id).rating == v.state(id).rating
                }
            &&& forall|id: usize|
                (forall|k: int| 0 <= k < v.bursts[b].len() ==> (#[trigger] v.bursts[b][k]).lead() != id)
                    ==> #[trigger] t.state(id) == v.state(id)
        }),
{
    accepting_picks_the_best(v, b, top);
    let changes = v.best_changes(b, top);
    let t = v.changed(changes);
    assert(v.keys(b, SortMode::Sharpness) =~= w.keys(b, SortMode::Sharpness));
    frames_can_be_ranked(v, b, SortMode::Sharpness);
    let order = w.order(b);
    assert forall|p: int| 0 <= p < v.bursts[b].len() implies {
        let id = v.bursts[b][#[trigger] order[p] as int].lead();
        t.state(id).flag == (if p < top {
            Flag::Picked
        } else {
            Flag::Rejected
        }) && t.state(id).rating == v.state(id).rating
    } by {
        let id = v.id(b, order[p] as int);
    }
    assert forall|id: usize|
        (forall|k: int| 0 <= k < v.bursts[b].len() ==> (#[trigger] v.bursts[b][k]).lead() != id) implies
        #[trigger] t.state(id) == v.state(id) by {
        assert forall|k: int| 0 <= k < changes.len() implies (#[trigger] changes[k]).0 != id by {
            let f = v.bursts[b][order[k] as int];
        }
        lemma_others_stay(v.marks.state, changes, changes.len() as int, id);
    }
}

proof fn lemma_others_stay(
    m: Map<usize, ImgState>,
    changes: Seq<(usize, ImgState)>,
    k: int,
    id: usize,
)
    requires
        0 <= k <= changes.len(),
        forall|i: int| 0 <= i < changes.len() ==> (#[trigger] changes[i]).0 != id,
    ensures
        marks::state_of(marks::with_states(m, changes, k), id) == marks::state_of(m, id),
    decreases k,
{
    if k > 0 {
        lemma_others_stay(m, changes, k - 1, id);
        assert(changes[k - 1].0 != id);
    }
}

/// Whether one camera took both files, the second no more than 0.6 seconds
/// after the first.
pub open spec fn near(p: meta::MetaView, q: meta::MetaView) -> bool {
    &&& p.ts is Some && q.ts is Some && p.serial == q.serial
    &&& 0 <= q.ts->0.unix_centis - p.ts->0.unix_centis <= 60
}

/// A scan makes bursts of pictures that one camera took no more than 0.6
/// seconds apart, and makes them as long as they can be.
pub proof fn scans_cut_at_gaps(v: CullView, before: CullView, metas: Seq<FileMeta>, b: int)
    requires
        v.took_in(before, metas),
        v.wf(),
        0 <= b < v.bursts.len(),
    ensures
        v.metas == metas,
        forall|i: int|
            0 < i < v.bursts[b].len() ==> near(
                metas[v.bursts[b][i - 1].lead() as int]@,
                metas[(#[trigger] v.bursts[b][i]).lead() as int]@,
            ),
        b + 1 < v.bursts.len() ==> !near(
            metas[v.bursts[b].last().lead() as int]@,
            metas[v.bursts[b + 1][0].lead() as int]@,
        ),
{
    let ord = choose|ord: Seq<usize>| #[trigger]
        burst::is_timeline(metas, v.images, ord) && v.bursts == burst::grouped(
            metas,
            v.images,
            GAP_CENTIS as int,
            ord,
        );
    let burst = v.bursts[b];
    assert forall|i: int| 0 < i < burst.len() implies near(
        metas[burst[i - 1].lead() as int]@,
        metas[(#[trigger] burst[i]).lead() as int]@,
    ) by {
        burst::bursts_hold_together(metas, v.images, GAP_CENTIS as int, ord, b, i);
    }
    if b + 1 < v.bursts.len() {
        burst::bursts_end_only_at_gaps(metas, v.images, GAP_CENTIS as int, ord, b);
    }
}

/// What holds of a session after a mark on the picture `id`: that picture is
/// flagged `flag` and has `rating` stars, every other one is as it was, the
/// change can be taken back, and there is something to save.
pub open spec fn is_marked(
    before: CullView,
    after: CullView,
    id: usize,
    flag: Flag,
    rating: int,
) -> bool {
    &&& after.state(id).flag == flag
    &&& after.state(id).rating == rating
    &&& forall|other: usize|
        other != id ==> #[trigger] after.state(other) == before.state(other)
    &&& after.look.dirty
    &&& after.marks.undo.len() == before.marks.undo.len() + 1
    &&& after.performed(Action::Undo, 0).0.marks == before.marks
    &&& after.bursts == before.bursts
    &&& after.images == before.images
    &&& after.metas == before.metas
    &&& after.scores == before.scores
    &&& after.tracks == before.tracks
    &&& after.pending == before.pending
}

proof fn lemma_marked(v: CullView, id: usize, st: ImgState)
    requires
        v.wf(),
    ensures
        is_marked(v, v.changed(seq![(id, st)]), id, st.flag, st.rating as int),
{
    let changes = seq![(id, st)];
    let t = v.changed(changes);
    marks::the_last_decision_holds(v.marks, changes, 0);
    assert forall|other: usize| other != id implies #[trigger] t.state(other) == v.state(other) by {
        marks::unnamed_pictures_stay(v.marks, changes, other);
    }
    marks::undo_takes_back(v.marks, changes);
}

/// Picking, rejecting and clearing mark the frame on screen and keep its
/// stars. After a pick or a rejection the next frame is on screen, if there is
/// one.
pub proof fn flags_mark_the_frame_on_screen(v: CullView, a: Action, cols: int)
    requires
        v.wf(),
        v.look.screen is Burst,
        a is Pick || a is Reject || a is ClearFlag,
    ensures
        ({
            let id = v.current()->0;
            let (t, e) = v.performed(a, cols);
            let (b, frame) = (v.look.screen->b, v.look.screen->frame);
            &&& is_marked(
                v,
                t,
                id,
                match a {
                    Action::Pick => Flag::Picked,
                    Action::Reject => Flag::Rejected,
                    _ => Flag::Unrated,
                },
                v.state(id).rating as int,
            )
            &&& e is Nothing
            &&& t.look.screen is Burst && t.look.screen->b == b
            &&& t.look.screen->frame == frame + if !(a is ClearFlag) && frame + 1
                < v.bursts[b as int].len() {
                1int
            } else {
                0
            }
        }),
{
    let id = v.current()->0;
    let flag = match a {
        Action::Pick => Flag::Picked,
        Action::Reject => Flag::Rejected,
        _ => Flag::Unrated,
    };
    let st = ImgState { flag, ..v.state(id) };
    lemma_marked(v, id, st);
    let t0 = v.changed(seq![(id, st)]);
    let t = v.performed(a, cols).0;
    assert(t.marks == t0.marks);
    assert forall|other: usize| other != id implies #[trigger] t.state(other) == v.state(other) by {
        assert(t0.state(other) == v.state(other));
    }
    assert(t.performed(Action::Undo, 0).0.marks == t0.performed(Action::Undo, 0).0.marks);
}

/// Rating gives the frame on screen the stars that were asked for, one more up
/// to 5, or one less down to none, and keeps its flag and the frame on screen.
pub proof fn stars_go_to_the_frame_on_screen(v: CullView, a: Action, cols: int)
    requires
        v.wf(),
        v.look.screen is Burst,
        a is Rate || a is RateUp || a is RateDown,
        v.state(v.current()->0).rating <= 5,
    ensures
        ({
            let id = v.current()->0;
            let was = v.state(id).rating as int;
            let (t, e) = v.performed(a, cols);
            &&& is_marked(
                v,
                t,
                id,
                v.state(id).flag,
                match a {
                    Action::Rate(r) => r as int,
                    Action::RateUp => if was == 5 {
                        5
                    } else {
                        was + 1
                    },
                    _ => if was == 0 {
                        0
                    } else {
                        was - 1
                    },
                },
            )
            &&& e is Nothing
            &&& t.look.screen == v.look.screen
        }),
{
    let id = v.current()->0;
    let rating = match a {
        Action::Rate(r) => r,
        Action::RateUp => star_more(v.state(id).rating),
        _ => star_less(v.state(id).rating),
    };
    lemma_marked(v, id, ImgState { rating, ..v.state(id) });
}

/// Whether two sessions differ in what is shown at most.
pub open spec fn same_work(v: CullView, t: CullView) -> bool {
    &&& v.metas == t.metas
    &&& v.images == t.images
    &&& v.bursts == t.bursts
    &&& v.marks == t.marks
    &&& v.scores == t.scores
    &&& v.tracks == t.tracks
    &&& v.pending == t.pending
}

/// Left and right step through the frames of the open burst, one at a time,
/// and stop at its ends; each takes back a step of the other.
pub proof fn arrows_step_through_frames(v: CullView, cols: int)
    requires
        v.wf(),
        v.look.screen is Burst,
    ensures
        ({
            let (b, frame) = (v.look.screen->b, v.look.screen->frame);
            let r = v.performed(Action::NavRight, cols).0;
            let l = v.performed(Action::NavLeft, cols).0;
            let last = v.bursts[b as int].len() - 1;
            &&& same_work(v, r) && same_work(v, l)
            &&& r.look.screen is Burst && r.look.screen->b == b
            &&& l.look.screen is Burst && l.look.screen->b == b
            &&& frame < last ==> r.look.screen->frame == frame + 1
            &&& frame == last ==> r.look.screen->frame == frame
            &&& frame > 0 ==> l.look.screen->frame == frame - 1
            &&& frame == 0 ==> l.look.screen->frame == 0
            &&& frame < last ==> r.performed(Action::NavLeft, cols).0.look.screen
                == v.look.screen
            &&& frame > 0 ==> l.performed(Action::NavRight, cols).0.look.screen == v.look.screen
        }),
{
}

/// Up and down go to the burst before and the one after, to its first frame,
/// and stop at the ends. Nothing that was decided changes.
pub proof fn arrows_step_through_bursts(v: CullView, cols: int)
    requires
        v.wf(),
        v.look.screen is Burst,
    ensures
        ({
            let b = v.look.screen->b;
            let u = v.performed(Action::NavUp, cols).0;
            let d = v.performed(Action::NavDown, cols).0;
            &&& u.marks == v.marks && d.marks == v.marks
            &&& b > 0 ==> u.look.screen == (Screen::Burst { b: (b - 1) as usize, frame: 0 })
            &&& b == 0 ==> u == v
            &&& b + 1 < v.bursts.len() ==> d.look.screen == (Screen::Burst {
                b: (b + 1) as usize,
                frame: 0,
            })
            &&& b + 1 == v.bursts.len() ==> d == v
        }),
{
}

/// On the overview the arrows move the cursor by one burst or by a row, and
/// never off the sheet; a full step is taken back by its opposite.
pub proof fn arrows_move_the_cursor(v: CullView, cols: int)
    requires
        v.wf(),
        v.look.screen is Overview,
        v.bursts.len() > 0,
        0 <= cols,
    ensures
        ({
            let c = v.look.cursor;
            let n = v.bursts.len();
            let r = v.performed(Action::NavRight, cols).0;
            let l = v.performed(Action::NavLeft, cols).0;
            let d = v.performed(Action::NavDown, cols).0;
            let u = v.performed(Action::NavUp, cols).0;
            &&& same_work(v, r) && same_work(v, l) && same_work(v, d) && same_work(v, u)
            &&& r.look.cursor == if c + 1 < n {
                c + 1
            } else {
                n - 1
            }
            &&& l.look.cursor == if c > 0 {
                c - 1
            } else {
                0
            }
            &&& c + cols < n ==> d.look.cursor == c + cols
            &&& c + cols >= n ==> d.look.cursor == n - 1
            &&& c >= cols ==> u.look.cursor == c - cols
            &&& c < cols ==> u.look.cursor == 0
            &&& c + 1 < n ==> r.performed(Action::NavLeft, cols).0.look.cursor == c
            &&& c + cols < n ==> d.performed(Action::NavUp, cols).0.look.cursor == c
            &&& r.look.screen is Overview && l.look.screen is Overview
            &&& d.look.screen is Overview && u.look.screen is Overview
        }),
{
}

/// How many bursts are passed on the way from `from` to `to`, around the end.
pub open spec fn passed(from: int, to: int, n: int) -> int {
    if to > from {
        to - from - 1
    } else {
        to - from - 1 + n
    }
}

proof fn lemma_nearest(v: CullView, from: int, d: int)
    requires
        1 <= d <= v.bursts.len() + 1,
        0 <= from < v.bursts.len() <= usize::MAX,
    ensures
        match v.unculled_from(from, d) {
            Some(nb) => nb < v.bursts.len() && !v.culled(nb as int) && d - 1 <= passed(
                from,
                nb as int,
                v.bursts.len() as int,
            ) && forall|b: int|
                0 <= b < v.bursts.len() && d - 1 <= passed(from, b, v.bursts.len() as int) < passed(
                    from,
                    nb as int,
                    v.bursts.len() as int,
                ) ==> #[trigger] v.culled(b),
            None => forall|b: int|
                0 <= b < v.bursts.len() && d - 1 <= passed(from, b, v.bursts.len() as int)
                    ==> #[trigger] v.culled(b),
        },
    decreases v.bursts.len() + 1 - d,
{
    let n = v.bursts.len() as int;
    if d <= n {
        lemma_nearest(v, from, d + 1);
        let at = (from + d) % n;
        assert(at == if from + d < n {
            from + d
        } else {
            from + d - n
        }) by {
            if from + d < n {
                vstd::arithmetic::div_mod::lemma_small_mod((from + d) as nat, n as nat);
            } else {
                vstd::arithmetic::div_mod::lemma_mod_add_multiples_vanish(from + d - n, n);
                vstd::arithmetic::div_mod::lemma_small_mod((from + d - n) as nat, n as nat);
            }
        }
        assert(passed(from, at, n) == d - 1);
        assert forall|b: int| 0 <= b < n && passed(from, b, n) == d - 1 implies b == at by {}
    }
}

/// The next burst to cull is the nearest one after the current one that still
/// has a frame neither picked nor rejected, around the end; none is found only
/// where every frame of every burst has been decided about.
pub proof fn next_burst_is_the_nearest(v: CullView, from: int, b: int, k: int)
    requires
        v.wf(),
        0 <= from < v.bursts.len(),
        0 <= b < v.bursts.len(),
        0 <= k < v.bursts[b].len(),
        v.state(v.bursts[b][k].lead()).flag == Flag::Unrated,
    ensures
        v.next_unculled(from) matches Some(nb) && nb < v.bursts.len() && (exists|j: int|
            0 <= j < v.bursts[nb as int].len() && v.state(
                (#[trigger] v.bursts[nb as int][j]).lead(),
            ).flag == Flag::Unrated) && passed(from, nb as int, v.bursts.len() as int) <= passed(
            from,
            b,
            v.bursts.len() as int,
        ),
{
    assert(v.state(v.id(b, k)).flag == Flag::Unrated);
    assert(!v.culled(b));
    lemma_nearest(v, from, 1);
    let nb = v.next_unculled(from)->0 as int;
    let j = choose|j: int|
        0 <= j < v.bursts[nb].len() && v.state(#[trigger] v.id(nb, j)).flag == Flag::Unrated;
    assert(v.state(v.bursts[nb][j].lead()).flag == Flag::Unrated);
}

/// Rejecting a whole burst waits for an answer: until then, and after a no,
/// nothing is marked; after a yes every frame of the burst is rejected, its
/// stars stay, and no other picture is touched.
pub proof fn rejecting_all_waits_for_an_answer(v: CullView, cols: int, id: usize)
    requires
        v.wf(),
        v.look.screen is Burst,
    ensures
        ({
            let b = v.look.screen->b as int;
            let t = v.performed(Action::RejectAll, cols).0;
            let (y, n) = (t.answered(true), t.answered(false));
            &&& t.marks == v.marks && n.marks == v.marks
            &&& t.look.confirm is Some && y.look.confirm is None && n.look.confirm is None
            &&& y.state(id).rating == v.state(id).rating
            &&& y.state(id).flag == if exists|k: int|
                0 <= k < v.bursts[b].len() && (#[trigger] v.bursts[b][k]).lead() == id {
                Flag::Rejected
            } else {
                v.state(id).flag
            }
            &&& y.bursts == v.bursts && y.look.screen == v.look.screen
        }),
{
    let b = v.look.screen->b as int;
    let t = v.performed(Action::RejectAll, cols).0;
    let changes = t.reject_changes(b);
    assert(t.answered(true).marks == marks::applied(t.marks, changes));
    if exists|k: int| 0 <= k < v.bursts[b].len() && (#[trigger] v.bursts[b][k]).lead() == id {
        let k = choose|k: int|
            0 <= k < v.bursts[b].len() && (#[trigger] v.bursts[b][k]).lead() == id;
        assert(burst::told_apart(v.bursts[b]));
        assert forall|j: int| k < j < changes.len() implies (#[trigger] changes[j]).0
            != changes[k].0 by {
            assert(v.bursts[b][j].lead() != v.bursts[b][k].lead());
        }
        marks::the_last_decision_holds(t.marks, changes, k);
        assert(changes[k].0 == id);
    } else {
        assert forall|j: int| 0 <= j < changes.len() implies (#[trigger] changes[j]).0 != id by {
            assert(v.bursts[b][j].lead() != id);
        }
        marks::unnamed_pictures_stay(t.marks, changes, id);
    }
}

/// Accepting the open burst keeps its 2 sharpest frames, or all where it has
/// fewer, and opens the next burst to cull, if there is one.
pub proof fn accepting_keeps_two(v: CullView, cols: int)
    requires
        v.wf(),
        v.look.screen is Burst,
    ensures
        ({
            let b = v.look.screen->b as int;
            let n = v.bursts[b].len() as int;
            let t = v.performed(Action::AcceptTop, cols).0;
            &&& t.bursts == v.bursts
            &&& picked_frames(t, b).finite()
            &&& picked_frames(t, b).len() == if n < 2 {
                n
            } else {
                2
            }
            &&& t.culled(b)
            &&& match t.next_unculled(b) {
                Some(nb) => t.look.screen == (Screen::Burst { b: nb, frame: 0 }),
                None => t.look.screen == v.look.screen,
            }
        }),
{
    let b = v.look.screen->b as int;
    let u = v.changed(v.top_changes(b));
    let t = v.performed(Action::AcceptTop, cols).0;
    accepting_picks_the_best(v, b, 2);
    accepting_culls_the_burst(v, b, 2);
    assert(t.marks == u.marks && t.bursts == u.bursts);
    assert(picked_frames(t, b) =~= picked_frames(u, b)) by {
        assert forall|k: int| picked_frames(t, b).contains(k) == picked_frames(u, b).contains(
            k,
        ) by {
            assert(t.id(b, k) == u.id(b, k));
        }
    }
    assert(t.culled(b)) by {
        assert forall|k: int| 0 <= k < t.bursts[b].len() implies t.state(#[trigger] t.id(b, k)).flag
            != Flag::Unrated by {
            assert(u.state(u.id(b, k)).flag != Flag::Unrated);
        }
    }
    lemma_same_unculled(u, t, b, 1);
}

proof fn lemma_same_unculled(u: CullView, t: CullView, from: int, d: int)
    requires
        u.marks == t.marks,
        u.bursts == t.bursts,
    ensures
        u.unculled_from(from, d) == t.unculled_from(from, d),
    decreases u.bursts.len() + 1 - d,
{
    let n = u.bursts.len() as int;
    if d <= n {
        let c = (from + d) % n;
        assert(u.culled(c) == t.culled(c)) by {
            if u.culled(c) {
                assert forall|k: int| 0 <= k < t.bursts[c].len() implies t.state(
                    #[trigger] t.id(c, k),
                ).flag != Flag::Unrated by {
                    assert(u.state(u.id(c, k)).flag != Flag::Unrated);
                }
            }
            if t.culled(c) {
                assert forall|k: int| 0 <= k < u.bursts[c].len() implies u.state(
                    #[trigger] u.id(c, k),
                ).flag != Flag::Unrated by {
                    assert(t.state(t.id(c, k)).flag != Flag::Unrated);
                }
            }
        }
        lemma_same_unculled(u, t, from, d + 1);
    }
}

/// Going back from a burst puts the cursor on it; opening from there shows its
/// first frame. Nothing that was decided changes on the way.
pub proof fn going_back_and_in_again(v: CullView, cols: int)
    requires
        v.wf(),
        v.look.screen is Burst,
    ensures
        ({
            let o = v.performed(Action::BackToOverview, cols).0;
            let i = o.performed(Action::OpenBurst, cols).0;
            &&& same_work(v, o)
            &&& o.look.screen is Overview && o.look.cursor == v.look.screen->b
            &&& o.look.zoom is None && !o.look.inspect
            &&& i.look.screen == (Screen::Burst { b: v.look.screen->b, frame: 0 })
            &&& i.marks == v.marks
        }),
{
}

/// What an action shows or hides is shown or hidden again by doing it twice.
pub proof fn switches_switch_back(v: CullView, a: Action, cols: int)
    requires
        a is ToggleBrighten || a is TogglePeaking || a is ToggleHelp,
    ensures
        ({
            let t = v.performed(a, cols).0;
            &&& a is ToggleBrighten ==> t.look.brighten == !v.look.brighten
            &&& a is TogglePeaking ==> t.look.peaking == !v.look.peaking
            &&& a is ToggleHelp ==> t.look.show_help == !v.look.show_help
            &&& t.performed(a, cols).0 == v
        }),
{
}

/// Zooming shows native pixels or all of the picture in turn, inspection comes
/// and goes, and either ends the other; nothing that was decided or measured
/// changes.
pub proof fn zooming_changes_no_work(v: CullView, cols: int)
    ensures
        ({
            let z = v.performed(Action::ToggleZoom, cols).0;
            let i = v.performed(Action::ToggleInspect, cols).0;
            &&& same_work(v, z) && same_work(v, i)
            &&& z.look.zoom is Some <==> v.look.zoom is None
            &&& z.look.zoom matches Some(f) ==> f.bits == 0x3F80_0000
            &&& !z.look.inspect
            &&& i.look.inspect == !v.look.inspect && i.look.zoom is None
            &&& z.look.screen == v.look.screen && i.look.screen == v.look.screen
        }),
{
}

/// The order of frames steps on to another one, and nothing that was decided,
/// measured or shown changes with it.
pub proof fn the_order_steps_on(v: CullView, cols: int)
    ensures
        ({
            let t = v.performed(Action::ToggleSort, cols).0;
            &&& same_work(v, t)
            &&& t.look.screen == v.look.screen
            &&& v.look.sort == SortMode::Time ==> t.look.sort == SortMode::Sharpness
            &&& v.look.sort == SortMode::Sharpness ==> t.look.sort == SortMode::Coverage
            &&& v.look.sort == SortMode::Coverage ==> t.look.sort == SortMode::Time
        }),
{
}

/// An order that is asked for is the one that is then in effect, and nothing
/// that was decided, measured or shown changes with it.
pub proof fn the_order_is_the_one_asked_for(v: CullView, m: SortMode, cols: int)
    ensures
        v.performed(Action::SetSort(m), cols).0.look.sort == m,
        same_work(v, v.performed(Action::SetSort(m), cols).0),
        v.performed(Action::SetSort(m), cols).0.look.screen == v.look.screen,
{
}

/// Another source means opening the folder again, and only that does; what
/// changes the picture on screen decodes it again.
pub proof fn another_source_reopens(v: CullView, s: Source, cols: int)
    ensures
        v.performed(Action::SetSource(s), cols).0.look.source == s,
        v.performed(Action::SetSource(s), cols).1 is Reopen <==> v.look.source != s,
        same_work(v, v.performed(Action::SetSource(s), cols).0),
        v.performed(Action::ToggleBrighten, cols).1 is Redecode,
        v.performed(Action::TogglePeaking, cols).1 is Redecode,
{
}

/// Another folder starts from nothing but how things are shown.
pub proof fn another_folder_starts_afresh(v: CullView, id: usize)
    ensures
        ({
            let t = v.moved_on();
            &&& t.images.len() == 0 && t.bursts.len() == 0 && t.metas.len() == 0
            &&& t.state(id).flag == Flag::Unrated && t.state(id).rating == 0
            &&& t.marks.undo.len() == 0
            &&& !t.scores.dom().contains(id) && !t.pending.dom().contains(id)
            &&& !t.tracks.roi.dom().contains(id)
            &&& !t.look.dirty && t.look.screen is Overview && t.look.cursor == 0
            &&& t.look.sort == v.look.sort && t.look.source == v.look.source
            &&& t.look.roi_frac == v.look.roi_frac && t.look.use_af == v.look.use_af
            &&& t.look.brighten == v.look.brighten && t.look.peaking == v.look.peaking
            &&& t.tracks.last_id == v.tracks.last_id
        }),
{
}

/// An action that marks pictures does nothing where it does not apply: on the
/// overview, or where there is nothing to take back.
pub proof fn what_does_not_apply_does_nothing(v: CullView, a: Action, cols: int)
    requires
        !v.enabled(a),
        a is Undo || a is Pick || a is Reject || a is ClearFlag || a is Rate || a is RateUp
            || a is RateDown || a is AcceptTop,
    ensures
        v.performed(a, cols).0 == v,
        v.performed(a, cols).1 is Nothing,
        a is Undo ==> v.marks.undo.len() == 0,
        !(a is Undo) ==> v.look.screen is Overview,
{
}

/// Pinning a point on a frame asks for a track of the whole burst from that
/// pin and those of the other frames, and from no earlier pin of that frame.
pub proof fn pins_replace_their_own_frames(
    v: CullView,
    b: int,
    id: usize,
    x: Real32,
    y: Real32,
    pin: Pin,
)
    requires
        0 <= b < v.bursts.len() <= usize::MAX,
    ensures
        ({
            let (t, e) = v.pinned(b, id, x, y);
            &&& e is Track
            &&& e->0.seeds.contains(pin) <==> pin == (Pin { frame: id, x, y }) || (pin.frame != id
                && v.tracks.seeds(b as usize).contains(pin))
            &&& e->0.seeds.last() == (Pin { frame: id, x, y })
            &&& e->0.frames.len() == v.bursts[b].len()
            &&& forall|k: int|
                0 <= k < v.bursts[b].len() ==> #[trigger] e->0.frames[k] == v.bursts[b][k].lead()
            &&& e->0.roi_frac == v.look.roi_frac && e->0.use_af == v.look.use_af
            &&& t.tracks.roi.dom().contains(b as usize)
            &&& t.tracks.roi[b as usize].seeds == e->0.seeds
            &&& t.tracks.roi[b as usize].req_id == e->0.req_id && !t.tracks.roi[b as usize].done
            &&& t.marks == v.marks && t.bursts == v.bursts && t.look.dirty
        }),
{
    let seeds = v.tracks.seeds(b as usize);
    let kept = roi::without_frame(seeds, id);
    let new = Pin { frame: id, x, y };
    let all = kept.push(new);
    lemma_without_frame(seeds, id, pin);
    assert(all.last() == new);
    if kept.contains(pin) {
        let i = choose|i: int| 0 <= i < kept.len() && kept[i] == pin;
        assert(all[i] == pin);
    }
    if all.contains(pin) {
        let i = choose|i: int| 0 <= i < all.len() && all[i] == pin;
        if i < kept.len() {
            assert(kept[i] == pin);
        }
    }
}

proof fn lemma_without_frame(seeds: Seq<Pin>, id: usize, pin: Pin)
    ensures
        roi::without_frame(seeds, id).contains(pin) <==> pin.frame != id && seeds.contains(pin),
{
    broadcast use vstd::seq_lib::group_filter_ensures;

    let keep = |p: Pin| p.frame != id;
    let kept = seeds.filter(keep);
    assert(roi::without_frame(seeds, id) == kept);
    if kept.contains(pin) {
        let i = choose|i: int| 0 <= i < kept.len() && kept[i] == pin;
        assert(keep(kept[i]));
        seeds.lemma_filter_contains_rev(keep, pin);
    }
    if pin.frame != id && seeds.contains(pin) {
        let i = choose|i: int| 0 <= i < seeds.len() && seeds[i] == pin;
        assert(keep(seeds[i]));
    }
}

/// Taking a pin away leaves those of the other frames; the track ends where
/// none is left and the camera gives no eye point to follow.
pub proof fn unpinning_keeps_the_other_pins(v: CullView, b: int, id: usize, pin: Pin)
    requires
        0 <= b < v.bursts.len() <= usize::MAX,
    ensures
        ({
            let (t, e) = v.unpinned(b, id);
            &&& e is Track ==> (e->0.seeds.contains(pin) <==> pin.frame != id && v.tracks.seeds(
                b as usize,
            ).contains(pin))
            &&& pin.frame != id && v.tracks.seeds(b as usize).contains(pin) ==> e is Track
            &&& e is Nothing ==> !t.tracks.roi.dom().contains(b as usize)
            &&& e is Nothing || e is Track
            &&& t.marks == v.marks && t.bursts == v.bursts
        }),
{
    lemma_without_frame(v.tracks.seeds(b as usize), id, pin);
}

/// A new session has nothing scanned, marked or measured, and shows the
/// overview in order of sharpness, with the camera's eye points in use.
pub proof fn new_sessions_start_empty(
    source: Source,
    roi_frac: Real32,
    brighten: bool,
    peaking: bool,
    id: usize,
)
    ensures
        ({
            let v = blank_session(source, roi_frac, brighten, peaking);
            &&& v.metas.len() == 0 && v.images.len() == 0 && v.bursts.len() == 0
            &&& v.state(id).flag == Flag::Unrated && v.state(id).rating == 0
            &&& v.marks.undo.len() == 0 && !v.scores.dom().contains(id)
            &&& !v.tracks.roi.dom().contains(id) && !v.pending.dom().contains(id)
            &&& v.look.screen is Overview && v.look.sort == SortMode::Sharpness
            &&& v.look.source == source && v.look.roi_frac == roi_frac
            &&& v.look.brighten == brighten && v.look.peaking == peaking
            &&& v.look.use_af && !v.look.dirty && v.look.confirm is None
            &&& !v.look.harvest_open && !v.look.show_help && !v.look.show_about
            &&& v.look.zoom is None && !v.look.inspect
        }),
{
}

/// Every frame of every burst is scored, and nothing else is.
pub proof fn every_frame_is_scored(v: CullView, k: int, id: usize)
    requires
        0 <= k <= v.bursts.len(),
    ensures
        v.all_ids(k).contains(id) <==> exists|b: int, j: int|
            0 <= b < k && 0 <= j < v.bursts[b].len() && (#[trigger] v.bursts[b][j]).lead() == id,
    decreases k,
{
    if k > 0 {
        every_frame_is_scored(v, k - 1, id);
        let (rest, more) = (v.all_ids(k - 1), v.ids(k - 1));
        let all = v.all_ids(k);
        if rest.contains(id) {
            let i = choose|i: int| 0 <= i < rest.len() && rest[i] == id;
            assert(all[i] == id);
        }
        if more.contains(id) {
            let i = choose|i: int| 0 <= i < more.len() && more[i] == id;
            assert(all[rest.len() + i] == id);
            assert(v.bursts[k - 1][i].lead() == id);
        }
        if all.contains(id) {
            let i = choose|i: int| 0 <= i < all.len() && all[i] == id;
            if i < rest.len() {
                assert(rest[i] == id);
                assert(rest.contains(id));
            } else {
                assert(more[i - rest.len()] == id);
                assert(more.contains(id));
            }
        }
        if exists|b: int, j: int|
            0 <= b < k && 0 <= j < v.bursts[b].len() && (#[trigger] v.bursts[b][j]).lead() == id {
            let (b, j) = choose|b: int, j: int|
                0 <= b < k && 0 <= j < v.bursts[b].len() && (#[trigger] v.bursts[b][j]).lead()
                    == id;
            if b == k - 1 {
                assert(more[j] == id);
                assert(more.contains(id));
            }
        }
    }
}

/// Resizing the measuring area runs the burst's track again from its pins, and
/// does nothing else where it has none.
pub proof fn resizing_runs_the_track_again(v: CullView, b: int, roi_frac: Real32)
    requires
        0 <= b < v.bursts.len() <= usize::MAX,
    ensures
        ({
            let (t, e) = v.resized(b, roi_frac);
            &&& t.look.roi_frac == roi_frac
            &&& e is Track <==> v.tracks.roi.dom().contains(b as usize)
            &&& e is Track ==> e->0.seeds == v.tracks.roi[b as usize].seeds && e->0.roi_frac
                == roi_frac && e->0.frames.len() == v.bursts[b].len()
            &&& e is Track || e is Nothing
            &&& t.marks == v.marks && t.bursts == v.bursts && t.scores == v.scores
            &&& t.look.screen == v.look.screen
        }),
{
}

proof fn lemma_taken_pins(
    pending: Map<usize, (Real32, Real32)>,
    ids: Seq<usize>,
    k: int,
    id: usize,
)
    requires
        0 <= k <= ids.len(),
        ids.no_duplicates(),
    ensures
        ({
            let (pins, rest) = taken_pins(pending, ids, k);
            let taken = exists|i: int| 0 <= i < k && #[trigger] ids[i] == id;
            &&& rest.dom().contains(id) <==> pending.dom().contains(id) && !taken
            &&& rest.dom().contains(id) ==> rest[id] == pending[id]
            &&& pending.dom().contains(id) && taken ==> pins.contains(
                Pin { frame: id, x: pending[id].0, y: pending[id].1 },
            )
            &&& forall|j: int|
                0 <= j < pins.len() && (#[trigger] pins[j]).frame == id ==> taken
                    && pending.dom().contains(id) && pins[j] == (Pin {
                    frame: id,
                    x: pending[id].0,
                    y: pending[id].1,
                })
        }),
    decreases k,
{
    if k > 0 {
        lemma_taken_pins(pending, ids, k - 1, id);
        let (pins0, rest0) = taken_pins(pending, ids, k - 1);
        let (pins, rest) = taken_pins(pending, ids, k);
        let last = ids[k - 1];
        lemma_taken_pins(pending, ids, k - 1, last);
        let pin = Pin { frame: id, x: pending[id].0, y: pending[id].1 };
        assert(!(exists|i: int| 0 <= i < k - 1 && #[trigger] ids[i] == last)) by {
            assert forall|i: int| 0 <= i < k - 1 implies #[trigger] ids[i] != last by {}
        }
        if pins0.contains(pin) {
            let j = choose|j: int| 0 <= j < pins0.len() && pins0[j] == pin;
            assert(pins[j] == pin);
        }
        if last == id {
            assert(ids[k - 1] == id);
            if pending.dom().contains(id) {
                assert(pins[pins.len() - 1] == pin);
            }
        }
        assert forall|j: int| 0 <= j < pins.len() && (#[trigger] pins[j]).frame == id implies (
        exists|i: int| 0 <= i < k && #[trigger] ids[i] == id) && pending.dom().contains(id)
            && pins[j] == pin by {
            if j < pins0.len() {
                assert(pins[j] == pins0[j]);
                let i = choose|i: int| 0 <= i < k - 1 && #[trigger] ids[i] == id;
                assert(ids[i] == id);
            } else {
                assert(ids[k - 1] == id);
            }
        }
    }
}

/// Opening a burst that has no track takes the saved pins of its frames and
/// starts from them; pins of other frames stay saved. Where it has a track,
/// that is kept, and nothing is started.
pub proof fn opening_starts_from_saved_pins(v: CullView, b: int, id: usize)
    requires
        v.wf(),
        0 <= b < v.bursts.len(),
    ensures
        ({
            let (t, e) = v.entered(b);
            let here = exists|k: int|
                0 <= k < v.bursts[b].len() && (#[trigger] v.bursts[b][k]).lead() == id;
            let running = v.tracks.roi.dom().contains(b as usize);
            &&& t.look.screen == (Screen::Burst { b: b as usize, frame: 0 })
            &&& t.marks == v.marks && t.bursts == v.bursts && t.scores == v.scores
            &&& t.look.zoom == v.look.zoom && t.look.inspect == v.look.inspect
            &&& running ==> e is Nothing && t.tracks == v.tracks && t.pending == v.pending
            &&& !running && here && v.pending.dom().contains(id) ==> e is Track && e->0.seeds.contains(
                Pin { frame: id, x: v.pending[id].0, y: v.pending[id].1 },
            ) && !t.pending.dom().contains(id)
            &&& !here ==> (t.pending.dom().contains(id) <==> v.pending.dom().contains(id))
            &&& !running && v.look.use_af && v.has_eye(b) ==> e is Track
        }),
{
    let v1 = CullView {
        look: Look {
            screen: Screen::Burst { b: b as usize, frame: 0 },
            pan: no_pan(),
            ..v.look
        },
        ..v
    };
    let ids = v1.ids(b);
    assert(burst::told_apart(v.bursts[b]));
    assert(ids.no_duplicates()) by {
        assert forall|i: int, j: int| 0 <= i < ids.len() && 0 <= j < ids.len() && i != j implies ids[i]
            != ids[j] by {
            assert(v.bursts[b][i].lead() != v.bursts[b][j].lead());
        }
    }
    lemma_taken_pins(v.pending, ids, ids.len() as int, id);
    if exists|k: int| 0 <= k < v.bursts[b].len() && (#[trigger] v.bursts[b][k]).lead() == id {
        let k = choose|k: int| 0 <= k < v.bursts[b].len() && (#[trigger] v.bursts[b][k]).lead() == id;
        assert(ids[k] == id);
    }
    if exists|i: int| 0 <= i < ids.len() && #[trigger] ids[i] == id {
        let i = choose|i: int| 0 <= i < ids.len() && #[trigger] ids[i] == id;
        assert(v.bursts[b][i].lead() == id);
    }
    if v.has_eye(b) {
        let k = choose|k: int|
            0 <= k < v.bursts[b].len() && meta::eye_box(
                v.metas[#[trigger] v.id(b, k) as int]@,
            ) is Some;
        assert(meta::eye_box(v1.metas[v1.id(b, k) as int]@) is Some);
        assert(v1.has_eye(b));
    }
}

/// The frame on screen is the one at its place in the display order of the
/// open burst.
pub proof fn the_ranked_frame_is_on_screen(v: CullView)
    requires
        v.wf(),
    ensures
        v.look.screen is Overview <==> v.current() is None,
        v.look.screen matches Screen::Burst { b, frame } ==> v.current() == Some(
            v.bursts[b as int][v.order(b as int)[frame as int] as int].lead(),
        ),
{
}

/// Marking, accepting and zooming apply to an open burst; stepping and
/// harvesting where there are bursts, opening one on the overview only;
/// saving where something was decided, taking back where something was
/// changed; and clearing a track or a pin where there is one.
pub proof fn actions_apply_where_they_can(v: CullView, a: Action)
    requires
        v.wf(),
    ensures
        a is Pick || a is Reject || a is ClearFlag || a is Rate || a is RateUp || a is RateDown || a
            is AcceptTop || a is RejectAll || a is BackToOverview || a is ToggleZoom || a
            is ToggleInspect ==> (v.enabled(a) <==> v.look.screen is Burst),
        a is Harvest || a is NextUnculled || a is NavLeft || a is NavRight || a is NavUp || a
            is NavDown ==> (v.enabled(a) <==> v.bursts.len() > 0),
        a is OpenBurst ==> (v.enabled(a) <==> v.bursts.len() > 0 && v.look.screen is Overview),
        a is Undo ==> (v.enabled(a) <==> v.marks.undo.len() > 0),
        a is SaveSession ==> (v.enabled(a) <==> exists|id: usize| #[trigger]
            v.state(id).flag != Flag::Unrated || v.state(id).rating > 0),
        a is ClearTrack ==> (v.enabled(a) <==> v.look.screen is Burst
            && v.tracks.roi.dom().contains(v.look.screen->b)),
        a is Unpin ==> (v.enabled(a) <==> v.look.screen is Burst && exists|i: int|
            0 <= i < v.tracks.seeds(v.look.screen->b).len() && (#[trigger] v.tracks.seeds(
                v.look.screen->b,
            )[i]).frame == v.current()->0),
        a is OpenFolder || a is OpenRecipe || a is Quit || a is ToggleHelp || a is ShowAbout || a
            is ToggleSort || a is SetSort || a is SetSource || a is ToggleBrighten || a
            is TogglePeaking || a is ToggleAfPins ==> v.enabled(a),
{
    if a is SaveSession {
        let m = v.marks.state;
        if !(m =~= Map::<usize, ImgState>::empty()) {
            assert(exists|id: usize| m.dom().contains(id)) by {
                if forall|id: usize| !m.dom().contains(id) {
                    assert(m =~= Map::<usize, ImgState>::empty());
                }
            }
            let id = choose|id: usize| m.dom().contains(id);
            assert(m[id] != marks::blank());
            assert(v.state(id).flag != Flag::Unrated || v.state(id).rating > 0);
        }
    }
}

} // verus!
