//! Decisions of the background engine: what is queued, what runs next, how a
//! job is decoded, and how a click-and-track run goes through a burst. The
//! UI requests thumbs/previews/scores for what is visible; higher-priority
//! jobs (the frame under the cursor) jump the queue.

use vstd::prelude::*;
use crate::formats::Source;
use crate::meta;
use crate::meta::FileMeta;
use crate::score::Rect;
use crate::single::Real32;
use crate::sort;
use crate::sort::Ranking;
use crate::text;
use crate::track;

verus! {

#[derive(Debug, Clone, Copy, PartialEq, Eq, Hash, Structural)]
pub enum JobKind {
    /// Small grid thumbnail (~200 px), always from the embedded preview.
    Thumb,
    /// Main-view image (~1600-2000 px) from the engine's `Source`.
    Preview,
    /// Full-resolution embedded JPEG for 100% zoom.
    Full,
    /// Global sharpness score (cache-backed).
    Score,
}

/// Where a frame's focus point and eye measurement came from.
#[derive(Debug, Clone, Copy, PartialEq, Eq, Structural)]
pub enum RoiKind {
    /// The camera's eye-AF frame, pupil measured at native resolution.
    EyeCamera,
    /// A pinned or tracked point, pupil measured at native resolution.
    EyeTracked,
}

/// Native-resolution pupil measurement.
#[derive(Debug, Clone, Copy, PartialEq, Eq, Structural)]
pub struct EyeMark {
    /// Pupil radius as a fraction of the long edge (for drawing).
    pub r_frac: Real32,
    /// 10-90% rise width of the pupil rim in native px (lower = sharper).
    pub width_px: Real32,
    /// p90/p50 of the rim widths; above ~1.3 the blur is directional.
    pub anisotropy: Real32,
}

/// One job in the queue.
#[derive(Debug, Clone, Copy, PartialEq, Eq, Structural)]
pub struct Job {
    pub priority: i32,
    /// Tie-break: newer requests first (locality of navigation).
    pub seq: u64,
    pub kind: JobKind,
    pub idx: usize,
}

/// A user's pin: frame (as meta index) and position as fractions of the
/// upright image.
#[derive(Debug, Clone, Copy, PartialEq, Eq, Structural)]
pub struct Pin {
    pub frame: usize,
    pub x: Real32,
    pub y: Real32,
}

/// A click-and-track request over one burst (frames in capture order, as
/// meta indices). Every frame follows its nearest pin.
#[derive(Debug)]
pub struct TrackRequest {
    pub req_id: u64,
    pub frames: Vec<usize>,
    pub seeds: Vec<Pin>,
    /// Eye search half-size for frames WITHOUT a camera eye box, as a
    /// fraction of the image's long edge.
    pub roi_frac: Real32,
    /// Use the camera's eye-AF frames as implicit pins.
    pub use_af: bool,
}

/// Whether `a` runs before `b`: higher priority first, then newer.
pub open spec fn runs_before(a: Job, b: Job) -> bool {
    a.priority > b.priority || (a.priority == b.priority && a.seq > b.seq)
}

/// The priority queue of jobs. Each picture has at most one job of a kind in
/// it.
pub struct JobQueue {
    jobs: Vec<Job>,
    seq: u64,
}

impl JobQueue {
    /// The queued jobs, in no particular order.
    pub closed spec fn jobs(self) -> Seq<Job> {
        self.jobs@
    }

    /// Number of jobs ever queued.
    pub closed spec fn issued(self) -> u64 {
        self.seq
    }

    /// No job is queued twice, and later jobs have higher numbers.
    pub open spec fn wf(self) -> bool {
        &&& forall|i: int| 0 <= i < self.jobs().len() ==> (#[trigger] self.jobs()[i]).seq <= self.issued()
        &&& forall|i: int, j: int|
            0 <= i < j < self.jobs().len() ==> (#[trigger] self.jobs()[i]).seq != (
            #[trigger] self.jobs()[j]).seq
        &&& forall|i: int, j: int|
            0 <= i < j < self.jobs().len() ==> !same_work(
                #[trigger] self.jobs()[i],
                #[trigger] self.jobs()[j],
            )
    }

    /// Whether a job of the kind is queued for the picture.
    pub open spec fn holds(self, kind: JobKind, idx: usize) -> bool {
        exists|i: int|
            0 <= i < self.jobs().len() && (#[trigger] self.jobs()[i]).kind == kind
                && self.jobs()[i].idx == idx
    }

    /// An empty queue.
    pub fn new() -> (r: JobQueue)
        ensures
            r.wf(),
            r.jobs() == Seq::<Job>::empty(),
            r.issued() == 0,
    {
        JobQueue { jobs: Vec::new(), seq: 0 }
    }

    /// Number of queued jobs.
    pub fn len(&self) -> (r: usize)
        ensures
            r == self.jobs().len(),
    {
        self.jobs.len()
    }

    /// Queue a job (idempotent while queued); tells whether it is new.
    pub fn push(&mut self, kind: JobKind, idx: usize, priority: i32) -> (r: bool)
        requires
            old(self).wf(),
            old(self).issued() < u64::MAX,
        ensures
            final(self).wf(),
            r == !old(self).holds(kind, idx),
            r ==> final(self).issued() == old(self).issued() + 1 && final(self).jobs() == old(
                self,
            ).jobs().push(Job { priority, seq: final(self).issued(), kind, idx }),
            !r ==> final(self).issued() == old(self).issued() && final(self).jobs() == old(
                self,
            ).jobs(),
    {
        let mut i: usize = 0;
        while i < self.jobs.len()
            invariant
                i <= self.jobs@.len(),
                self.jobs() == self.jobs@,
                self.jobs() == old(self).jobs(),
                self.issued() == old(self).issued(),
                self.wf(),
                forall|k: int|
                    0 <= k < i ==> !((#[trigger] self.jobs@[k]).kind == kind && self.jobs@[k].idx
                        == idx),
            decreases self.jobs@.len() - i,
        {
            if self.jobs[i].kind == kind && self.jobs[i].idx == idx {
                assert(self.jobs()[i as int].kind == kind);
                return false;
            }
            i += 1;
        }
        self.seq = self.seq + 1;
        self.jobs.push(Job { priority, seq: self.seq, kind, idx });
        true
    }

    /// Takes the job that runs next out of the queue: the highest priority,
    /// the newest of equal ones.
    pub fn pop(&mut self) -> (r: Option<Job>)
        requires
            old(self).wf(),
        ensures
            final(self).wf(),
            final(self).issued() == old(self).issued(),
            r is None <==> old(self).jobs().len() == 0,
            r is None ==> final(self).jobs() == old(self).jobs(),
            r matches Some(j) ==> exists|i: int|
                #![trigger old(self).jobs()[i]]
                0 <= i < old(self).jobs().len() && old(self).jobs()[i] == j && final(self).jobs()
                    == old(self).jobs().remove(i) && forall|k: int|
                    0 <= k < old(self).jobs().len() && k != i ==> runs_before(
                        j,
                        #[trigger] old(self).jobs()[k],
                    ),
    {
        if self.jobs.len() == 0 {
            return None;
        }
        let mut best: usize = 0;
        let mut i: usize = 1;
        while i < self.jobs.len()
            invariant
                1 <= i <= self.jobs@.len(),
                best < i,
                self.wf(),
                self.jobs() == self.jobs@,
                forall|k: int|
                    0 <= k < i && k != best ==> runs_before(
                        self.jobs@[best as int],
                        #[trigger] self.jobs@[k],
                    ),
            decreases self.jobs@.len() - i,
        {
            let (a, b) = (self.jobs[i], self.jobs[best]);
            assert(self.jobs()[best as int].seq != self.jobs()[i as int].seq);
            if a.priority > b.priority || (a.priority == b.priority && a.seq > b.seq) {
                best = i;
            }
            i += 1;
        }
        let ghost before = self.jobs();
        let ghost old_self = *self;
        let j = self.jobs.remove(best);
        proof {
            assert(self.jobs() == before.remove(best as int));
            assert forall|a: int| 0 <= a < self.jobs().len() implies (#[trigger] self.jobs()[a]).seq
                <= self.issued() by {
                let a2 = if a < best {
                    a
                } else {
                    a + 1
                };
                assert(self.jobs()[a] == before[a2]);
                assert(old_self.jobs()[a2].seq <= old_self.issued());
            }
            assert forall|a: int, b: int| 0 <= a < b < self.jobs().len() implies (
            #[trigger] self.jobs()[a]).seq != (#[trigger] self.jobs()[b]).seq && !same_work(
                self.jobs()[a],
                self.jobs()[b],
            ) by {
                let a2 = if a < best {
                    a
                } else {
                    a + 1
                };
                let b2 = if b < best {
                    b
                } else {
                    b + 1
                };
                assert(self.jobs()[a] == old_self.jobs()[a2]);
                assert(self.jobs()[b] == old_self.jobs()[b2]);
            }
            assert(old(self).jobs()[best as int] == j);
        }
        Some(j)
    }
}

/// Whether two jobs are for the same kind and picture.
pub open spec fn same_work(a: Job, b: Job) -> bool {
    a.kind == b.kind && a.idx == b.idx
}

/// What the workers share.
pub struct QueueState {
    pub jobs: JobQueue,
    pub tracks: Vec<TrackRequest>,
    /// The scan is done, so that pictures can be asked for.
    pub ready: bool,
    pub shutdown: bool,
}

/// What a worker does next.
pub enum Work {
    /// The engine stops.
    Stop,
    /// A click-and-track run.
    Track(TrackRequest),
    Job(Job),
    /// Nothing to do.
    Wait,
}

impl QueueState {
    pub open spec fn wf(self) -> bool {
        self.jobs.wf()
    }

    /// Nothing queued, nothing scanned.
    pub fn new() -> (r: QueueState)
        ensures
            r.wf(),
            r.jobs.jobs() == Seq::<Job>::empty(),
            r.jobs.issued() == 0,
            r.tracks@ == Seq::<TrackRequest>::empty(),
            !r.ready,
            !r.shutdown,
    {
        QueueState { jobs: JobQueue::new(), tracks: Vec::new(), ready: false, shutdown: false }
    }

    /// Queue a job (idempotent while queued); ignored before the scan is
    /// done. Tells whether a worker has to be woken.
    pub fn request(&mut self, kind: JobKind, idx: usize, priority: i32) -> (r: bool)
        requires
            old(self).wf(),
            old(self).jobs.issued() < u64::MAX,
        ensures
            final(self).wf(),
            final(self).tracks@ == old(self).tracks@,
            final(self).ready == old(self).ready,
            final(self).shutdown == old(self).shutdown,
            r == (old(self).ready && !old(self).jobs.holds(kind, idx)),
            r ==> final(self).jobs.jobs() == old(self).jobs.jobs().push(
                Job { priority, seq: final(self).jobs.issued(), kind, idx },
            ) && final(self).jobs.issued() == old(self).jobs.issued() + 1,
            !r ==> final(self).jobs.jobs() == old(self).jobs.jobs() && final(self).jobs.issued()
                == old(self).jobs.issued(),
    {
        if !self.ready {
            return false;
        }
        self.jobs.push(kind, idx, priority)
    }

    /// Queue a click-and-track run; ignored before the scan is done. Tells
    /// whether a worker has to be woken.
    pub fn request_track(&mut self, req: TrackRequest) -> (r: bool)
        requires
            old(self).wf(),
        ensures
            final(self).wf(),
            final(self).jobs == old(self).jobs,
            final(self).ready == old(self).ready,
            final(self).shutdown == old(self).shutdown,
            r == old(self).ready,
            final(self).tracks@ == (if r {
                old(self).tracks@.push(req)
            } else {
                old(self).tracks@
            }),
    {
        if !self.ready {
            return false;
        }
        self.tracks.push(req);
        true
    }

    /// What a worker does next: stopping comes first, then the newest track,
    /// then the job that is due.
    pub fn next_work(&mut self) -> (r: Work)
        requires
            old(self).wf(),
        ensures
            final(self).wf(),
            final(self).ready == old(self).ready,
            final(self).shutdown == old(self).shutdown,
            final(self).jobs.issued() == old(self).jobs.issued(),
            match r {
                Work::Stop => old(self).shutdown && *final(self) == *old(self),
                Work::Track(t) => {
                    &&& !old(self).shutdown
                    &&& old(self).tracks@.len() > 0
                    &&& t == old(self).tracks@.last()
                    &&& final(self).tracks@ == old(self).tracks@.drop_last()
                    &&& final(self).jobs == old(self).jobs
                },
                Work::Job(j) => {
                    &&& !old(self).shutdown
                    &&& old(self).tracks@.len() == 0
                    &&& final(self).tracks@ == old(self).tracks@
                    &&& exists|i: int|
                        #![trigger old(self).jobs.jobs()[i]]
                        0 <= i < old(self).jobs.jobs().len() && old(self).jobs.jobs()[i] == j
                            && final(self).jobs.jobs() == old(self).jobs.jobs().remove(i)
                            && forall|k: int|
                            0 <= k < old(self).jobs.jobs().len() && k != i ==> runs_before(
                                j,
                                #[trigger] old(self).jobs.jobs()[k],
                            )
                },
                Work::Wait => {
                    &&& !old(self).shutdown
                    &&& old(self).tracks@.len() == 0
                    &&& old(self).jobs.jobs().len() == 0
                    &&& final(self).jobs.jobs() == old(self).jobs.jobs()
                    &&& final(self).tracks@ == old(self).tracks@
                },
            },
    {
        if self.shutdown {
            return Work::Stop;
        }
        if let Some(t) = self.tracks.pop() {
            return Work::Track(t);
        }
        match self.jobs.pop() {
            Some(j) => Work::Job(j),
            None => Work::Wait,
        }
    }

    /// Queued plus executing work, so the UI can show it is busy.
    pub fn busy(&self, active: usize) -> (r: usize)
        requires
            self.jobs.jobs().len() + self.tracks@.len() + active <= usize::MAX,
        ensures
            r == self.jobs.jobs().len() + self.tracks@.len() + active,
    {
        self.jobs.len() + self.tracks.len() + active
    }
}

/// How an image job is decoded.
#[derive(Debug, Clone, Copy, PartialEq, Eq, Structural)]
pub struct DecodePlan {
    /// Smallest long edge; the image may be larger.
    pub min_long_edge: usize,
    pub source: Source,
    pub brighten: bool,
    pub peaking: bool,
}

/// Smallest long edge that a full-resolution decode may be scaled to: none.
pub const NO_SCALING: usize = 0x7fff_ffff;

/// How a job of the given kind is decoded; nothing where it is no image.
pub open spec fn decode_plan(
    kind: JobKind,
    source: Source,
    brighten: bool,
    peaking: bool,
) -> Option<DecodePlan> {
    match kind {
        JobKind::Thumb => Some(
            DecodePlan { min_long_edge: 200, source: Source::Embedded, brighten, peaking: false },
        ),
        JobKind::Preview => Some(DecodePlan { min_long_edge: 1600, source, brighten, peaking }),
        JobKind::Full => Some(
            DecodePlan { min_long_edge: NO_SCALING, source: Source::Full, brighten, peaking },
        ),
        JobKind::Score => None,
    }
}

/// How a job is decoded. Thumbs stay embedded (scaling stops at 1/8, so a
/// full-image thumb would be ~1000 px); 100% zoom is always the full image.
/// Thumbs have no focus peaking.
pub fn plan_decode(kind: JobKind, source: Source, brighten: bool, peaking: bool) -> (r: Option<
    DecodePlan,
>)
    ensures
        r == decode_plan(kind, source, brighten, peaking),
{
    match kind {
        JobKind::Thumb => Some(
            DecodePlan { min_long_edge: 200, source: Source::Embedded, brighten, peaking: false },
        ),
        JobKind::Preview => Some(DecodePlan { min_long_edge: 1600, source, brighten, peaking }),
        JobKind::Full => Some(
            DecodePlan { min_long_edge: NO_SCALING, source: Source::Full, brighten, peaking },
        ),
        JobKind::Score => None,
    }
}

/// What the scan does with a directory entry.
#[derive(Debug, Clone, Copy, PartialEq, Eq, Structural)]
pub enum Entry {
    /// Hidden, or no photo.
    Ignore,
    /// A directory to walk into.
    Descend,
    /// A photo.
    Take,
}

/// What the scan does with an entry of the given name, which is a directory
/// or a file of the given kind: hidden ones are ignored.
pub fn classify_entry(name: &str, is_dir: bool, kind: Option<meta::FileKind>) -> (r: Entry)
    ensures
        r == (if text::has_prefix(name@, "."@) {
            Entry::Ignore
        } else if is_dir {
            Entry::Descend
        } else if kind is Some {
            Entry::Take
        } else {
            Entry::Ignore
        }),
        r is Descend ==> is_dir,
        r is Take ==> !is_dir && kind is Some,
        name@.len() > 0 && name@[0] == '.' ==> r is Ignore,
        (name@.len() == 0 || name@[0] != '.') && (is_dir || kind is Some) ==> !(r is Ignore),
{
    proof {
        reveal_strlit(".");
        assert("."@ =~= seq!['.']);
        if name@.len() > 0 {
            assert(name@.take(1)[0] == name@[0]);
            if name@[0] == '.' {
                assert(name@.take(1) =~= "."@);
            }
        }
    }
    if text::starts_with(name, ".") {
        Entry::Ignore
    } else if is_dir {
        Entry::Descend
    } else if kind.is_some() {
        Entry::Take
    } else {
        Entry::Ignore
    }
}

/// Whether `f` is the frame of one of the pins.
pub open spec fn is_pinned(seeds: Seq<Pin>, f: usize) -> bool {
    exists|i: int| 0 <= i < seeds.len() && (#[trigger] seeds[i]).frame == f
}

/// The frames among the first `k` whose focus point the camera gives: those
/// with an eye frame and without a pin, each once.
pub open spec fn camera_pins(
    metas: Seq<FileMeta>,
    frames: Seq<usize>,
    seeds: Seq<Pin>,
    k: int,
) -> Seq<usize>
    decreases k,
{
    if k <= 0 {
        Seq::empty()
    } else {
        let rest = camera_pins(metas, frames, seeds, k - 1);
        let f = frames[k - 1];
        if !is_pinned(seeds, f) && !rest.contains(f) && meta::eye_box(metas[f as int]@) is Some {
            rest.push(f)
        } else {
            rest
        }
    }
}

/// The frames whose focus point the camera gives: implicit pins on frames
/// without a user pin.
pub fn find_camera_pins(metas: &Vec<FileMeta>, req: &TrackRequest) -> (r: Vec<usize>)
    requires
        forall|i: int| 0 <= i < req.frames@.len() ==> #[trigger] req.frames@[i] < metas@.len(),
    ensures
        r@ == (if req.use_af {
            camera_pins(metas@, req.frames@, req.seeds@, req.frames@.len() as int)
        } else {
            Seq::empty()
        }),
{
    let mut out: Vec<usize> = Vec::new();
    if !req.use_af {
        return out;
    }
    let mut i: usize = 0;
    while i < req.frames.len()
        invariant
            i <= req.frames@.len(),
            forall|k: int| 0 <= k < req.frames@.len() ==> #[trigger] req.frames@[k] < metas@.len(),
            out@ == camera_pins(metas@, req.frames@, req.seeds@, i as int),
        decreases req.frames@.len() - i,
    {
        let f: usize = req.frames[i];
        if !has_pin(&req.seeds, f) && !contains(&out, f) && metas[f].af_box_eye().is_some() {
            out.push(f);
        }
        i += 1;
    }
    out
}

/// Whether `f` is the frame of one of the pins.
pub fn has_pin(seeds: &Vec<Pin>, f: usize) -> (r: bool)
    ensures
        r == is_pinned(seeds@, f),
{
    let mut i: usize = 0;
    while i < seeds.len()
        invariant
            i <= seeds@.len(),
            forall|k: int| 0 <= k < i ==> (#[trigger] seeds@[k]).frame != f,
        decreases seeds@.len() - i,
    {
        if seeds[i].frame == f {
            assert(seeds@[i as int].frame == f);
            return true;
        }
        i += 1;
    }
    false
}

/// Whether `v` holds `x`.
pub fn contains(v: &Vec<usize>, x: usize) -> (r: bool)
    ensures
        r == v@.contains(x),
{
    let mut i: usize = 0;
    while i < v.len()
        invariant
            i <= v@.len(),
            forall|k: int| 0 <= k < i ==> #[trigger] v@[k] != x,
        decreases v@.len() - i,
    {
        if v[i] == x {
            assert(v@[i as int] == x);
            return true;
        }
        i += 1;
    }
    false
}

/// Position of `f` among the frames from `k` on; their number where it is
/// not among them.
pub open spec fn position_from(frames: Seq<usize>, f: usize, k: int) -> int
    decreases frames.len() - k,
{
    if k >= frames.len() || frames[k] == f {
        k
    } else {
        position_from(frames, f, k + 1)
    }
}

/// Positions of the first `k` of `pinned` that are among the frames, each
/// with its index in `pinned`.
pub open spec fn pin_places(frames: Seq<usize>, pinned: Seq<usize>, k: int) -> Seq<(usize, usize)>
    decreases k,
{
    if k <= 0 {
        Seq::empty()
    } else {
        let rest = pin_places(frames, pinned, k - 1);
        let p = position_from(frames, pinned[k - 1], 0);
        if p < frames.len() {
            rest.push((p as usize, (k - 1) as usize))
        } else {
            rest
        }
    }
}

fn position(frames: &Vec<usize>, f: usize) -> (r: usize)
    ensures
        r == position_from(frames@, f, 0),
        r <= frames@.len(),
{
    let mut i: usize = 0;
    while i < frames.len() && frames[i] != f
        invariant
            i <= frames@.len(),
            position_from(frames@, f, 0) == position_from(frames@, f, i as int),
        decreases frames@.len() - i,
    {
        i += 1;
    }
    i
}

/// Places the pinned frames in the burst: for each that is in it, its
/// position and its index in `pinned`.
pub fn place_pins(frames: &Vec<usize>, pinned: &Vec<usize>) -> (r: Vec<(usize, usize)>)
    ensures
        r@ == pin_places(frames@, pinned@, pinned@.len() as int),
        forall|i: int| 0 <= i < r@.len() ==> (#[trigger] r@[i]).0 < frames@.len() && r@[i].1
            < pinned@.len(),
{
    let mut out: Vec<(usize, usize)> = Vec::new();
    let mut i: usize = 0;
    while i < pinned.len()
        invariant
            i <= pinned@.len(),
            out@ == pin_places(frames@, pinned@, i as int),
            forall|k: int|
                0 <= k < out@.len() ==> (#[trigger] out@[k]).0 < frames@.len() && out@[k].1 < i,
        decreases pinned@.len() - i,
    {
        let p: usize = position(frames, pinned[i]);
        if p < frames.len() {
            out.push((p, i));
        }
        i += 1;
    }
    out
}

/// Distance between two positions.
pub open spec fn distance(a: int, b: int) -> int {
    if a >= b {
        a - b
    } else {
        b - a
    }
}

/// The nearest of the first `k` pins to position `p`; ties go to the later
/// pin, the one the user placed most recently.
pub open spec fn nearest_pin(pins: Seq<usize>, p: int, k: int) -> int
    decreases k,
{
    if k <= 1 {
        0
    } else {
        let best = nearest_pin(pins, p, k - 1);
        if distance(pins[k - 1] as int, p) <= distance(pins[best] as int, p) {
            k - 1
        } else {
            best
        }
    }
}

/// The pin that position `p` follows.
pub open spec fn owner(pins: Seq<usize>, p: int) -> int {
    nearest_pin(pins, p, pins.len() as int)
}

proof fn lemma_nearest_pin(pins: Seq<usize>, p: int, k: int)
    requires
        1 <= k <= pins.len(),
    ensures
        ({
            let n = nearest_pin(pins, p, k);
            &&& 0 <= n < k
            &&& forall|i: int|
                0 <= i < k ==> distance(pins[n] as int, p) <= distance(
                    #[trigger] pins[i] as int,
                    p,
                )
            &&& forall|i: int|
                n < i < k ==> distance(pins[n] as int, p) < distance(#[trigger] pins[i] as int, p)
        }),
    decreases k,
{
    if k > 1 {
        lemma_nearest_pin(pins, p, k - 1);
    }
}

proof fn lemma_nearest_unique(pins: Seq<usize>, p: int, k: int, n: int)
    requires
        1 <= k <= pins.len(),
        0 <= n < k,
        forall|i: int|
            0 <= i < k ==> distance(pins[n] as int, p) <= distance(#[trigger] pins[i] as int, p),
        forall|i: int|
            n < i < k ==> distance(pins[n] as int, p) < distance(#[trigger] pins[i] as int, p),
    ensures
        nearest_pin(pins, p, k) == n,
{
    lemma_nearest_pin(pins, p, k);
    let m = nearest_pin(pins, p, k);
    if m != n {
        assert(distance(pins[n] as int, p) <= distance(pins[m] as int, p));
        assert(distance(pins[m] as int, p) <= distance(pins[n] as int, p));
    }
}

/// A run from a pin reaches every frame that follows it: all positions
/// between a pin and a position that follows it follow it too.
pub proof fn runs_reach_what_they_own(pins: Seq<usize>, p: int, q: int)
    requires
        pins.len() > 0,
        ({
            let s = pins[owner(pins, p)] as int;
            s <= q <= p || p <= q <= s
        }),
    ensures
        owner(pins, q) == owner(pins, p),
{
    let k = pins.len() as int;
    lemma_nearest_pin(pins, p, k);
    let n = owner(pins, p);
    assert forall|i: int| 0 <= i < k implies distance(pins[n] as int, q) <= distance(
        #[trigger] pins[i] as int,
        q,
    ) by {
        assert(distance(pins[n] as int, p) <= distance(pins[i] as int, p));
    }
    assert forall|i: int| n < i < k implies distance(pins[n] as int, q) < distance(
        #[trigger] pins[i] as int,
        q,
    ) by {
        assert(distance(pins[n] as int, p) < distance(pins[i] as int, p));
    }
    lemma_nearest_unique(pins, q, k, n);
}

/// No pin is nearer to a position than the one it follows.
pub proof fn owner_is_nearest(pins: Seq<usize>, p: int, i: int)
    requires
        0 <= i < pins.len(),
    ensures
        0 <= owner(pins, p) < pins.len(),
        distance(pins[owner(pins, p)] as int, p) <= distance(pins[i] as int, p),
        i > owner(pins, p) ==> distance(pins[owner(pins, p)] as int, p) < distance(
            pins[i] as int,
            p,
        ),
{
    lemma_nearest_pin(pins, p, pins.len() as int);
}

fn gap(a: usize, b: usize) -> (r: usize)
    ensures
        r == distance(a as int, b as int),
{
    if a >= b {
        a - b
    } else {
        b - a
    }
}

/// The pin that position `p` follows.
pub fn nearest(pins: &Vec<usize>, p: usize) -> (r: usize)
    requires
        pins@.len() > 0,
    ensures
        r == owner(pins@, p as int),
        r < pins@.len(),
{
    let mut best: usize = 0;
    let mut i: usize = 1;
    while i < pins.len()
        invariant
            1 <= i <= pins@.len(),
            best < i,
            best == nearest_pin(pins@, p as int, i as int),
        decreases pins@.len() - i,
    {
        if gap(pins[i], p) <= gap(pins[best], p) {
            best = i;
        }
        i += 1;
    }
    best
}

/// The positions that a run from pin `s` visits after it: upwards from the
/// pin as long as they follow it.
pub open spec fn run_up(pins: Seq<usize>, s: int, p: int, n: int) -> Seq<usize>
    decreases n - p,
{
    if p >= n || owner(pins, p) != s {
        Seq::empty()
    } else {
        seq![p as usize] + run_up(pins, s, p + 1, n)
    }
}

/// The positions that a run from pin `s` visits before it: downwards from the
/// pin as long as they follow it.
pub open spec fn run_down(pins: Seq<usize>, s: int, p: int) -> Seq<usize>
    decreases p + 1,
{
    if p < 0 || owner(pins, p) != s {
        Seq::empty()
    } else {
        seq![p as usize] + run_down(pins, s, p - 1)
    }
}

proof fn lemma_visited_up(pins: Seq<usize>, s: int, from: int, p: int, n: int)
    requires
        0 <= from <= p < n <= usize::MAX,
        forall|q: int| from <= q <= p ==> #[trigger] owner(pins, q) == s,
    ensures
        run_up(pins, s, from, n).contains(p as usize),
    decreases p - from,
{
    let r = run_up(pins, s, from, n);
    assert(owner(pins, from) == s);
    if from == p {
        assert(r[0] == p as usize);
    } else {
        lemma_visited_up(pins, s, from + 1, p, n);
        let t = run_up(pins, s, from + 1, n);
        let i = choose|i: int| 0 <= i < t.len() && t[i] == p as usize;
        assert(r[i + 1] == p as usize);
    }
}

proof fn lemma_visited_down(pins: Seq<usize>, s: int, from: int, p: int)
    requires
        0 <= p <= from <= usize::MAX,
        forall|q: int| p <= q <= from ==> #[trigger] owner(pins, q) == s,
    ensures
        run_down(pins, s, from).contains(p as usize),
    decreases from - p,
{
    let r = run_down(pins, s, from);
    assert(owner(pins, from) == s);
    if from == p {
        assert(r[0] == p as usize);
    } else {
        lemma_visited_down(pins, s, from - 1, p);
        let t = run_down(pins, s, from - 1);
        let i = choose|i: int| 0 <= i < t.len() && t[i] == p as usize;
        assert(r[i + 1] == p as usize);
    }
}

/// Every frame of a burst is visited: it is the frame of the pin it follows,
/// or the run from that pin comes by.
pub proof fn every_frame_is_visited(pins: Seq<usize>, p: int, n: int)
    requires
        pins.len() > 0,
        0 <= p < n <= usize::MAX,
        forall|i: int| 0 <= i < pins.len() ==> #[trigger] pins[i] < n,
    ensures
        ({
            let s = owner(pins, p);
            ||| p == pins[s]
            ||| run_up(pins, s, pins[s] + 1, n).contains(p as usize)
            ||| run_down(pins, s, pins[s] - 1).contains(p as usize)
        }),
{
    let s = owner(pins, p);
    lemma_nearest_pin(pins, p, pins.len() as int);
    let at = pins[s] as int;
    assert forall|q: int| (at <= q <= p || p <= q <= at) implies #[trigger] owner(pins, q)
        == s by {
        runs_reach_what_they_own(pins, p, q);
    }
    if p > at {
        lemma_visited_up(pins, s, at + 1, p, n);
    } else if p < at {
        lemma_visited_down(pins, s, at - 1, p);
    }
}

/// The positions of a burst of `n` frames that a run from pin `s` visits
/// after it, in order.
pub fn frames_after(pins: &Vec<usize>, s: usize, n: usize) -> (r: Vec<usize>)
    requires
        s < pins@.len(),
        pins@[s as int] < n,
    ensures
        r@ == run_up(pins@, s as int, pins@[s as int] + 1, n as int),
        forall|i: int| 0 <= i < r@.len() ==> #[trigger] r@[i] < n,
{
    let mut out: Vec<usize> = Vec::new();
    let mut p: usize = pins[s] + 1;
    let ghost all = run_up(pins@, s as int, pins@[s as int] + 1, n as int);
    while p < n && nearest(pins, p) == s
        invariant
            s < pins@.len(),
            p <= n,
            all == out@ + run_up(pins@, s as int, p as int, n as int),
            forall|i: int| 0 <= i < out@.len() ==> #[trigger] out@[i] < n,
        decreases n - p,
    {
        let ghost before = out@;
        let ghost rest = run_up(pins@, s as int, p + 1, n as int);
        out.push(p);
        assert(before + (seq![p] + rest) =~= out@ + rest);
        p += 1;
    }
    assert(all =~= out@);
    out
}

/// The positions of a burst that a run from pin `s` visits before it, from
/// the pin downwards.
pub fn frames_before(pins: &Vec<usize>, s: usize) -> (r: Vec<usize>)
    requires
        s < pins@.len(),
    ensures
        r@ == run_down(pins@, s as int, pins@[s as int] - 1),
        forall|i: int| 0 <= i < r@.len() ==> #[trigger] r@[i] < pins@[s as int],
{
    let mut out: Vec<usize> = Vec::new();
    let mut p: usize = pins[s];
    let ghost all = run_down(pins@, s as int, pins@[s as int] - 1);
    while p > 0 && nearest(pins, p - 1) == s
        invariant
            s < pins@.len(),
            p <= pins@[s as int],
            all == out@ + run_down(pins@, s as int, p - 1),
            forall|i: int| 0 <= i < out@.len() ==> #[trigger] out@[i] < pins@[s as int],
        decreases p,
    {
        let ghost before = out@;
        let ghost rest = run_down(pins@, s as int, p - 2);
        p -= 1;
        out.push(p);
        assert(before + (seq![p] + rest) =~= out@ + rest);
    }
    assert(all =~= out@);
    out
}

/// Whether a tracked point is good enough for the eye to be measured there.
pub fn is_measurable(conf: Real32) -> (r: bool)
    ensures
        r == !conf.below((Real32 { bits: track::CONF_OK })),
        !conf.is_nan_spec() ==> r == (conf.place() >= 0x3F0C_CCCD),
{
    !conf.lt(&Real32 { bits: track::CONF_OK })
}

/// How many points each of the three measuring threads gets.
pub fn points_per_thread(n: usize) -> (r: usize)
    requires
        n <= usize::MAX - 2,
    ensures
        r == (if n == 0 {
            1
        } else {
            (n + 2) / 3
        }),
        3 * r >= n,
        n > 0 ==> 3 * (r - 1) < n,
{
    if n == 0 {
        1
    } else {
        (n + 2) / 3
    }
}

/// Order of numbers by value.
pub struct ByValue<'a> {
    pub values: &'a Vec<Real32>,
}

impl<'a> Ranking for ByValue<'a> {
    open spec fn ahead(&self, a: int, b: int) -> bool {
        self.values@[a].below(self.values@[b])
    }

    open spec fn has(&self, a: int) -> bool {
        0 <= a < self.values@.len() && !self.values@[a].is_nan_spec()
    }

    proof fn is_order(&self, a: int, b: int, c: int) {
    }

    fn is_ahead(&self, a: usize, b: usize) -> (r: bool) {
        self.values[a].lt(&self.values[b])
    }
}

/// Whether `m` is the (upper) median of `values`: it is the one in the middle
/// of them in order.
pub open spec fn is_median(values: Seq<Real32>, m: Real32) -> bool {
    exists|ord: Seq<usize>| #[trigger]
        puts_in_order(values, ord) && m == values[ord[values.len() as int / 2] as int]
}

/// Whether `ord` lists the positions of `values` from the lowest to the
/// highest.
pub open spec fn puts_in_order(values: Seq<Real32>, ord: Seq<usize>) -> bool {
    &&& ord.len() == values.len()
    &&& forall|i: int| 0 <= i < ord.len() ==> 0 <= #[trigger] ord[i] < values.len()
    &&& forall|p: int| 0 <= p < values.len() ==> #[trigger] ord.contains(p as usize)
    &&& forall|i: int, j: int|
        0 <= i < j < ord.len() ==> !values[#[trigger] ord[j] as int].below(
            values[#[trigger] ord[i] as int],
        )
}

/// The median radius of the pupils of a burst. One that is far from it is a
/// speck or a merge, not the eye.
pub fn median_radius(radii: &Vec<Real32>) -> (r: Option<Real32>)
    requires
        forall|i: int| 0 <= i < radii@.len() ==> !(#[trigger] radii@[i]).is_nan_spec(),
    ensures
        r is None <==> radii@.len() == 0,
        r matches Some(m) ==> is_median(radii@, m),
{
    let n: usize = radii.len();
    if n == 0 {
        return None;
    }
    let rank = ByValue { values: radii };
    let ord = sort::sorted_positions(&rank, 0, n);
    assert(puts_in_order(radii@, ord@)) by {
        assert forall|i: int, j: int| 0 <= i < j < ord@.len() implies !radii@[
            #[trigger] ord@[j] as int].below(radii@[#[trigger] ord@[i] as int]) by {
            assert(sort::precedes(&rank, ord@[i] as int, ord@[j] as int));
        }
    }
    let m = radii[ord[n / 2]];
    Some(m)
}

/// A square of half-size `r` around a point, moved inside the image.
pub open spec fn square_at(width: int, height: int, x: int, y: int, r: int) -> Rect {
    let cx = clamp_to(x, r, width - r);
    let cy = clamp_to(y, r, height - r);
    Rect { x: (cx - r) as usize, y: (cy - r) as usize, w: (2 * r) as usize, h: (2 * r) as usize }
}

/// `v`, at least `lo` and at most `hi`.
pub open spec fn clamp_to(v: int, lo: int, hi: int) -> int {
    if v < lo {
        lo
    } else if v > hi {
        hi
    } else {
        v
    }
}

fn clamp(v: usize, lo: usize, hi: usize) -> (r: usize)
    ensures
        r == clamp_to(v as int, lo as int, hi as int),
{
    if v < lo {
        lo
    } else if v > hi {
        hi
    } else {
        v
    }
}

/// The patch whose sharpness counts at a tracked point: of half-size `want`,
/// but at least 8 and at most half the short edge.
pub fn patch_rect(width: usize, height: usize, x: usize, y: usize, want: usize) -> (r: Rect)
    requires
        width >= 16,
        height >= 16,
    ensures
        ({
            let short = if width <= height {
                width as int
            } else {
                height as int
            };
            r == square_at(
                width as int,
                height as int,
                x as int,
                y as int,
                clamp_to(want as int, 8, short / 2),
            )
        }),
        r.x + r.w <= width,
        r.y + r.h <= height,
        r.w == r.h,
        r.w >= 16,
        want >= 8 && 2 * want <= width && 2 * want <= height ==> r.w == 2 * want,
        want < 8 ==> r.w == 16,
{
    let short: usize = if width <= height {
        width
    } else {
        height
    };
    let h: usize = clamp(want, 8, short / 2);
    let cx: usize = clamp(x, h, width - h);
    let cy: usize = clamp(y, h, height - h);
    Rect { x: cx - h, y: cy - h, w: 2 * h, h: 2 * h }
}

/// The focus area of half-size `half` around a point; it is not moved, only
/// cut off at the top and left.
pub fn focus_rect(x: usize, y: usize, half: usize) -> (r: Rect)
    requires
        half <= 0x3fff_ffff,
    ensures
        r == (Rect {
            x: (if x >= half {
                x - half
            } else {
                0
            }) as usize,
            y: (if y >= half {
                y - half
            } else {
                0
            }) as usize,
            w: (2 * half) as usize,
            h: (2 * half) as usize,
        }),
        r.x <= x <= r.x + half,
        r.y <= y <= r.y + half,
        x >= half ==> r.x + half == x,
        y >= half ==> r.y + half == y,
{
    Rect { x: x.saturating_sub(half), y: y.saturating_sub(half), w: 2 * half, h: 2 * half }
}

/// Of two jobs the more urgent one runs first, and of two as urgent the newer;
/// exactly one of two different jobs is first.
pub proof fn urgent_jobs_run_first(a: Job, b: Job)
    ensures
        a.priority > b.priority ==> runs_before(a, b) && !runs_before(b, a),
        a.priority == b.priority && a.seq > b.seq ==> runs_before(a, b) && !runs_before(b, a),
        a.seq != b.seq ==> runs_before(a, b) != runs_before(b, a),
{
}

/// Thumbs come from the embedded preview, at 200 pixels or more and without
/// focus peaking; previews from the source that was picked, at 1600 or more;
/// full-size images from the full image; and scoring decodes no image.
pub proof fn jobs_decode_what_they_show(source: Source, brighten: bool, peaking: bool)
    ensures
        decode_plan(JobKind::Thumb, source, brighten, peaking) matches Some(p) && p.source
            == Source::Embedded && p.min_long_edge == 200 && p.brighten == brighten && !p.peaking,
        decode_plan(JobKind::Preview, source, brighten, peaking) matches Some(p) && p.source
            == source && p.min_long_edge == 1600 && p.brighten == brighten && p.peaking == peaking,
        decode_plan(JobKind::Full, source, brighten, peaking) matches Some(p) && p.source
            == Source::Full && p.min_long_edge > 0xffff && p.brighten == brighten && p.peaking
            == peaking,
        decode_plan(JobKind::Score, source, brighten, peaking) is None,
{
}

proof fn lemma_camera_pins(
    metas: Seq<FileMeta>,
    frames: Seq<usize>,
    seeds: Seq<Pin>,
    k: int,
    f: usize,
)
    requires
        0 <= k <= frames.len(),
    ensures
        camera_pins(metas, frames, seeds, k).contains(f) <==> (exists|i: int|
            0 <= i < k && #[trigger] frames[i] == f) && !is_pinned(seeds, f) && meta::eye_box(
            metas[f as int]@,
        ) is Some,
        camera_pins(metas, frames, seeds, k).no_duplicates(),
    decreases k,
{
    if k > 0 {
        lemma_camera_pins(metas, frames, seeds, k - 1, f);
        let (rest, all) = (
            camera_pins(metas, frames, seeds, k - 1),
            camera_pins(metas, frames, seeds, k),
        );
        let g = frames[k - 1];
        lemma_camera_pins(metas, frames, seeds, k - 1, g);
        if rest.contains(f) {
            let i = choose|i: int| 0 <= i < rest.len() && rest[i] == f;
            assert(all[i] == f);
        }
        if all.len() > rest.len() {
            assert(all[all.len() - 1] == g);
        }
        if all.contains(f) && f != g {
            let i = choose|i: int| 0 <= i < all.len() && all[i] == f;
            assert(rest[i] == f);
            assert(rest.contains(f));
        }
        if f == g {
            assert(frames[k - 1] == f);
        }
    }
}

/// The camera gives the focus point of the frames on which it saw an eye and
/// the user pinned none, each once.
pub proof fn the_camera_pins_what_the_user_did_not(
    metas: Seq<FileMeta>,
    frames: Seq<usize>,
    seeds: Seq<Pin>,
    f: usize,
)
    ensures
        ({
            let pins = camera_pins(metas, frames, seeds, frames.len() as int);
            &&& pins.contains(f) <==> frames.contains(f) && (forall|i: int|
                0 <= i < seeds.len() ==> (#[trigger] seeds[i]).frame != f) && meta::eye_box(
                metas[f as int]@,
            ) is Some
            &&& pins.no_duplicates()
        }),
{
    lemma_camera_pins(metas, frames, seeds, frames.len() as int, f);
    if frames.contains(f) {
        let i = choose|i: int| 0 <= i < frames.len() && frames[i] == f;
        assert(frames[i] == f);
    }
}

proof fn lemma_position(frames: Seq<usize>, f: usize, k: int)
    requires
        0 <= k <= frames.len(),
    ensures
        ({
            let p = position_from(frames, f, k);
            &&& k <= p <= frames.len()
            &&& p < frames.len() ==> frames[p] == f
            &&& forall|i: int| k <= i < p ==> #[trigger] frames[i] != f
        }),
    decreases frames.len() - k,
{
    if k < frames.len() && frames[k] != f {
        lemma_position(frames, f, k + 1);
    }
}

/// Every pinned frame of the burst is found at its place, each with its pin;
/// pins of other frames are left out.
pub proof fn pins_find_their_frames(frames: Seq<usize>, pinned: Seq<usize>, k: int, i: int)
    requires
        0 <= i < k <= pinned.len() <= usize::MAX,
        frames.len() <= usize::MAX,
    ensures
        forall|j: int|
            0 <= j < pin_places(frames, pinned, k).len() ==> {
                let place = #[trigger] pin_places(frames, pinned, k)[j];
                place.0 < frames.len() && place.1 < k && frames[place.0 as int]
                    == pinned[place.1 as int]
            },
        frames.contains(pinned[i]) ==> exists|j: int|
            0 <= j < pin_places(frames, pinned, k).len() && (#[trigger] pin_places(
                frames,
                pinned,
                k,
            )[j]).1 == i,
    decreases k,
{
    let (rest, all) = (pin_places(frames, pinned, k - 1), pin_places(frames, pinned, k));
    lemma_position(frames, pinned[k - 1], 0);
    if i < k - 1 {
        pins_find_their_frames(frames, pinned, k - 1, i);
        if frames.contains(pinned[i]) {
            let j = choose|j: int| 0 <= j < rest.len() && (#[trigger] rest[j]).1 == i;
            assert(all[j] == rest[j]);
        }
    } else {
        if k > 1 {
            pins_find_their_frames(frames, pinned, k - 1, k - 2);
        }
        if frames.contains(pinned[i]) {
            let p = choose|p: int| 0 <= p < frames.len() && frames[p] == pinned[i];
            assert(frames[p] == pinned[i]);
            assert(all[all.len() - 1].1 == i);
        }
    }
    assert forall|j: int| 0 <= j < all.len() implies {
        let place = #[trigger] all[j];
        place.0 < frames.len() && place.1 < k && frames[place.0 as int] == pinned[place.1 as int]
    } by {
        if j < rest.len() {
            assert(all[j] == rest[j]);
        }
    }
}

/// A square around a point has the size that was asked for and lies in the
/// image; it holds the point, and is centred on it where there is room.
pub proof fn squares_hold_their_points(width: usize, height: usize, x: int, y: int, r: int)
    requires
        0 < r,
        2 * r <= width,
        2 * r <= height,
        0 <= x < width,
        0 <= y < height,
    ensures
        ({
            let s = square_at(width as int, height as int, x, y, r);
            &&& s.w == 2 * r && s.h == 2 * r
            &&& s.x + s.w <= width && s.y + s.h <= height
            &&& s.x <= x < s.x + s.w && s.y <= y < s.y + s.h
            &&& r <= x <= width - r ==> s.x == x - r
            &&& r <= y <= height - r ==> s.y == y - r
            &&& x < r ==> s.x == 0
            &&& x > width - r ==> s.x + s.w == width
            &&& y < r ==> s.y == 0
            &&& y > height - r ==> s.y + s.h == height
        }),
{
}

/// The first `k` of `ord`, as a set.
spec fn first_of(ord: Seq<usize>, k: int) -> Set<int> {
    Set::new(|p: int| exists|i: int| 0 <= i < k && #[trigger] ord[i] == p)
}

proof fn lemma_first_of(ord: Seq<usize>, k: int)
    requires
        0 <= k <= ord.len(),
    ensures
        first_of(ord, k).finite(),
        first_of(ord, k).len() <= k,
    decreases k,
{
    if k > 0 {
        lemma_first_of(ord, k - 1);
        let last = ord[k - 1] as int;
        assert(first_of(ord, k) =~= first_of(ord, k - 1).insert(last)) by {
            assert forall|p: int| first_of(ord, k).contains(p) == first_of(ord, k - 1).insert(
                last,
            ).contains(p) by {
                if first_of(ord, k).contains(p) {
                    let i = choose|i: int| 0 <= i < k && #[trigger] ord[i] == p;
                    if i < k - 1 {
                        assert(ord[i] == p);
                    }
                }
                if first_of(ord, k - 1).contains(p) {
                    let i = choose|i: int| 0 <= i < k - 1 && #[trigger] ord[i] == p;
                    assert(ord[i] == p);
                }
                if p == last {
                    assert(ord[k - 1] == p);
                }
            }
        }
    } else {
        assert(first_of(ord, k) =~= Set::empty());
    }
}

/// The values below `m`, by their places.
pub open spec fn lower(values: Seq<Real32>, m: Real32) -> Set<int> {
    Set::new(|p: int| 0 <= p < values.len() && values[p].below(m))
}

/// The values above `m`, by their places.
pub open spec fn higher(values: Seq<Real32>, m: Real32) -> Set<int> {
    Set::new(|p: int| 0 <= p < values.len() && m.below(values[p]))
}

/// The median is one of the values. At most half of them are below it, and
/// less than half above.
pub proof fn the_median_is_in_the_middle(values: Seq<Real32>, m: Real32)
    requires
        is_median(values, m),
        0 < values.len() <= usize::MAX,
    ensures
        values.contains(m),
        lower(values, m).finite() && lower(values, m).len() <= values.len() / 2,
        higher(values, m).finite() && 2 * higher(values, m).len() < values.len(),
{
    let n = values.len() as int;
    let ord = choose|ord: Seq<usize>| #[trigger]
        puts_in_order(values, ord) && m == values[ord[n / 2] as int];
    let k = n / 2;
    assert(0 <= ord[k] < values.len());
    assert(values[ord[k] as int] == m);
    lemma_first_of(ord, k);
    assert forall|p: int| #[trigger] lower(values, m).contains(p) implies first_of(ord, k).contains(
        p,
    ) by {
        assert(ord.contains(p as usize));
        let i = choose|i: int| 0 <= i < ord.len() && ord[i] == p as usize;
        if i > k {
            assert(!values[ord[i] as int].below(values[ord[k] as int]));
        }
        assert(ord[i] == p);
    }
    vstd::set_lib::lemma_len_subset(lower(values, m), first_of(ord, k));
    let back = ord.reverse();
    lemma_first_of(back, n - 1 - k);
    assert forall|p: int| #[trigger] higher(values, m).contains(p) implies first_of(
        back,
        n - 1 - k,
    ).contains(p) by {
        assert(ord.contains(p as usize));
        let i = choose|i: int| 0 <= i < ord.len() && ord[i] == p as usize;
        if i < k {
            assert(!values[ord[k] as int].below(values[ord[i] as int]));
        }
        assert(back[n - 1 - i] == p);
    }
    vstd::set_lib::lemma_len_subset(higher(values, m), first_of(back, n - 1 - k));
}

/// A run upwards visits one position after the other, each of which follows
/// its pin, and stops only at the end of the burst or before a position that
/// does not.
pub proof fn runs_up_keep_to_their_own(pins: Seq<usize>, s: int, p: int, n: int)
    requires
        0 <= p <= n <= usize::MAX,
    ensures
        ({
            let r = run_up(pins, s, p, n);
            &&& p + r.len() <= n
            &&& forall|i: int|
                0 <= i < r.len() ==> #[trigger] r[i] == p + i && owner(pins, r[i] as int) == s
            &&& p + r.len() == n || owner(pins, p + r.len() as int) != s
        }),
    decreases n - p,
{
    if p < n && owner(pins, p) == s {
        runs_up_keep_to_their_own(pins, s, p + 1, n);
        let (r, t) = (run_up(pins, s, p, n), run_up(pins, s, p + 1, n));
        assert forall|i: int| 0 <= i < r.len() implies #[trigger] r[i] == p + i && owner(
            pins,
            r[i] as int,
        ) == s by {
            if i > 0 {
                assert(r[i] == t[i - 1]);
            }
        }
    }
}

/// A run downwards does the same in the other direction, down to the start.
pub proof fn runs_down_keep_to_their_own(pins: Seq<usize>, s: int, p: int)
    requires
        -1 <= p <= usize::MAX,
    ensures
        ({
            let r = run_down(pins, s, p);
            &&& r.len() <= p + 1
            &&& forall|i: int|
                0 <= i < r.len() ==> #[trigger] r[i] == p - i && owner(pins, r[i] as int) == s
            &&& r.len() == p + 1 || owner(pins, p - r.len()) != s
        }),
    decreases p + 1,
{
    if p >= 0 && owner(pins, p) == s {
        runs_down_keep_to_their_own(pins, s, p - 1);
        let (r, t) = (run_down(pins, s, p), run_down(pins, s, p - 1));
        assert forall|i: int| 0 <= i < r.len() implies #[trigger] r[i] == p - i && owner(
            pins,
            r[i] as int,
        ) == s by {
            if i > 0 {
                assert(r[i] == t[i - 1]);
            }
        }
    }
}

} // verus!
