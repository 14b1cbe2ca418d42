//! Turning a culling session into a recipe, and reading the recipe back.

use vstd::prelude::*;
use crate::burst::LogicalImage;
use crate::cull;
use crate::cull::{Cull, CullView};
use crate::marks::{Flag, ImgState};
use crate::path;
use crate::pipeline::RoiKind;
use crate::recipe::{Issue, Op, PlannedAction, Recipe, Settings, RECIPE_VERSION};
use crate::roi;
use crate::roi::RoiTrack;
use crate::session;
use crate::single::Real32;
use crate::text;

verus! {

/// Lowest rating that a picked picture is given.
pub const PICK_RATING: u8 = 3;

/// What the recipe should contain.
#[derive(Debug)]
pub struct HarvestOptions {
    /// XMP rating sidecar next to each copy (the default place for ratings).
    pub xmp_with_copies: bool,
    /// XMP sidecars next to the originals: opt-in, it touches the source
    /// folder.
    pub xmp_in_place: bool,
    pub do_copy: bool,
    pub dest: String,
}

/// The value of `HarvestOptions`.
#[verifier::ext_equal]
pub struct OptionsView {
    pub xmp_with_copies: bool,
    pub xmp_in_place: bool,
    pub do_copy: bool,
    pub dest: Seq<char>,
}

impl View for HarvestOptions {
    type V = OptionsView;

    open spec fn view(&self) -> OptionsView {
        OptionsView {
            xmp_with_copies: self.xmp_with_copies,
            xmp_in_place: self.xmp_in_place,
            do_copy: self.do_copy,
            dest: self.dest@,
        }
    }
}

impl OptionsView {
    /// Where picks are copied to, if they are.
    pub open spec fn copy_to(self) -> Option<Seq<char>> {
        let dest = text::trimmed(self.dest);
        if self.do_copy && dest.len() > 0 {
            Some(dest)
        } else {
            None
        }
    }
}

/// Whether `dest` lies next to the folder `dir`: its folder, as the platform
/// finds it, joined with its name and `_keepers`.
pub open spec fn is_sibling(dir: Seq<char>, dest: Seq<char>) -> bool {
    exists|f: Seq<char>, name: Seq<char>|
        #![trigger path::is_folder(dir, f), path::is_name(dir, name)]
        path::is_folder(dir, f) && path::is_name(dir, name) && (path::joinable(
            f,
            name + "_keepers"@,
        ) ==> path::is_joined(f, name + "_keepers"@, dest))
}

impl HarvestOptions {
    /// Defaults: copy picks to a `<folder>_keepers` sibling (never inside the
    /// card folder, which would be rescanned as images), ratings next to the
    /// copies, nothing written next to the originals.
    pub fn for_dir(dir: &str) -> (r: HarvestOptions)
        ensures
            r.xmp_with_copies,
            !r.xmp_in_place,
            r.do_copy,
            path::has_plain_folder(dir@) ==> path::is_joined(
                path::folder_of(dir@),
                path::base_name(dir@) + "_keepers"@,
                r.dest@,
            ),
            path::plain_path(dir@) && path::has_folder(dir@) && path::last_index(dir@, '/') == 0
                ==> r.dest@ == seq!['/'] + (path::base_name(dir@) + "_keepers"@),
            path::has_folder(dir@) ==> is_sibling(dir@, r.dest@),
    {
        let name: String = match path::file_name(dir) {
            Some(n) => n,
            None => text::copy_of("photos"),
        };
        let sibling = text::joined(name.as_str(), "_keepers");
        let folder: String = match path::parent(dir) {
            Some(p) => p,
            None => text::copy_of(dir),
        };
        let dest = path::join(folder.as_str(), sibling.as_str());
        proof {
            reveal_strlit("_keepers");
            let p = dir@;
            if path::has_plain_folder(p) {
                path::lemma_plain(p);
                path::lemma_last_index(p, '/');
                let b = path::base_name(p);
                let f = path::folder_of(p);
                assert(name@ == b);
                assert((b + "_keepers"@)[0] == b[0]);
                assert(b[0] == p[path::last_index(p, '/') + 1]);
                assert(b.len() >= 2 ==> (b + "_keepers"@)[1] == b[1]);
                assert(b.len() == 1 ==> (b + "_keepers"@)[1] == '_');
                assert(!path::verbatim(f)) by {
                    assert(f.len() >= 2 ==> f[0] == p[0] && f[1] == p[1]);
                }
                assert(path::joinable(f, b + "_keepers"@));
            }
            if path::has_folder(p) {
                assert(path::is_folder(p, folder@) && path::is_name(p, name@));
                if path::plain_path(p) && path::last_index(p, '/') == 0 {
                    path::lemma_plain(p);
                    path::lemma_last_index(p, '/');
                    let b = path::base_name(p);
                    let (k, j) = choose|k: int, j: int| #[trigger]
                        path::may_start(p, k) && #[trigger] path::may_end(p, k, j) && folder@
                            == p.take(j);
                    assert(j == 1);
                    assert(folder@ =~= seq!['/']);
                    assert((b + "_keepers"@)[0] == b[0] && b[0] == p[1]);
                    assert(b.len() >= 2 ==> (b + "_keepers"@)[1] == b[1]);
                    assert(b.len() == 1 ==> (b + "_keepers"@)[1] == '_');
                    assert(path::joinable(folder@, b + "_keepers"@));
                }
            }
        }
        HarvestOptions { xmp_with_copies: true, xmp_in_place: false, do_copy: true, dest }
    }

    /// Where picks are copied to, if they are.
    pub fn copy_dest(&self) -> (r: Option<String>)
        ensures
            path::opt_view(r) == self@.copy_to(),
    {
        let cs = text::chars_of(self.dest.as_str());
        let dest = text::trim(cs.as_slice());
        if self.do_copy && dest.len() > 0 {
            Some(text::string_of(dest.as_slice()))
        } else {
            None
        }
    }

    /// Whether a recipe would do anything for `picks` picked images.
    pub fn can_build(&self, picks: usize) -> (r: bool)
        ensures
            r == (picks > 0 && (self.xmp_in_place || self@.copy_to() is Some)),
    {
        picks > 0 && (self.xmp_in_place || self.copy_dest().is_some())
    }
}

/// What a frame's rank was decided by, in plain words.
pub open spec fn basis_text(eye: Option<RoiKind>, roi: Option<Real32>, conf: Option<Real32>) -> Seq<char> {
    match eye {
        Some(RoiKind::EyeCamera) => "eye edge acuity (camera eye point)"@,
        Some(RoiKind::EyeTracked) => "eye edge acuity (tracked eye)"@,
        None => match conf {
            Some(c) => if roi is Some && roi::is_confident(c) {
                "sharpness at the tracked point"@
            } else {
                "overall sharpness (track lost here)"@
            },
            None => "overall sharpness"@,
        },
    }
}

/// What a frame's rank was decided by, in plain words.
pub fn basis(eye: Option<RoiKind>, roi: Option<Real32>, conf: Option<Real32>) -> (r: &'static str)
    ensures
        r@ == basis_text(eye, roi, conf),
{
    match eye {
        Some(RoiKind::EyeCamera) => "eye edge acuity (camera eye point)",
        Some(RoiKind::EyeTracked) => "eye edge acuity (tracked eye)",
        None => match conf {
            Some(c) => if roi.is_some() && roi::confident(c) {
                "sharpness at the tracked point"
            } else {
                "overall sharpness (track lost here)"
            },
            None => "overall sharpness",
        },
    }
}

/// Why a frame is treated as it is.
pub open spec fn evidence_text(verb: Seq<char>, rank: int, size: int, burst: int, basis: Seq<char>) -> Seq<
    char,
> {
    verb + ": rank "@ + text::decimal(rank) + "/"@ + text::decimal(size) + " in burst "@
        + text::decimal(burst) + " by "@ + basis
}

fn evidence(verb: &str, rank: usize, size: usize, burst: usize, basis: &str) -> (r: String)
    ensures
        r@ == evidence_text(verb@, rank as int, size as int, burst as int, basis@),
{
    let mut s = text::joined(verb, ": rank ");
    text::push_decimal(&mut s, rank as u64);
    s.append("/");
    text::push_decimal(&mut s, size as u64);
    s.append(" in burst ");
    text::push_decimal(&mut s, burst as u64);
    s.append(" by ");
    s.append(basis);
    s
}

/// The value of an `Op`.
pub enum OpView {
    WriteXmp { rating: u8 },
    Copy { dest: Seq<char>, rating: u8 },
    Skip,
}

impl View for Op {
    type V = OpView;

    open spec fn view(&self) -> OpView {
        match *self {
            Op::WriteXmp { rating } => OpView::WriteXmp { rating },
            Op::Copy { dest, rating } => OpView::Copy { dest: dest@, rating },
            Op::Skip => OpView::Skip,
        }
    }
}

/// The value of a `PlannedAction`.
#[verifier::ext_equal]
pub struct ActionView {
    pub file: Seq<char>,
    pub op: OpView,
    pub enabled: bool,
    pub burst: int,
    pub burst_size: int,
    pub rank: int,
    pub sharpness: Real32,
    pub roi_sharpness: Option<Real32>,
    pub track_confidence: Option<Real32>,
    pub reason: Seq<char>,
}

impl View for PlannedAction {
    type V = ActionView;

    open spec fn view(&self) -> ActionView {
        ActionView {
            file: self.file@,
            op: self.op@,
            enabled: self.enabled,
            burst: self.burst as int,
            burst_size: self.burst_size as int,
            rank: self.rank as int,
            sharpness: self.sharpness,
            roi_sharpness: self.roi_sharpness,
            track_confidence: self.track_confidence,
            reason: self.reason@,
        }
    }
}

/// The values of a list of actions.
pub open spec fn action_views(s: Seq<PlannedAction>) -> Seq<ActionView> {
    Seq::new(s.len(), |i: int| s[i]@)
}

/// What is known about a frame when the recipe is built.
#[verifier::ext_equal]
pub struct FrameView {
    pub image: LogicalImage,
    pub state: ImgState,
    pub burst: int,
    pub burst_size: int,
    pub rank: int,
    pub sharpness: Real32,
    pub roi_sharpness: Option<Real32>,
    pub track_confidence: Option<Real32>,
    /// Where the pupil that was measured came from.
    pub eye: Option<RoiKind>,
}

impl FrameView {
    /// The rating that the picture is harvested with.
    pub open spec fn rating(self) -> u8 {
        if self.state.rating < PICK_RATING {
            PICK_RATING
        } else {
            self.state.rating
        }
    }

    /// An action on file `file` of the frame.
    pub open spec fn action(self, file: Seq<char>, op: OpView, reason: Seq<char>) -> ActionView {
        ActionView {
            file,
            op,
            enabled: true,
            burst: self.burst,
            burst_size: self.burst_size,
            rank: self.rank,
            sharpness: self.sharpness,
            roi_sharpness: self.roi_sharpness,
            track_confidence: self.track_confidence,
            reason,
        }
    }

    /// Why the frame is treated as it is.
    pub open spec fn evidence(self, verb: Seq<char>) -> Seq<char> {
        evidence_text(
            verb,
            self.rank,
            self.burst_size,
            self.burst,
            basis_text(self.eye, self.roi_sharpness, self.track_confidence),
        )
    }

    /// The sidecar in place of a pick, where that was asked for.
    pub open spec fn sidecar_rows(self, o: OptionsView, name: Seq<char>) -> Seq<ActionView> {
        if o.xmp_in_place {
            seq![
                self.action(
                    name,
                    OpView::WriteXmp { rating: self.rating() },
                    self.evidence("picked"@),
                ),
            ]
        } else {
            Seq::empty()
        }
    }

    /// The copy of a pick, where there is a destination.
    pub open spec fn copy_rows(self, o: OptionsView, name: Seq<char>) -> Seq<ActionView> {
        match o.copy_to() {
            Some(dest) => {
                let rating = if o.xmp_with_copies {
                    self.rating()
                } else {
                    0
                };
                seq![self.action(name, OpView::Copy { dest, rating }, self.evidence("picked"@))]
            },
            None => Seq::empty(),
        }
    }

    /// The copy of a pick's paired JPEG, which travels with its RAW.
    pub open spec fn jpeg_rows(self, o: OptionsView, name: Seq<char>, names: Seq<Seq<char>>) -> Seq<
        ActionView,
    > {
        match (o.copy_to(), self.image.raw, self.image.jpeg) {
            (Some(dest), Some(_), Some(j)) => seq![
                self.action(
                    names[j as int],
                    OpView::Copy { dest, rating: 0 },
                    "JPEG paired with "@ + name,
                ),
            ],
            _ => Seq::empty(),
        }
    }

    /// The row that says a frame is left behind.
    pub open spec fn skip_rows(self, name: Seq<char>) -> Seq<ActionView> {
        let verb = if self.state.flag == Flag::Rejected {
            "rejected"@
        } else {
            "not picked"@
        };
        seq![self.action(name, OpView::Skip, self.evidence(verb))]
    }

    /// The actions that the recipe holds for the frame.
    pub open spec fn actions(self, o: OptionsView, names: Seq<Seq<char>>) -> Seq<ActionView> {
        let name = names[self.image.lead() as int];
        if self.state.flag == Flag::Picked {
            self.sidecar_rows(o, name) + self.copy_rows(o, name) + self.jpeg_rows(o, name, names)
        } else {
            self.skip_rows(name)
        }
    }
}

/// The frame at rank `r` of burst `b`.
pub open spec fn frame_at(v: cull::CullView, b: int, r: int) -> FrameView {
    let image = v.bursts[b][v.order(b)[r] as int];
    let id = image.lead();
    let t = v.tracks.track(b as usize);
    FrameView {
        image,
        state: v.state(id),
        burst: b + 1,
        burst_size: v.bursts[b].len() as int,
        rank: r + 1,
        sharpness: roi::score_of(v.scores, id),
        roi_sharpness: match t {
            Some(t) if t.roi_scores.dom().contains(id) => Some(t.roi_scores[id]),
            _ => None,
        },
        track_confidence: match t {
            Some(t) if t.points.dom().contains(id) => Some(t.points[id].conf),
            _ => None,
        },
        eye: match t {
            Some(t) if t.done && t.eyes.dom().contains(id) => Some(t.eyes[id].kind),
            _ => None,
        },
    }
}

/// The actions for the first `k` frames, in display order, of burst `b`.
pub open spec fn burst_actions(
    v: cull::CullView,
    o: OptionsView,
    names: Seq<Seq<char>>,
    b: int,
    k: int,
) -> Seq<ActionView>
    decreases k,
{
    if k <= 0 {
        Seq::empty()
    } else {
        burst_actions(v, o, names, b, k - 1) + frame_at(v, b, k - 1).actions(o, names)
    }
}

/// The actions for the first `k` bursts.
pub open spec fn planned_actions(
    v: cull::CullView,
    o: OptionsView,
    names: Seq<Seq<char>>,
    k: int,
) -> Seq<ActionView>
    decreases k,
{
    if k <= 0 {
        Seq::empty()
    } else {
        planned_actions(v, o, names, k - 1) + burst_actions(
            v,
            o,
            names,
            k - 1,
            v.bursts[k - 1].len() as int,
        )
    }
}

/// What is known about a frame when the recipe is built.
struct Frame {
    image: LogicalImage,
    state: ImgState,
    burst: usize,
    burst_size: usize,
    rank: usize,
    sharpness: Real32,
    roi_sharpness: Option<Real32>,
    track_confidence: Option<Real32>,
    eye: Option<RoiKind>,
}

impl View for Frame {
    type V = FrameView;

    closed spec fn view(&self) -> FrameView {
        FrameView {
            image: self.image,
            state: self.state,
            burst: self.burst as int,
            burst_size: self.burst_size as int,
            rank: self.rank as int,
            sharpness: self.sharpness,
            roi_sharpness: self.roi_sharpness,
            track_confidence: self.track_confidence,
            eye: self.eye,
        }
    }
}

impl Frame {
    fn action(&self, file: &str, op: Op, reason: String) -> (r: PlannedAction)
        ensures
            r@ == self@.action(file@, op@, reason@),
    {
        PlannedAction {
            file: text::copy_of(file),
            op,
            enabled: true,
            burst: self.burst,
            burst_size: self.burst_size,
            rank: self.rank,
            sharpness: self.sharpness,
            roi_sharpness: self.roi_sharpness,
            track_confidence: self.track_confidence,
            reason,
        }
    }

    fn evidence(&self, verb: &str) -> (r: String)
        ensures
            r@ == self@.evidence(verb@),
    {
        let b = basis(self.eye, self.roi_sharpness, self.track_confidence);
        evidence(verb, self.rank, self.burst_size, self.burst, b)
    }

    fn rating(&self) -> (r: u8)
        ensures
            r == self@.rating(),
    {
        if self.state.rating < PICK_RATING {
            PICK_RATING
        } else {
            self.state.rating
        }
    }

    fn add_sidecar(&self, o: &HarvestOptions, name: &str, out: &mut Vec<PlannedAction>)
        ensures
            action_views(final(out)@) == action_views(old(out)@) + self@.sidecar_rows(o@, name@),
    {
        if o.xmp_in_place {
            let op = Op::WriteXmp { rating: self.rating() };
            enter(out, self.action(name, op, self.evidence("picked")));
        }
        assert(action_views(out@) =~= action_views(old(out)@) + self@.sidecar_rows(o@, name@));
    }

    fn add_copy(
        &self,
        o: &HarvestOptions,
        dest: &Option<String>,
        name: &str,
        out: &mut Vec<PlannedAction>,
    )
        requires
            path::opt_view(*dest) == o@.copy_to(),
        ensures
            action_views(final(out)@) == action_views(old(out)@) + self@.copy_rows(o@, name@),
    {
        if let Some(d) = dest {
            let rating: u8 = if o.xmp_with_copies {
                self.rating()
            } else {
                0
            };
            let op = Op::Copy { dest: text::copy_of(d.as_str()), rating };
            enter(out, self.action(name, op, self.evidence("picked")));
        }
        assert(action_views(out@) =~= action_views(old(out)@) + self@.copy_rows(o@, name@));
    }

    fn add_jpeg(
        &self,
        o: &HarvestOptions,
        dest: &Option<String>,
        name: &str,
        names: &Vec<String>,
        out: &mut Vec<PlannedAction>,
    )
        requires
            path::opt_view(*dest) == o@.copy_to(),
            self@.image.exists_in(names@.len() as int),
        ensures
            action_views(final(out)@) == action_views(old(out)@) + self@.jpeg_rows(
                o@,
                name@,
                session::strings(names@),
            ),
    {
        let ghost rows = self@.jpeg_rows(o@, name@, session::strings(names@));
        if let (Some(d), Some(_), Some(j)) = (dest, self.image.raw, self.image.jpeg) {
            let op = Op::Copy { dest: text::copy_of(d.as_str()), rating: 0 };
            let reason = text::joined("JPEG paired with ", name);
            enter(out, self.action(names[j].as_str(), op, reason));
        }
        assert(action_views(out@) =~= action_views(old(out)@) + rows);
    }

    fn plan(
        &self,
        o: &HarvestOptions,
        dest: &Option<String>,
        names: &Vec<String>,
        out: &mut Vec<PlannedAction>,
    )
        requires
            path::opt_view(*dest) == o@.copy_to(),
            self@.image.wf(),
            self@.image.exists_in(names@.len() as int),
        ensures
            action_views(final(out)@) == action_views(old(out)@) + self@.actions(
                o@,
                session::strings(names@),
            ),
    {
        let id = self.image.primary();
        let name = names[id].as_str();
        if self.state.flag == Flag::Picked {
            self.add_sidecar(o, name, out);
            self.add_copy(o, dest, name, out);
            self.add_jpeg(o, dest, name, names, out);
        } else {
            let verb = if self.state.flag == Flag::Rejected {
                "rejected"
            } else {
                "not picked"
            };
            enter(out, self.action(name, Op::Skip, self.evidence(verb)));
        }
        assert(action_views(out@) =~= action_views(old(out)@) + self@.actions(
            o@,
            session::strings(names@),
        ));
    }
}

fn enter(out: &mut Vec<PlannedAction>, a: PlannedAction)
    ensures
        action_views(final(out)@) == action_views(old(out)@).push(a@),
{
    out.push(a);
    assert(action_views(out@) =~= action_views(old(out)@).push(a@));
}

impl Cull {
    fn frame(&self, b: usize, r: usize, fi: usize) -> (f: Frame)
        requires
            self@.wf(),
            b < self@.bursts.len(),
            r < self@.bursts[b as int].len(),
            fi == self@.order(b as int)[r as int],
            fi < self@.bursts[b as int].len(),
        ensures
            f@ == frame_at(self@, b as int, r as int),
            f@.image.wf(),
            f@.image.exists_in(self@.metas.len() as int),
    {
        assert(self@.bursts[b as int] == self.bursts@[b as int].images@);
        assert(self@.bursts[b as int][fi as int].wf());
        let size: usize = self.bursts[b].images.len();
        let image = self.bursts[b].images[fi];
        let id = image.primary();
        let mut f = Frame {
            image,
            state: self.img_state(id),
            burst: b + 1,
            burst_size: size,
            rank: r + 1,
            sharpness: roi::overall_score(&self.scores, id),
            roi_sharpness: None,
            track_confidence: None,
            eye: None,
        };
        if let Some(t) = self.tracks.get(b) {
            f.roi_sharpness = roi::number_at(&t.roi_scores, id);
            f.track_confidence = match roi::point_at(&t.points, id) {
                Some(p) => Some(p.conf),
                None => None,
            };
            if t.done {
                f.eye = match roi::eye_at(&t.eyes, id) {
                    Some(e) => Some(e.kind),
                    None => None,
                };
            }
        }
        f
    }

    /// Turn the current culling session into a recipe. Nothing is written.
    ///
    /// Ranking comes from `order`, so the recipe records exactly the order
    /// the filmstrip showed, including the ranking by a track that was
    /// running. `names` are the paths of the scanned files relative to
    /// `folder`.
    pub fn build_recipe(
        &self,
        o: &HarvestOptions,
        folder: &str,
        names: &Vec<String>,
        created_unix: u64,
    ) -> (r: Recipe)
        requires
            self@.wf(),
            names@.len() == self@.metas.len(),
        ensures
            r.version == RECIPE_VERSION,
            r.folder@ == folder@,
            r.created_unix == created_unix,
            r.settings.top_n == cull::AUTO_PICK_N,
            r.settings.gap_secs == (cull::GAP_CENTIS + 50) / 100,
            r.settings.top_n == 2,
            r.settings.gap_secs == 1,
            r.settings.write_xmp == o.xmp_in_place,
            path::opt_view(r.settings.copy_to) == o@.copy_to(),
            action_views(r.actions@) == planned_actions(
                self@,
                o@,
                session::strings(names@),
                self@.bursts.len() as int,
            ),
    {
        let dest = o.copy_dest();
        let ghost all = session::strings(names@);
        let mut actions: Vec<PlannedAction> = Vec::new();
        let n: usize = self.bursts.len();
        let mut b: usize = 0;
        assert(action_views(actions@) =~= planned_actions(self@, o@, all, 0));
        while b < n
            invariant
                self@.wf(),
                names@.len() == self@.metas.len(),
                b <= n == self@.bursts.len(),
                path::opt_view(dest) == o@.copy_to(),
                all == session::strings(names@),
                action_views(actions@) == planned_actions(self@, o@, all, b as int),
            decreases n - b,
        {
            let order = self.order(b);
            let m: usize = order.len();
            let ghost before = action_views(actions@);
            let mut r: usize = 0;
            assert(before + burst_actions(self@, o@, all, b as int, 0) =~= before);
            while r < m
                invariant
                    self@.wf(),
                    names@.len() == self@.metas.len(),
                    b < self@.bursts.len(),
                    m == self@.bursts[b as int].len(),
                    r <= m,
                    order@ == self@.order(b as int),
                    order@.len() == m,
                    forall|k: int| 0 <= k < m ==> (#[trigger] order@[k]) < m,
                    path::opt_view(dest) == o@.copy_to(),
                    all == session::strings(names@),
                    action_views(actions@) == before + burst_actions(
                        self@,
                        o@,
                        all,
                        b as int,
                        r as int,
                    ),
                decreases m - r,
            {
                let f = self.frame(b, r, order[r]);
                f.plan(o, &dest, names, &mut actions);
                r += 1;
                assert(action_views(actions@) =~= before + burst_actions(
                    self@,
                    o@,
                    all,
                    b as int,
                    r as int,
                ));
            }
            b += 1;
        }
        Recipe {
            version: RECIPE_VERSION,
            folder: text::copy_of(folder),
            created_unix,
            settings: Settings {
                top_n: cull::AUTO_PICK_N,
                gap_secs: ((cull::GAP_CENTIS + 50) / 100) as u64,
                write_xmp: o.xmp_in_place,
                copy_to: dest,
            },
            actions,
        }
    }
}

/// Whether `a` is one of the actions for the frame at rank `r` of burst `b`.
pub open spec fn is_row_of(
    v: cull::CullView,
    o: OptionsView,
    names: Seq<Seq<char>>,
    b: int,
    r: int,
    a: ActionView,
) -> bool {
    frame_at(v, b, r).actions(o, names).contains(a)
}

proof fn lemma_burst_rows(
    v: cull::CullView,
    o: OptionsView,
    names: Seq<Seq<char>>,
    b: int,
    k: int,
    i: int,
)
    requires
        0 <= i < burst_actions(v, o, names, b, k).len(),
    ensures
        exists|r: int|
            0 <= r < k && #[trigger] is_row_of(
                v,
                o,
                names,
                b,
                r,
                burst_actions(v, o, names, b, k)[i],
            ),
    decreases k,
{
    if k > 0 {
        let rest = burst_actions(v, o, names, b, k - 1);
        let rows = frame_at(v, b, k - 1).actions(o, names);
        let a = burst_actions(v, o, names, b, k)[i];
        if i < rest.len() {
            lemma_burst_rows(v, o, names, b, k - 1, i);
            let r = choose|r: int| 0 <= r < k - 1 && #[trigger] is_row_of(v, o, names, b, r, rest[i]);
            assert(is_row_of(v, o, names, b, r, a));
        } else {
            assert(rows[i - rest.len()] == a);
            assert(is_row_of(v, o, names, b, k - 1, a));
        }
    }
}

proof fn lemma_rows(v: cull::CullView, o: OptionsView, names: Seq<Seq<char>>, k: int, i: int)
    requires
        0 <= i < planned_actions(v, o, names, k).len(),
    ensures
        exists|b: int, r: int|
            0 <= b < k && 0 <= r < v.bursts[b].len() && #[trigger] is_row_of(
                v,
                o,
                names,
                b,
                r,
                planned_actions(v, o, names, k)[i],
            ),
    decreases k,
{
    if k > 0 {
        let rest = planned_actions(v, o, names, k - 1);
        let m = v.bursts[k - 1].len() as int;
        let rows = burst_actions(v, o, names, k - 1, m);
        let a = planned_actions(v, o, names, k)[i];
        if i < rest.len() {
            lemma_rows(v, o, names, k - 1, i);
            let (b, r) = choose|b: int, r: int|
                0 <= b < k - 1 && 0 <= r < v.bursts[b].len() && #[trigger] is_row_of(
                    v,
                    o,
                    names,
                    b,
                    r,
                    rest[i],
                );
            assert(is_row_of(v, o, names, b, r, a));
        } else {
            assert(rows[i - rest.len()] == a);
            lemma_burst_rows(v, o, names, k - 1, m, i - rest.len());
            let r = choose|r: int| 0 <= r < m && #[trigger] is_row_of(v, o, names, k - 1, r, a);
            assert(is_row_of(v, o, names, k - 1, r, a));
        }
    }
}

/// Only picks are acted on, and nothing is written next to an original unless
/// that was asked for.
pub proof fn only_picks_are_acted_on(
    v: cull::CullView,
    o: OptionsView,
    names: Seq<Seq<char>>,
    i: int,
)
    requires
        0 <= i < planned_actions(v, o, names, v.bursts.len() as int).len(),
    ensures
        ({
            let a = planned_actions(v, o, names, v.bursts.len() as int)[i];
            &&& a.op is WriteXmp ==> o.xmp_in_place
            &&& a.op is Copy ==> o.copy_to() == Some(a.op->Copy_dest)
            &&& !(a.op is Skip) ==> exists|b: int, r: int|
                0 <= b < v.bursts.len() && 0 <= r < v.bursts[b].len() && (#[trigger] frame_at(
                    v,
                    b,
                    r,
                )).state.flag == Flag::Picked && a.burst == b + 1 && a.rank == r + 1
        }),
{
    let n = v.bursts.len() as int;
    let a = planned_actions(v, o, names, n)[i];
    lemma_rows(v, o, names, n, i);
    let (b, r) = choose|b: int, r: int|
        0 <= b < n && 0 <= r < v.bursts[b].len() && #[trigger] is_row_of(v, o, names, b, r, a);
    let f = frame_at(v, b, r);
    let rows = f.actions(o, names);
    let j = choose|j: int| 0 <= j < rows.len() && rows[j] == a;
    assert(rows[j] == a);
}

proof fn lemma_row_stays(
    v: cull::CullView,
    o: OptionsView,
    names: Seq<Seq<char>>,
    b: int,
    r: int,
    k: int,
    a: ActionView,
)
    requires
        0 <= r < k,
        is_row_of(v, o, names, b, r, a),
    ensures
        burst_actions(v, o, names, b, k).contains(a),
    decreases k,
{
    let rest = burst_actions(v, o, names, b, k - 1);
    let rows = frame_at(v, b, k - 1).actions(o, names);
    let all = burst_actions(v, o, names, b, k);
    if r < k - 1 {
        lemma_row_stays(v, o, names, b, r, k - 1, a);
        let j = choose|j: int| 0 <= j < rest.len() && rest[j] == a;
        assert(all[j] == a);
    } else {
        let j = choose|j: int| 0 <= j < rows.len() && rows[j] == a;
        assert(all[rest.len() + j] == a);
    }
}

proof fn lemma_row_planned(
    v: cull::CullView,
    o: OptionsView,
    names: Seq<Seq<char>>,
    b: int,
    r: int,
    k: int,
    a: ActionView,
)
    requires
        0 <= b < k,
        0 <= r < v.bursts[b].len(),
        is_row_of(v, o, names, b, r, a),
    ensures
        planned_actions(v, o, names, k).contains(a),
    decreases k,
{
    let rest = planned_actions(v, o, names, k - 1);
    let m = v.bursts[k - 1].len() as int;
    let rows = burst_actions(v, o, names, k - 1, m);
    let all = planned_actions(v, o, names, k);
    if b < k - 1 {
        lemma_row_planned(v, o, names, b, r, k - 1, a);
        let j = choose|j: int| 0 <= j < rest.len() && rest[j] == a;
        assert(all[j] == a);
    } else {
        lemma_row_stays(v, o, names, b, r, m, a);
        let j = choose|j: int| 0 <= j < rows.len() && rows[j] == a;
        assert(all[rest.len() + j] == a);
    }
}

/// Every frame has a row of its own in a recipe that does something with
/// picks: what is left behind can be reviewed too.
pub proof fn every_frame_has_a_row(
    v: cull::CullView,
    o: OptionsView,
    names: Seq<Seq<char>>,
    b: int,
    r: int,
)
    requires
        o.xmp_in_place || o.copy_to() is Some,
        0 <= b < v.bursts.len(),
        0 <= r < v.bursts[b].len(),
    ensures
        exists|a: ActionView|
            #![trigger is_row_of(v, o, names, b, r, a)]
            planned_actions(v, o, names, v.bursts.len() as int).contains(a) && is_row_of(
                v,
                o,
                names,
                b,
                r,
                a,
            ) && a.burst == b + 1 && a.rank == r + 1 && (a.op is Skip <==> frame_at(
                v,
                b,
                r,
            ).state.flag != Flag::Picked),
{
    let f = frame_at(v, b, r);
    let rows = f.actions(o, names);
    assert(rows.len() > 0);
    let a = rows[0];
    assert(rows.contains(a));
    assert(is_row_of(v, o, names, b, r, a));
    lemma_row_planned(v, o, names, b, r, v.bursts.len() as int, a);
}

/// Which rows the review table shows.
#[derive(Debug, Clone, Copy, PartialEq, Eq, Structural)]
pub enum RowFilter {
    All,
    Actions,
    Skips,
    Problems,
}

impl RowFilter {
    /// What the filter is called.
    pub open spec fn label_text(self) -> Seq<char> {
        match self {
            RowFilter::All => "all rows"@,
            RowFilter::Actions => "actions only"@,
            RowFilter::Skips => "skips only"@,
            RowFilter::Problems => "problems only"@,
        }
    }

    /// What the filter is called.
    pub fn label(self) -> (r: &'static str)
        ensures
            r@ == self.label_text(),
    {
        match self {
            RowFilter::All => "all rows",
            RowFilter::Actions => "actions only",
            RowFilter::Skips => "skips only",
            RowFilter::Problems => "problems only",
        }
    }

    /// Whether action `i` is shown.
    pub open spec fn shows(self, actions: Seq<PlannedAction>, issues: Seq<Issue>, i: int) -> bool {
        match self {
            RowFilter::All => true,
            RowFilter::Actions => !(actions[i].op is Skip),
            RowFilter::Skips => actions[i].op is Skip,
            RowFilter::Problems => last_issue(issues, i, issues.len() as int) is Some,
        }
    }
}

/// The last of the first `k` issues that concerns action `i`: the one that is
/// shown with it.
pub open spec fn last_issue(issues: Seq<Issue>, i: int, k: int) -> Option<int>
    decreases k,
{
    if k <= 0 {
        None
    } else if issues[k - 1].action == i {
        Some(k - 1)
    } else {
        last_issue(issues, i, k - 1)
    }
}

/// The issue that is shown with action `i`, if there is one.
pub fn issue_of(issues: &Vec<Issue>, i: usize) -> (r: Option<usize>)
    ensures
        (match r {
            Some(j) => Some(j as int),
            None => None,
        }) == last_issue(issues@, i as int, issues@.len() as int),
        r matches Some(j) ==> j < issues@.len() && issues@[j as int].action == i,
{
    let mut k: usize = issues.len();
    while k > 0
        invariant
            k <= issues@.len(),
            last_issue(issues@, i as int, issues@.len() as int) == last_issue(
                issues@,
                i as int,
                k as int,
            ),
        decreases k,
    {
        if issues[k - 1].action == i {
            return Some(k - 1);
        }
        k -= 1;
    }
    None
}

/// The rows below `k` that a filter shows.
pub open spec fn shown_below(
    filter: RowFilter,
    actions: Seq<PlannedAction>,
    issues: Seq<Issue>,
    k: int,
) -> Seq<usize>
    decreases k,
{
    if k <= 0 {
        Seq::empty()
    } else {
        let rest = shown_below(filter, actions, issues, k - 1);
        if filter.shows(actions, issues, k - 1) {
            rest.push((k - 1) as usize)
        } else {
            rest
        }
    }
}

/// The rows that the review table shows.
pub fn shown_rows(recipe: &Recipe, issues: &Vec<Issue>, filter: RowFilter) -> (r: Vec<usize>)
    ensures
        r@ == shown_below(filter, recipe.actions@, issues@, recipe.actions@.len() as int),
{
    let n: usize = recipe.actions.len();
    let mut out: Vec<usize> = Vec::new();
    let mut i: usize = 0;
    while i < n
        invariant
            i <= n == recipe.actions@.len(),
            out@ == shown_below(filter, recipe.actions@, issues@, i as int),
        decreases n - i,
    {
        let skip = match &recipe.actions[i].op {
            Op::Skip => true,
            _ => false,
        };
        let show = match filter {
            RowFilter::All => true,
            RowFilter::Actions => !skip,
            RowFilter::Skips => skip,
            RowFilter::Problems => issue_of(issues, i).is_some(),
        };
        if show {
            out.push(i);
        }
        i += 1;
    }
    out
}

impl CullView {
    /// How many of the first `k` pictures are picked.
    pub open spec fn picked_below(self, k: int) -> nat
        decreases k,
    {
        if k <= 0 {
            0
        } else if self.state(self.images[k - 1].lead()).flag == Flag::Picked {
            self.picked_below(k - 1) + 1
        } else {
            self.picked_below(k - 1)
        }
    }
}

impl Cull {
    /// How many pictures are picked.
    pub fn picked_count(&self) -> (r: usize)
        requires
            self@.wf(),
        ensures
            r == self@.picked_below(self@.images.len() as int),
    {
        let n: usize = self.images.len();
        let mut count: usize = 0;
        let mut i: usize = 0;
        while i < n
            invariant
                self@.wf(),
                i <= n == self@.images.len(),
                count <= i,
                count == self@.picked_below(i as int),
            decreases n - i,
        {
            assert(self@.images[i as int].wf());
            if self.img_state(self.images[i].primary()).flag == Flag::Picked {
                count += 1;
            }
            i += 1;
        }
        count
    }
}

/// A row comes from one frame, whose burst and place in the ranking it gives
/// (the frame of the result, by burst and place). It does what was decided of
/// that frame: a pick is given the stars that it has, or 3 where it has fewer,
/// next to the original only where that was asked for and next to the copy
/// only where that was asked for; the JPEG of a pair goes along without stars
/// of its own; and a frame that is no pick is left behind.
pub proof fn rows_do_what_was_decided(
    v: cull::CullView,
    o: OptionsView,
    names: Seq<Seq<char>>,
    i: int,
) -> (at: (int, int))
    requires
        0 <= i < planned_actions(v, o, names, v.bursts.len() as int).len(),
    ensures
        0 <= at.0 < v.bursts.len(),
        0 <= at.1 < v.bursts[at.0].len(),
        ({
            let a = planned_actions(v, o, names, v.bursts.len() as int)[i];
            let m = v.bursts[at.0][v.order(at.0)[at.1] as int];
            let st = v.state(m.lead());
            &&& a.burst == at.0 + 1
            &&& a.rank == at.1 + 1
            &&& a.burst_size == v.bursts[at.0].len()
            &&& a.enabled
            &&& match a.op {
                OpView::WriteXmp { rating } => {
                    &&& o.xmp_in_place
                    &&& st.flag == Flag::Picked
                    &&& a.file == names[m.lead() as int]
                    &&& rating >= st.rating && rating >= 3 && (rating == st.rating || rating == 3)
                },
                OpView::Copy { dest, rating } => {
                    &&& o.do_copy
                    &&& dest == text::trimmed(o.dest) && dest.len() > 0
                    &&& st.flag == Flag::Picked
                    &&& {
                        ||| a.file == names[m.lead() as int] && !o.xmp_with_copies && rating == 0
                        ||| a.file == names[m.lead() as int] && o.xmp_with_copies && rating
                            >= st.rating && rating >= 3 && (rating == st.rating || rating == 3)
                        ||| m.raw is Some && m.jpeg is Some && a.file == names[m.jpeg->0 as int]
                            && rating == 0
                    }
                },
                OpView::Skip => st.flag != Flag::Picked && a.file == names[m.lead() as int],
            }
        }),
{
    let n = v.bursts.len() as int;
    let a = planned_actions(v, o, names, n)[i];
    lemma_rows(v, o, names, n, i);
    let (b, r) = choose|b: int, r: int|
        0 <= b < n && 0 <= r < v.bursts[b].len() && #[trigger] is_row_of(v, o, names, b, r, a);
    let f = frame_at(v, b, r);
    let rows = f.actions(o, names);
    let j = choose|j: int| 0 <= j < rows.len() && rows[j] == a;
    assert(rows[j] == a);
    (b, r)
}

/// What a row shows of its frame is what was measured of it.
pub proof fn rows_show_what_was_measured(
    v: cull::CullView,
    o: OptionsView,
    names: Seq<Seq<char>>,
    i: int,
) -> (at: (int, int))
    requires
        0 <= i < planned_actions(v, o, names, v.bursts.len() as int).len(),
    ensures
        0 <= at.0 < v.bursts.len(),
        0 <= at.1 < v.bursts[at.0].len(),
        ({
            let a = planned_actions(v, o, names, v.bursts.len() as int)[i];
            let b = at.0 as usize;
            let id = v.bursts[at.0][v.order(at.0)[at.1] as int].lead();
            &&& a.burst == at.0 + 1 && a.rank == at.1 + 1
            &&& v.scores.dom().contains(id) ==> a.sharpness == v.scores[id]
            &&& !v.scores.dom().contains(id) ==> a.sharpness.bits == 0
            &&& a.roi_sharpness is Some <==> v.tracks.roi.dom().contains(b)
                && v.tracks.roi[b].roi_scores.dom().contains(id)
            &&& a.roi_sharpness matches Some(s) ==> s == v.tracks.roi[b].roi_scores[id]
            &&& a.track_confidence is Some <==> v.tracks.roi.dom().contains(b)
                && v.tracks.roi[b].points.dom().contains(id)
            &&& a.track_confidence matches Some(c) ==> c == v.tracks.roi[b].points[id].conf
        }),
{
    let n = v.bursts.len() as int;
    let a = planned_actions(v, o, names, n)[i];
    lemma_rows(v, o, names, n, i);
    let (b, r) = choose|b: int, r: int|
        0 <= b < n && 0 <= r < v.bursts[b].len() && #[trigger] is_row_of(v, o, names, b, r, a);
    let f = frame_at(v, b, r);
    let rows = f.actions(o, names);
    let j = choose|j: int| 0 <= j < rows.len() && rows[j] == a;
    assert(rows[j] == a);
    (b, r)
}

/// Whether some row of a recipe does `op` to file `file` for the frame at
/// place `r` of burst `b`.
pub open spec fn is_planned(
    rows: Seq<ActionView>,
    b: int,
    r: int,
    file: Seq<char>,
    op: OpView,
) -> bool {
    exists|i: int|
        0 <= i < rows.len() && (#[trigger] rows[i]).op == op && rows[i].file == file
            && rows[i].burst == b + 1 && rows[i].rank == r + 1
}

/// Every pick is harvested as it was asked for, with the greater of its stars
/// and 3; its paired JPEG goes along; and every other frame is left behind.
pub proof fn picks_are_harvested(
    v: cull::CullView,
    o: OptionsView,
    names: Seq<Seq<char>>,
    b: int,
    r: int,
)
    requires
        0 <= b < v.bursts.len(),
        0 <= r < v.bursts[b].len(),
    ensures
        ({
            let rows = planned_actions(v, o, names, v.bursts.len() as int);
            let m = v.bursts[b][v.order(b)[r] as int];
            let st = v.state(m.lead());
            let name = names[m.lead() as int];
            let rating: u8 = if st.rating > 3 {
                st.rating
            } else {
                3
            };
            let dest = text::trimmed(o.dest);
            let copies = o.do_copy && dest.len() > 0;
            if st.flag == Flag::Picked {
                &&& o.xmp_in_place ==> is_planned(rows, b, r, name, OpView::WriteXmp { rating })
                &&& copies && o.xmp_with_copies ==> is_planned(
                    rows,
                    b,
                    r,
                    name,
                    OpView::Copy { dest, rating },
                )
                &&& copies && !o.xmp_with_copies ==> is_planned(
                    rows,
                    b,
                    r,
                    name,
                    OpView::Copy { dest, rating: 0 },
                )
                &&& copies && m.raw is Some && m.jpeg is Some ==> is_planned(
                    rows,
                    b,
                    r,
                    names[m.jpeg->0 as int],
                    OpView::Copy { dest, rating: 0 },
                )
            } else {
                is_planned(rows, b, r, name, OpView::Skip)
            }
        }),
{
    let m = v.bursts[b][v.order(b)[r] as int];
    let f = frame_at(v, b, r);
    let name = names[m.lead() as int];
    let all = f.actions(o, names);
    if f.state.flag == Flag::Picked {
        let (p, q, s) = (f.sidecar_rows(o, name), f.copy_rows(o, name), f.jpeg_rows(o, name, names));
        if p.len() > 0 {
            assert(all[0] == p[0]);
            lemma_planned_row(v, o, names, b, r, 0);
        }
        if q.len() > 0 {
            assert(all[p.len() as int] == q[0]);
            lemma_planned_row(v, o, names, b, r, p.len() as int);
        }
        if s.len() > 0 {
            assert(all[(p.len() + q.len()) as int] == s[0]);
            lemma_planned_row(v, o, names, b, r, (p.len() + q.len()) as int);
        }
    } else {
        assert(all[0].op is Skip);
        lemma_planned_row(v, o, names, b, r, 0);
    }
}

proof fn lemma_planned_row(
    v: cull::CullView,
    o: OptionsView,
    names: Seq<Seq<char>>,
    b: int,
    r: int,
    j: int,
)
    requires
        0 <= b < v.bursts.len(),
        0 <= r < v.bursts[b].len(),
        0 <= j < frame_at(v, b, r).actions(o, names).len(),
    ensures
        ({
            let a = frame_at(v, b, r).actions(o, names)[j];
            is_planned(planned_actions(v, o, names, v.bursts.len() as int), b, r, a.file, a.op)
        }),
{
    let a = frame_at(v, b, r).actions(o, names)[j];
    let rows = planned_actions(v, o, names, v.bursts.len() as int);
    assert(is_row_of(v, o, names, b, r, a));
    lemma_row_planned(v, o, names, b, r, v.bursts.len() as int, a);
    let i = choose|i: int| 0 <= i < rows.len() && rows[i] == a;
    assert(rows[i].op == a.op);
}

/// Whether row `c` may stand after row `a`: it is of a later burst, of a frame
/// further down in the same one, or of the same frame and another kind, first
/// the sidecar, then the copies.
pub open spec fn row_follows(a: ActionView, c: ActionView) -> bool {
    ||| a.burst < c.burst
    ||| a.burst == c.burst && a.rank < c.rank
    ||| a.burst == c.burst && a.rank == c.rank && c.op is Copy && !(a.op is Skip)
}

proof fn lemma_frame_rows_follow(f: FrameView, o: OptionsView, names: Seq<Seq<char>>)
    ensures
        forall|i: int, j: int|
            0 <= i < j < f.actions(o, names).len() ==> row_follows(
                #[trigger] f.actions(o, names)[i],
                #[trigger] f.actions(o, names)[j],
            ),
        forall|i: int|
            0 <= i < f.actions(o, names).len() ==> (#[trigger] f.actions(o, names)[i]).burst
                == f.burst && f.actions(o, names)[i].rank == f.rank,
{
}

proof fn lemma_burst_rows_follow(
    v: cull::CullView,
    o: OptionsView,
    names: Seq<Seq<char>>,
    b: int,
    k: int,
)
    ensures
        forall|i: int, j: int|
            0 <= i < j < burst_actions(v, o, names, b, k).len() ==> row_follows(
                #[trigger] burst_actions(v, o, names, b, k)[i],
                #[trigger] burst_actions(v, o, names, b, k)[j],
            ),
        forall|i: int|
            0 <= i < burst_actions(v, o, names, b, k).len() ==> (#[trigger] burst_actions(
                v,
                o,
                names,
                b,
                k,
            )[i]).burst == b + 1 && burst_actions(v, o, names, b, k)[i].rank <= k,
    decreases k,
{
    if k > 0 {
        let rest = burst_actions(v, o, names, b, k - 1);
        let f = frame_at(v, b, k - 1);
        let rows = f.actions(o, names);
        lemma_burst_rows_follow(v, o, names, b, k - 1);
        lemma_frame_rows_follow(f, o, names);
        let all = burst_actions(v, o, names, b, k);
        assert forall|i: int, j: int| 0 <= i < j < all.len() implies row_follows(
            #[trigger] all[i],
            #[trigger] all[j],
        ) by {
            if j < rest.len() {
                assert(all[i] == rest[i] && all[j] == rest[j]);
            } else if i < rest.len() {
                assert(all[i] == rest[i] && all[j] == rows[j - rest.len()]);
            } else {
                assert(all[i] == rows[i - rest.len()] && all[j] == rows[j - rest.len()]);
            }
        }
        assert forall|i: int| 0 <= i < all.len() implies (#[trigger] all[i]).burst == b + 1
            && all[i].rank <= k by {
            if i < rest.len() {
                assert(all[i] == rest[i]);
            } else {
                assert(all[i] == rows[i - rest.len()]);
            }
        }
    }
}

proof fn lemma_rows_follow(v: cull::CullView, o: OptionsView, names: Seq<Seq<char>>, k: int)
    ensures
        forall|i: int, j: int|
            0 <= i < j < planned_actions(v, o, names, k).len() ==> row_follows(
                #[trigger] planned_actions(v, o, names, k)[i],
                #[trigger] planned_actions(v, o, names, k)[j],
            ),
        forall|i: int|
            0 <= i < planned_actions(v, o, names, k).len() ==> (#[trigger] planned_actions(
                v,
                o,
                names,
                k,
            )[i]).burst <= k,
    decreases k,
{
    if k > 0 {
        let rest = planned_actions(v, o, names, k - 1);
        let n = v.bursts[k - 1].len() as int;
        let rows = burst_actions(v, o, names, k - 1, n);
        lemma_rows_follow(v, o, names, k - 1);
        lemma_burst_rows_follow(v, o, names, k - 1, n);
        let all = planned_actions(v, o, names, k);
        assert forall|i: int, j: int| 0 <= i < j < all.len() implies row_follows(
            #[trigger] all[i],
            #[trigger] all[j],
        ) by {
            if j < rest.len() {
                assert(all[i] == rest[i] && all[j] == rest[j]);
            } else if i < rest.len() {
                assert(all[i] == rest[i] && all[j] == rows[j - rest.len()]);
            } else {
                assert(all[i] == rows[i - rest.len()] && all[j] == rows[j - rest.len()]);
            }
        }
        assert forall|i: int| 0 <= i < all.len() implies (#[trigger] all[i]).burst <= k by {
            if i < rest.len() {
                assert(all[i] == rest[i]);
            } else {
                assert(all[i] == rows[i - rest.len()]);
            }
        }
    }
}

/// Rows stand in the order of the bursts and, within a burst, of the ranking;
/// a frame has no two sidecar rows and no two rows that leave it behind.
pub proof fn rows_follow_the_display(
    v: cull::CullView,
    o: OptionsView,
    names: Seq<Seq<char>>,
    i: int,
    j: int,
)
    requires
        0 <= i < j < planned_actions(v, o, names, v.bursts.len() as int).len(),
    ensures
        row_follows(
            planned_actions(v, o, names, v.bursts.len() as int)[i],
            planned_actions(v, o, names, v.bursts.len() as int)[j],
        ),
{
    lemma_rows_follow(v, o, names, v.bursts.len() as int);
}

proof fn lemma_shown(
    filter: RowFilter,
    actions: Seq<PlannedAction>,
    issues: Seq<Issue>,
    k: int,
)
    requires
        0 <= k <= actions.len() <= usize::MAX,
    ensures
        forall|i: int, j: int|
            0 <= i < j < shown_below(filter, actions, issues, k).len() ==> #[trigger] shown_below(
                filter,
                actions,
                issues,
                k,
            )[i] < #[trigger] shown_below(filter, actions, issues, k)[j],
        forall|i: int|
            0 <= i < shown_below(filter, actions, issues, k).len() ==> (#[trigger] shown_below(
                filter,
                actions,
                issues,
                k,
            )[i]) < k && filter.shows(
                actions,
                issues,
                shown_below(filter, actions, issues, k)[i] as int,
            ),
        forall|m: usize|
            m < k && filter.shows(actions, issues, m as int) ==> #[trigger] shown_below(
                filter,
                actions,
                issues,
                k,
            ).contains(m),
    decreases k,
{
    if k > 0 {
        lemma_shown(filter, actions, issues, k - 1);
        let rest = shown_below(filter, actions, issues, k - 1);
        let all = shown_below(filter, actions, issues, k);
        assert forall|m: usize| m < k && filter.shows(actions, issues, m as int) implies
            #[trigger] all.contains(m) by {
            if m < k - 1 {
                assert(rest.contains(m));
                let j = choose|j: int| 0 <= j < rest.len() && rest[j] == m;
                assert(all[j] == m);
            } else {
                assert(all[all.len() - 1] == m);
            }
        }
    }
}

proof fn lemma_last_issue(issues: Seq<Issue>, i: int, k: int)
    requires
        0 <= k <= issues.len(),
    ensures
        last_issue(issues, i, k) is Some <==> exists|j: int|
            0 <= j < k && (#[trigger] issues[j]).action == i,
        last_issue(issues, i, k) matches Some(j) ==> 0 <= j < k && issues[j].action == i && (
        forall|l: int| j < l < k ==> (#[trigger] issues[l]).action != i),
    decreases k,
{
    if k > 0 {
        lemma_last_issue(issues, i, k - 1);
        if issues[k - 1].action == i {
        } else if last_issue(issues, i, k - 1) is Some {
            let j = last_issue(issues, i, k - 1)->0;
            assert(issues[j].action == i);
        }
    }
}

/// A filter shows the rows that it is named for and no others, each once and
/// in their order.
pub proof fn filters_show_what_they_say(
    filter: RowFilter,
    actions: Seq<PlannedAction>,
    issues: Seq<Issue>,
    m: usize,
)
    requires
        m < actions.len() <= usize::MAX,
    ensures
        ({
            let rows = shown_below(filter, actions, issues, actions.len() as int);
            &&& forall|i: int, j: int|
                0 <= i < j < rows.len() ==> #[trigger] rows[i] < #[trigger] rows[j]
            &&& forall|i: int| 0 <= i < rows.len() ==> #[trigger] rows[i] < actions.len()
            &&& rows.contains(m) <==> match filter {
                RowFilter::All => true,
                RowFilter::Actions => !(actions[m as int].op is Skip),
                RowFilter::Skips => actions[m as int].op is Skip,
                RowFilter::Problems => exists|j: int|
                    0 <= j < issues.len() && (#[trigger] issues[j]).action == m,
            }
        }),
{
    let n = actions.len() as int;
    lemma_shown(filter, actions, issues, n);
    lemma_last_issue(issues, m as int, issues.len() as int);
    let rows = shown_below(filter, actions, issues, n);
    if rows.contains(m) {
        let i = choose|i: int| 0 <= i < rows.len() && rows[i] == m;
        assert(filter.shows(actions, issues, rows[i] as int));
    }
}

/// The issue that is shown with a row is the last one of it.
pub proof fn last_issue_is_shown(issues: Seq<Issue>, i: int, j: int)
    requires
        0 <= j < issues.len(),
        issues[j].action == i,
    ensures
        last_issue(issues, i, issues.len() as int) matches Some(k) && j <= k < issues.len()
            && issues[k].action == i,
{
    lemma_last_issue(issues, i, issues.len() as int);
}

impl CullView {
    /// The pictures that are picked, by their places.
    pub open spec fn picks(self) -> Set<int> {
        Set::new(
            |k: int|
                0 <= k < self.images.len() && self.state(self.images[k].lead()).flag
                    == Flag::Picked,
        )
    }
}

proof fn lemma_picked(v: CullView, k: int)
    requires
        0 <= k <= v.images.len(),
    ensures
        v.picks().filter(|i: int| i < k).finite(),
        v.picked_below(k) == v.picks().filter(|i: int| i < k).len(),
    decreases k,
{
    let all = v.picks().filter(|i: int| i < k);
    if k > 0 {
        lemma_picked(v, k - 1);
        let rest = v.picks().filter(|i: int| i < k - 1);
        if v.picks().contains(k - 1) {
            assert(all =~= rest.insert(k - 1));
        } else {
            assert(all =~= rest);
        }
    } else {
        assert(all =~= Set::empty());
    }
}

/// As many pictures are counted as are picked.
pub proof fn every_pick_is_counted(v: CullView)
    ensures
        v.picked_below(v.images.len() as int) == v.picks().len(),
{
    lemma_picked(v, v.images.len() as int);
    assert(v.picks().filter(|i: int| i < v.images.len() as int) =~= v.picks());
}

/// What a rank is said to rest on is what it rests on: a pupil where one was
/// measured, and then where it was looked for; else the tracked point where
/// the track was sure of it, at 0.55 or more; else overall sharpness.
pub proof fn reasons_name_what_decided(
    eye: Option<RoiKind>,
    roi: Option<Real32>,
    conf: Option<Real32>,
)
    requires
        conf matches Some(c) ==> !c.is_nan_spec(),
    ensures
        eye == Some(RoiKind::EyeCamera) ==> basis_text(eye, roi, conf)
            == "eye edge acuity (camera eye point)"@,
        eye == Some(RoiKind::EyeTracked) ==> basis_text(eye, roi, conf)
            == "eye edge acuity (tracked eye)"@,
        eye is None && roi is Some && conf is Some && conf->0.place() >= 0x3F0C_CCCD ==> basis_text(
            eye,
            roi,
            conf,
        ) == "sharpness at the tracked point"@,
        eye is None && conf is Some && conf->0.place() < 0x3F0C_CCCD ==> basis_text(eye, roi, conf)
            == "overall sharpness (track lost here)"@,
        eye is None && conf is None ==> basis_text(eye, roi, conf) == "overall sharpness"@,
{
}

/// The reason of a row names its rank, the size of its burst and the burst, in
/// that order: a row's numbers can be read off it.
pub proof fn reasons_name_rank_size_and_burst(f: FrameView, verb: Seq<char>)
    ensures
        f.evidence(verb) == verb + ": rank "@ + text::decimal(f.rank) + "/"@ + text::decimal(
            f.burst_size,
        ) + " in burst "@ + text::decimal(f.burst) + " by "@ + basis_text(
            f.eye,
            f.roi_sharpness,
            f.track_confidence,
        ),
{
}

} // verus!
