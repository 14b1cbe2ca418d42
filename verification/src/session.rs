//! The record of a culling session: flags, ratings and manual focus pins by
//! file name. It is the only thing that is ever written into the image
//! folder.

use vstd::prelude::*;
use vstd::hash_map::StringHashMap;
use crate::burst;
use crate::burst::LogicalImage;
use crate::cull;
use crate::cull::Cull;
use crate::marks;
use crate::marks::{Flag, ImgState};
use crate::meta::FileMeta;
use crate::path;
use crate::pipeline;
use crate::pipeline::Pin;
use crate::roi;
use crate::single::Real32;
use crate::text;

verus! {

/// Version of the record's shape.
pub const SESSION_VERSION: u32 = 1;

/// What was decided about one picture.
#[derive(Debug)]
pub struct SessionImage {
    /// "pick", "reject" or empty.
    pub flag: String,
    pub rating: u8,
}

/// The record of a session, by file name.
#[derive(Debug)]
pub struct SessionFile {
    pub version: u32,
    pub images: Vec<(String, SessionImage)>,
    /// Manual focus pins: normalized position in the upright image.
    pub pins: Vec<(String, (Real32, Real32))>,
}

/// What was decided about one picture: its name, flag and rating.
#[verifier::ext_equal]
pub struct ImageView {
    pub name: Seq<char>,
    pub flag: Seq<char>,
    pub rating: u8,
}

/// A pin on one picture.
#[verifier::ext_equal]
pub struct PinView {
    pub name: Seq<char>,
    pub x: Real32,
    pub y: Real32,
}

/// The value of a `SessionFile`.
#[verifier::ext_equal]
pub struct SessionView {
    pub version: u32,
    pub images: Seq<ImageView>,
    pub pins: Seq<PinView>,
}

impl View for SessionFile {
    type V = SessionView;

    open spec fn view(&self) -> SessionView {
        SessionView {
            version: self.version,
            images: Seq::new(
                self.images@.len(),
                |i: int|
                    ImageView {
                        name: self.images@[i].0@,
                        flag: self.images@[i].1.flag@,
                        rating: self.images@[i].1.rating,
                    },
            ),
            pins: Seq::new(
                self.pins@.len(),
                |i: int|
                    PinView {
                        name: self.pins@[i].0@,
                        x: self.pins@[i].1.0,
                        y: self.pins@[i].1.1,
                    },
            ),
        }
    }
}

/// Whether a rating is left out of the record.
pub fn is_zero(v: &u8) -> (r: bool)
    ensures
        r == (*v == 0),
{
    *v == 0
}

/// How a flag is written.
pub open spec fn flag_text(f: Flag) -> Seq<char> {
    match f {
        Flag::Picked => "pick"@,
        Flag::Rejected => "reject"@,
        Flag::Unrated => ""@,
    }
}

/// The flag that is written so; what is not known is no flag.
pub open spec fn flag_written(s: Seq<char>) -> Flag {
    if s == "pick"@ {
        Flag::Picked
    } else if s == "reject"@ {
        Flag::Rejected
    } else {
        Flag::Unrated
    }
}

/// How a flag is written.
pub fn flag_name(f: Flag) -> (r: &'static str)
    ensures
        r@ == flag_text(f),
{
    match f {
        Flag::Picked => "pick",
        Flag::Rejected => "reject",
        Flag::Unrated => "",
    }
}

/// The flag that is written so.
pub fn flag_named(s: &str) -> (r: Flag)
    ensures
        r == flag_written(s@),
{
    if text::str_eq(s, "pick") {
        Flag::Picked
    } else if text::str_eq(s, "reject") {
        Flag::Rejected
    } else {
        Flag::Unrated
    }
}

/// A flag that is written is read back.
pub proof fn flags_read_back(f: Flag)
    ensures
        flag_written(flag_text(f)) == f,
{
    reveal_strlit("pick");
    reveal_strlit("reject");
    reveal_strlit("");
    assert("pick"@.len() == 4 && "reject"@.len() == 6 && ""@.len() == 0);
}

/// The character sequences of a list of strings.
pub open spec fn strings(v: Seq<String>) -> Seq<Seq<char>> {
    Seq::new(v.len(), |i: int| v[i]@)
}

/// Whether `name` is what `path` is called in `folder`: the rest of the path
/// after the folder, or the path itself where it does not lie there.
pub open spec fn is_named_in(path: Seq<char>, folder: Seq<char>, name: Seq<char>) -> bool {
    ||| path::is_rest(path, folder, name)
    ||| path::outside(path, folder) && name == path
}

/// The path of a file relative to the scanned folder; the path itself where
/// it does not lie there.
pub fn rel_path(path: &str, folder: &str) -> (r: String)
    ensures
        forall|name: Seq<char>| #[trigger] is_named_in(path@, folder@, name) ==> r@ == name,
        forall|rest: Seq<char>| #[trigger]
            path::is_backslash_rest(path@, folder@, rest) ==> r@ == rest || r@ == path@,
{
    match path::strip_prefix(path, folder) {
        Some(s) => s,
        None => text::copy_of(path),
    }
}

/// What the scanned files are called in the record.
pub fn rel_keys(metas: &Vec<FileMeta>, folder: &str) -> (r: Vec<String>)
    ensures
        r@.len() == metas@.len(),
        forall|i: int, name: Seq<char>|
            0 <= i < r@.len() && #[trigger] is_named_in(metas@[i].path@, folder@, name) ==> r@[i]@
                == name,
        forall|i: int, rest: Seq<char>|
            0 <= i < r@.len() && #[trigger] path::is_backslash_rest(
                metas@[i].path@,
                folder@,
                rest,
            ) ==> r@[i]@ == rest || r@[i]@ == metas@[i].path@,
{
    let n: usize = metas.len();
    let mut out: Vec<String> = Vec::new();
    let mut i: usize = 0;
    while i < n
        invariant
            i <= n == metas@.len(),
            out@.len() == i,
            forall|j: int, name: Seq<char>|
                0 <= j < i && #[trigger] is_named_in(metas@[j].path@, folder@, name)
                    ==> out@[j]@ == name,
            forall|j: int, rest: Seq<char>|
                0 <= j < i && #[trigger] path::is_backslash_rest(metas@[j].path@, folder@, rest)
                    ==> out@[j]@ == rest || out@[j]@ == metas@[j].path@,
        decreases n - i,
    {
        out.push(rel_path(metas[i].path.as_str(), folder));
        i += 1;
    }
    out
}

/// Files have different names in the record: what lies in the folder is named
/// by the rest of its path, and what does not, by the whole, which starts at
/// the root.
pub proof fn names_tell_files_apart(
    paths: Seq<Seq<char>>,
    folder: Seq<char>,
    names: Seq<Seq<char>>,
)
    requires
        names.len() == paths.len(),
        distinct(paths),
        forall|i: int| 0 <= i < paths.len() ==> is_named_in(paths[i], folder, #[trigger] names[i]),
        forall|i: int|
            0 <= i < paths.len() && path::outside(#[trigger] paths[i], folder)
                ==> path::is_separator(paths[i][0]),
    ensures
        distinct(names),
{
    assert forall|i: int, j: int| 0 <= i < j < names.len() implies names[i] != names[j] by {
        let (a, b) = (names[i], names[j]);
        if a == b {
            assert(paths[i] != paths[j]);
            if path::is_rest(paths[i], folder, a) {
                assert(!path::is_rest(paths[j], folder, b));
                assert(path::outside(paths[j], folder));
            } else {
                assert(path::outside(paths[i], folder));
            }
        }
    }
}

/// What the record says of the first `k` files.
pub open spec fn saved_images(
    state: Map<usize, ImgState>,
    names: Seq<Seq<char>>,
    k: int,
) -> Seq<ImageView>
    decreases k,
{
    if k <= 0 {
        Seq::empty()
    } else {
        let rest = saved_images(state, names, k - 1);
        let id = (k - 1) as usize;
        if state.dom().contains(id) {
            rest.push(
                ImageView {
                    name: names[k - 1],
                    flag: flag_text(state[id].flag),
                    rating: state[id].rating,
                },
            )
        } else {
            rest
        }
    }
}

/// What the record says of the first `k` pins of a burst.
pub open spec fn saved_seeds(seeds: Seq<Pin>, names: Seq<Seq<char>>, k: int) -> Seq<PinView>
    decreases k,
{
    if k <= 0 {
        Seq::empty()
    } else {
        let rest = saved_seeds(seeds, names, k - 1);
        let s = seeds[k - 1];
        if s.frame < names.len() {
            rest.push(PinView { name: names[s.frame as int], x: s.x, y: s.y })
        } else {
            rest
        }
    }
}

/// The pins of the first `k` bursts.
pub open spec fn all_seeds(v: cull::CullView, k: int) -> Seq<Pin>
    decreases k,
{
    if k <= 0 {
        Seq::empty()
    } else {
        all_seeds(v, k - 1) + v.tracks.seeds((k - 1) as usize)
    }
}

/// The pins among those of the first `k` files that wait for their burst to be
/// opened, on frames that none of `seeds` is on.
pub open spec fn waiting_pins(
    pending: Map<usize, (Real32, Real32)>,
    seeds: Seq<Pin>,
    k: int,
) -> Seq<Pin>
    decreases k,
{
    if k <= 0 {
        Seq::empty()
    } else {
        let rest = waiting_pins(pending, seeds, k - 1);
        let id = (k - 1) as usize;
        if pending.dom().contains(id) && !pipeline::is_pinned(seeds, id) {
            rest.push(Pin { frame: id, x: pending[id].0, y: pending[id].1 })
        } else {
            rest
        }
    }
}

/// All pins of a session with `n` files: those of the bursts, and those that
/// wait for theirs to be opened.
pub open spec fn all_pins(v: cull::CullView, n: int) -> Seq<Pin> {
    let seeds = all_seeds(v, v.bursts.len() as int);
    seeds + waiting_pins(v.pending, seeds, n)
}

/// The record of a session whose files are called `names`.
pub open spec fn saved(v: cull::CullView, names: Seq<Seq<char>>) -> SessionView {
    SessionView {
        version: SESSION_VERSION,
        images: saved_images(v.marks.state, names, names.len() as int),
        pins: saved_seeds(
            all_pins(v, names.len() as int),
            names,
            all_pins(v, names.len() as int).len() as int,
        ),
    }
}

/// The picture of each name: the first `k` of `images`.
pub open spec fn name_index(
    images: Seq<LogicalImage>,
    names: Seq<Seq<char>>,
    k: int,
) -> Map<Seq<char>, usize>
    decreases k,
{
    if k <= 0 {
        Map::empty()
    } else {
        name_index(images, names, k - 1).insert(
            names[images[k - 1].lead() as int],
            images[k - 1].lead(),
        )
    }
}

/// What is decided after one more line of a record: a picture that is there is
/// marked as the line says, where that is something.
pub open spec fn with_line(
    state: Map<usize, ImgState>,
    index: Map<Seq<char>, usize>,
    name: Seq<char>,
    st: ImgState,
) -> Map<usize, ImgState> {
    if index.dom().contains(name) && (st.flag != Flag::Unrated || st.rating > 0) {
        state.insert(index[name], st)
    } else {
        state
    }
}

/// What is decided after the first `k` entries of a record are read.
pub open spec fn read_images(
    state: Map<usize, ImgState>,
    index: Map<Seq<char>, usize>,
    images: Seq<ImageView>,
    k: int,
) -> Map<usize, ImgState>
    decreases k,
{
    if k <= 0 {
        state
    } else {
        let e = images[k - 1];
        with_line(
            read_images(state, index, images, k - 1),
            index,
            e.name,
            ImgState { flag: flag_written(e.flag), rating: e.rating },
        )
    }
}

/// The pending pins after the first `k` pins of a record are read.
pub open spec fn read_pins(
    pending: Map<usize, (Real32, Real32)>,
    index: Map<Seq<char>, usize>,
    pins: Seq<PinView>,
    k: int,
) -> Map<usize, (Real32, Real32)>
    decreases k,
{
    if k <= 0 {
        pending
    } else {
        let rest = read_pins(pending, index, pins, k - 1);
        let p = pins[k - 1];
        if index.dom().contains(p.name) {
            rest.insert(index[p.name], (p.x, p.y))
        } else {
            rest
        }
    }
}

/// The session after a record is read.
pub open spec fn resumed(v: cull::CullView, names: Seq<Seq<char>>, f: SessionView) -> cull::CullView {
    let index = name_index(v.images, names, v.images.len() as int);
    cull::CullView {
        marks: marks::MarksView {
            state: read_images(v.marks.state, index, f.images, f.images.len() as int),
            ..v.marks
        },
        pending: read_pins(v.pending, index, f.pins, f.pins.len() as int),
        ..v
    }
}

fn index_names(images: &Vec<LogicalImage>, names: &Vec<String>) -> (r: StringHashMap<usize>)
    requires
        burst::valid_images(images@, names@.len() as int),
    ensures
        r@ == name_index(images@, strings(names@), images@.len() as int),
{
    let n: usize = images.len();
    let mut index: StringHashMap<usize> = StringHashMap::new();
    let mut i: usize = 0;
    while i < n
        invariant
            i <= n == images@.len(),
            burst::valid_images(images@, names@.len() as int),
            index@ == name_index(images@, strings(names@), i as int),
        decreases n - i,
    {
        let id = images[i].primary();
        index.insert(text::copy_of(names[id].as_str()), id);
        i += 1;
    }
    index
}

fn name_pins(seeds: &Vec<Pin>, names: &Vec<String>) -> (r: Vec<(String, (Real32, Real32))>)
    ensures
        pin_views(r@) == saved_seeds(seeds@, strings(names@), seeds@.len() as int),
{
    let n: usize = seeds.len();
    let mut pins: Vec<(String, (Real32, Real32))> = Vec::new();
    let mut i: usize = 0;
    assert(pin_views(pins@) =~= saved_seeds(seeds@, strings(names@), 0));
    while i < n
        invariant
            i <= n == seeds@.len(),
            pin_views(pins@) == saved_seeds(seeds@, strings(names@), i as int),
        decreases n - i,
    {
        let s = seeds[i];
        let ghost before = pins@;
        if s.frame < names.len() {
            pins.push((text::copy_of(names[s.frame].as_str()), (s.x, s.y)));
            assert(pin_views(pins@) =~= pin_views(before).push(
                PinView { name: strings(names@)[s.frame as int], x: s.x, y: s.y },
            ));
        }
        i += 1;
    }
    pins
}

/// The values of a list of pins.
pub open spec fn pin_views(pins: Seq<(String, (Real32, Real32))>) -> Seq<PinView> {
    Seq::new(
        pins.len(),
        |i: int| PinView { name: pins[i].0@, x: pins[i].1.0, y: pins[i].1.1 },
    )
}

/// The values of a list of entries.
pub open spec fn image_views(images: Seq<(String, SessionImage)>) -> Seq<ImageView> {
    Seq::new(
        images.len(),
        |i: int|
            ImageView { name: images[i].0@, flag: images[i].1.flag@, rating: images[i].1.rating },
    )
}

impl Cull {
    fn saved_entries(&self, names: &Vec<String>) -> (r: Vec<(String, SessionImage)>)
        ensures
            image_views(r@) == saved_images(
                self@.marks.state,
                strings(names@),
                names@.len() as int,
            ),
    {
        broadcast use vstd::std_specs::hash::group_hash_axioms;

        let n: usize = names.len();
        let mut out: Vec<(String, SessionImage)> = Vec::new();
        let mut i: usize = 0;
        assert(image_views(out@) =~= saved_images(self@.marks.state, strings(names@), 0));
        while i < n
            invariant
                i <= n == names@.len(),
                image_views(out@) == saved_images(self@.marks.state, strings(names@), i as int),
            decreases n - i,
        {
            broadcast use vstd::std_specs::hash::group_hash_axioms;

            let ghost before = out@;
            if let Some(st) = self.marks.state.get(&i) {
                let flag = text::copy_of(flag_name(st.flag));
                out.push(
                    (text::copy_of(names[i].as_str()), SessionImage { flag, rating: st.rating }),
                );
                assert(image_views(out@) =~= image_views(before).push(
                    ImageView {
                        name: strings(names@)[i as int],
                        flag: flag_text(st.flag),
                        rating: st.rating,
                    },
                ));
            }
            i += 1;
        }
        out
    }

    fn burst_pins(&self) -> (r: Vec<Pin>)
        ensures
            r@ == all_seeds(self@, self@.bursts.len() as int),
    {
        let n: usize = self.bursts.len();
        let mut out: Vec<Pin> = Vec::new();
        let mut b: usize = 0;
        while b < n
            invariant
                b <= n == self@.bursts.len(),
                out@ == all_seeds(self@, b as int),
            decreases n - b,
        {
            let mut seeds = self.tracks.seeds(b);
            out.append(&mut seeds);
            b += 1;
        }
        out
    }

    fn every_pin(&self, n: usize) -> (r: Vec<Pin>)
        ensures
            r@ == all_pins(self@, n as int),
    {
        let seeds = self.burst_pins();
        let mut out = roi::copy_pins(&seeds);
        let mut id: usize = 0;
        assert(out@ =~= seeds@ + waiting_pins(self@.pending, seeds@, 0));
        while id < n
            invariant
                id <= n,
                out@ == seeds@ + waiting_pins(self@.pending, seeds@, id as int),
            decreases n - id,
        {
            broadcast use vstd::std_specs::hash::group_hash_axioms;

            if let Some(p) = self.pending_pins.get(&id) {
                if !pipeline::has_pin(&seeds, id) {
                    out.push(Pin { frame: id, x: p.0, y: p.1 });
                }
            }
            id += 1;
            assert(out@ =~= seeds@ + waiting_pins(self@.pending, seeds@, id as int));
        }
        out
    }

    /// The record of the session, to be written; nothing is left to save then.
    /// `names` are what the scanned files are called.
    pub fn save_session(&mut self, names: &Vec<String>) -> (r: SessionFile)
        requires
            old(self)@.wf(),
            names@.len() == old(self)@.metas.len(),
        ensures
            r@ == saved(old(self)@, strings(names@)),
            final(self)@ == old(self)@.looking(
                (cull::Look { dirty: false, ..old(self)@.look }),
            ),
            final(self)@.wf(),
    {
        let images = self.saved_entries(names);
        let pins = name_pins(&self.every_pin(names.len()), names);
        self.look.dirty = false;
        let f = SessionFile { version: SESSION_VERSION, images, pins };
        assert(f@.images =~= image_views(images@));
        assert(f@.pins =~= pin_views(pins@));
        f
    }

    fn put_line(&mut self, index: &StringHashMap<usize>, name: &str, st: ImgState)
        ensures
            final(self)@ == (cull::CullView {
                marks: marks::MarksView {
                    state: with_line(old(self)@.marks.state, index@, name@, st),
                    ..old(self)@.marks
                },
                ..old(self)@
            }),
    {
        broadcast use vstd::std_specs::hash::group_hash_axioms;

        if let Some(id) = index.get(name) {
            if st.flag != Flag::Unrated || st.rating > 0 {
                self.marks.state.insert(*id, st);
            }
        }
        assert(self@.marks.undo =~= old(self)@.marks.undo);
    }

    /// Takes up a recorded session. `names` are what the scanned files are
    /// called.
    pub fn load_session(&mut self, names: &Vec<String>, f: &SessionFile)
        requires
            old(self)@.wf(),
            names@.len() == old(self)@.metas.len(),
        ensures
            final(self)@ == resumed(old(self)@, strings(names@), f@),
            final(self)@.wf(),
    {
        let index = index_names(&self.images, names);
        let n: usize = f.images.len();
        let mut i: usize = 0;
        let ghost v = self@;
        while i < n
            invariant
                i <= n == f.images@.len(),
                self@ == (cull::CullView {
                    marks: marks::MarksView {
                        state: read_images(v.marks.state, index@, f@.images, i as int),
                        ..v.marks
                    },
                    ..v
                }),
                v.wf(),
                marks::no_blanks(self@.marks.state),
            decreases n - i,
        {
            let e = &f.images[i];
            let st = ImgState { flag: flag_named(e.1.flag.as_str()), rating: e.1.rating };
            assert(f@.images[i as int].name == e.0@);
            self.put_line(&index, e.0.as_str(), st);
            i += 1;
        }
        let ghost w = self@;
        let m: usize = f.pins.len();
        let mut j: usize = 0;
        while j < m
            invariant
                j <= m == f.pins@.len(),
                self@ == (cull::CullView {
                    pending: read_pins(w.pending, index@, f@.pins, j as int),
                    ..w
                }),
            decreases m - j,
        {
            broadcast use vstd::std_specs::hash::group_hash_axioms;

            let p = &f.pins[j];
            assert(f@.pins[j as int].name == p.0@);
            if let Some(id) = index.get(p.0.as_str()) {
                self.pending_pins.insert(*id, p.1);
            }
            j += 1;
        }
    }
}

/// The flag that a letter of the older, tab-separated record stands for.
pub open spec fn flag_lettered(s: Seq<char>) -> Flag {
    if s == seq!['P'] {
        Flag::Picked
    } else if s == seq!['X'] {
        Flag::Rejected
    } else {
        Flag::Unrated
    }
}

/// A rating as the older record writes it, 0 where it is none.
pub open spec fn rating_written(s: Seq<char>) -> u8 {
    match text::unsigned_value(s) {
        Some(v) if v <= 255 => v as u8,
        _ => 0,
    }
}

/// What is decided after the first `k` lines of an older record are read: each
/// holds a path, a flag and a rating, with tabs between them. Lines with less
/// than that are passed over.
pub open spec fn read_lines(
    state: Map<usize, ImgState>,
    index: Map<Seq<char>, usize>,
    lines: Seq<Seq<char>>,
    k: int,
) -> Map<usize, ImgState>
    decreases k,
{
    if k <= 0 {
        state
    } else {
        let rest = read_lines(state, index, lines, k - 1);
        let fields = text::split(lines[k - 1], '\t');
        if fields.len() < 3 {
            rest
        } else {
            with_line(
                rest,
                index,
                fields[0],
                ImgState { flag: flag_lettered(fields[1]), rating: rating_written(fields[2]) },
            )
        }
    }
}

/// The paths of a list of files.
pub open spec fn paths_of(metas: Seq<FileMeta>) -> Seq<Seq<char>> {
    Seq::new(metas.len(), |i: int| metas[i].path@)
}

/// The session after an older record is read.
pub open spec fn migrated(v: cull::CullView, content: Seq<char>) -> cull::CullView {
    let index = name_index(v.images, paths_of(v.metas), v.images.len() as int);
    let lines = text::text_lines(content);
    let state = read_lines(v.marks.state, index, lines, lines.len() as int);
    cull::CullView {
        marks: marks::MarksView { state, ..v.marks },
        look: cull::Look { dirty: !(state =~= Map::<usize, ImgState>::empty()), ..v.look },
        ..v
    }
}

fn copy_paths(metas: &Vec<FileMeta>) -> (r: Vec<String>)
    ensures
        strings(r@) == paths_of(metas@),
{
    let n: usize = metas.len();
    let mut out: Vec<String> = Vec::new();
    let mut i: usize = 0;
    while i < n
        invariant
            i <= n == metas@.len(),
            out@.len() == i,
            forall|j: int| 0 <= j < i ==> (#[trigger] out@[j])@ == metas@[j].path@,
        decreases n - i,
    {
        out.push(text::copy_of(metas[i].path.as_str()));
        i += 1;
    }
    assert(strings(out@) =~= paths_of(metas@));
    out
}

fn letter_flag(s: &Vec<char>) -> (r: Flag)
    ensures
        r == flag_lettered(s@),
{
    if s.len() == 1 && s[0] == 'P' {
        assert(s@ =~= seq!['P']);
        Flag::Picked
    } else if s.len() == 1 && s[0] == 'X' {
        assert(s@ =~= seq!['X']);
        Flag::Rejected
    } else {
        Flag::Unrated
    }
}

fn read_rating(s: &Vec<char>) -> (r: u8)
    ensures
        r == rating_written(s@),
{
    proof {
        if let Some(v) = text::unsigned_value(s@) {
            text::lemma_digits_nonneg(
                if s@[0] == '+' {
                    s@.drop_first()
                } else {
                    s@
                },
            );
        }
    }
    match text::parse_unsigned(s.as_slice(), 255) {
        Some(v) => v as u8,
        None => 0,
    }
}

impl Cull {
    /// Takes up a session from the older, tab-separated record (absolute
    /// paths). It is rewritten in today's form with the next save.
    pub fn migrate_session(&mut self, content: &str)
        requires
            old(self)@.wf(),
        ensures
            final(self)@ == migrated(old(self)@, content@),
            final(self)@.wf(),
    {
        let paths = copy_paths(&self.metas);
        assert(paths@.len() == strings(paths@).len());
        let index = index_names(&self.images, &paths);
        let chars = text::chars_of(content);
        let lines = text::lines(chars.as_slice());
        let n: usize = lines.len();
        let ghost all = text::text_lines(content@);
        assert(all.len() == n);
        let ghost v = self@;
        let mut i: usize = 0;
        while i < n
            invariant
                i <= n == lines@.len(),
                text::char_views(lines@) == all,
                self@ == (cull::CullView {
                    marks: marks::MarksView {
                        state: read_lines(v.marks.state, index@, all, i as int),
                        ..v.marks
                    },
                    ..v
                }),
                v.wf(),
                marks::no_blanks(self@.marks.state),
            decreases n - i,
        {
            let fields = text::split_at(lines[i].as_slice(), '\t');
            let ghost parts = text::split(all[i as int], '\t');
            assert(all[i as int] == lines@[i as int]@);
            assert(text::char_views(fields@) == parts);
            assert(parts.len() == fields@.len());
            if fields.len() >= 3 {
                assert(parts[0] == fields@[0]@ && parts[1] == fields@[1]@ && parts[2]
                    == fields@[2]@);
                let name = text::string_of(fields[0].as_slice());
                let st = ImgState {
                    flag: letter_flag(&fields[1]),
                    rating: read_rating(&fields[2]),
                };
                self.put_line(&index, name.as_str(), st);
            }
            i += 1;
        }
        self.look.dirty = !self.marks.is_empty();
    }
}

/// Whether no two files are called the same.
pub open spec fn distinct(names: Seq<Seq<char>>) -> bool {
    forall|i: int, j: int|
        0 <= i < names.len() && 0 <= j < names.len() && #[trigger] names[i] == #[trigger] names[j]
            ==> i == j
}

/// Whether `id` is one of the pictures.
pub open spec fn is_picture(images: Seq<LogicalImage>, id: usize) -> bool {
    exists|i: int| 0 <= i < images.len() && (#[trigger] images[i]).lead() == id
}

proof fn lemma_index(images: Seq<LogicalImage>, names: Seq<Seq<char>>, k: int)
    requires
        0 <= k <= images.len(),
        burst::valid_images(images, names.len() as int),
        distinct(names),
    ensures
        forall|i: int|
            0 <= i < k ==> {
                let id = (#[trigger] images[i]).lead();
                name_index(images, names, k).dom().contains(names[id as int]) && name_index(
                    images,
                    names,
                    k,
                )[names[id as int]] == id
            },
    decreases k,
{
    if k > 0 {
        lemma_index(images, names, k - 1);
        assert(images[k - 1].wf());
        assert forall|i: int| 0 <= i < k implies {
            let id = (#[trigger] images[i]).lead();
            name_index(images, names, k).dom().contains(names[id as int]) && name_index(
                images,
                names,
                k,
            )[names[id as int]] == id
        } by {
            assert(images[i].wf());
        }
    }
}

proof fn lemma_read_prefix(
    state: Map<usize, ImgState>,
    index: Map<Seq<char>, usize>,
    a: Seq<ImageView>,
    b: Seq<ImageView>,
    k: int,
)
    requires
        0 <= k <= a.len(),
        k <= b.len(),
        forall|i: int| 0 <= i < k ==> a[i] == b[i],
    ensures
        read_images(state, index, a, k) == read_images(state, index, b, k),
    decreases k,
{
    if k > 0 {
        lemma_read_prefix(state, index, a, b, k - 1);
    }
}

proof fn lemma_read_saved(
    state: Map<usize, ImgState>,
    names: Seq<Seq<char>>,
    index: Map<Seq<char>, usize>,
    k: int,
)
    requires
        0 <= k <= names.len() <= usize::MAX,
        marks::no_blanks(state),
        forall|id: usize|
            #[trigger] state.dom().contains(id) && id < names.len() ==> index.dom().contains(
                names[id as int],
            ) && index[names[id as int]] == id,
    ensures
        ({
            let list = saved_images(state, names, k);
            let got = read_images(Map::empty(), index, list, list.len() as int);
            forall|id: usize|
                #![trigger got.dom().contains(id)]
                (got.dom().contains(id) <==> state.dom().contains(id) && id < k)
                    && (got.dom().contains(id) ==> got[id] == state[id])
        }),
    decreases k,
{
    if k > 0 {
        lemma_read_saved(state, names, index, k - 1);
        let id = (k - 1) as usize;
        let rest = saved_images(state, names, k - 1);
        let list = saved_images(state, names, k);
        if state.dom().contains(id) {
            lemma_read_prefix(Map::empty(), index, list, rest, rest.len() as int);
            flags_read_back(state[id].flag);
            let got = read_images(Map::empty(), index, rest, rest.len() as int);
            let now = read_images(Map::empty(), index, list, list.len() as int);
            assert(now == got.insert(id, state[id]));
        }
    }
}

/// Reopening a folder resumes where the session was left: what is read from a
/// record is what was decided when it was written.
pub proof fn reopening_resumes(v: cull::CullView, fresh: cull::CullView, names: Seq<Seq<char>>)
    requires
        v.wf(),
        fresh.images == v.images,
        fresh.marks.state == Map::<usize, ImgState>::empty(),
        names.len() == v.metas.len() <= usize::MAX,
        distinct(names),
        forall|id: usize|
            #[trigger] v.marks.state.dom().contains(id) ==> is_picture(v.images, id),
    ensures
        resumed(fresh, names, saved(v, names)).marks.state == v.marks.state,
{
    let state = v.marks.state;
    let n = v.images.len() as int;
    let index = name_index(v.images, names, n);
    lemma_index(v.images, names, n);
    assert forall|id: usize| #[trigger]
        state.dom().contains(id) && id < names.len() implies index.dom().contains(names[id as int])
        && index[names[id as int]] == id by {
        let i = choose|i: int| 0 <= i < n && (#[trigger] v.images[i]).lead() == id;
        assert(v.images[i].lead() == id);
    }
    lemma_read_saved(state, names, index, names.len() as int);
    let got = resumed(fresh, names, saved(v, names)).marks.state;
    assert forall|id: usize| got.dom().contains(id) == state.dom().contains(id) by {
        if state.dom().contains(id) {
            let i = choose|i: int| 0 <= i < n && (#[trigger] v.images[i]).lead() == id;
            assert(v.images[i].wf() && v.images[i].exists_in(v.metas.len() as int));
        }
    }
    assert(got =~= state);
}

proof fn lemma_seed_entries(seeds: Seq<Pin>, names: Seq<Seq<char>>, k: int)
    requires
        0 <= k <= seeds.len(),
        forall|i: int| 0 <= i < seeds.len() ==> (#[trigger] seeds[i]).frame < names.len(),
    ensures
        saved_seeds(seeds, names, k).len() == k,
        forall|i: int|
            0 <= i < k ==> #[trigger] saved_seeds(seeds, names, k)[i] == (PinView {
                name: names[seeds[i].frame as int],
                x: seeds[i].x,
                y: seeds[i].y,
            }),
    decreases k,
{
    if k > 0 {
        lemma_seed_entries(seeds, names, k - 1);
    }
}

proof fn lemma_read_pins(
    pending: Map<usize, (Real32, Real32)>,
    index: Map<Seq<char>, usize>,
    pins: Seq<PinView>,
    k: int,
)
    requires
        0 <= k <= pins.len(),
        forall|i: int| 0 <= i < pins.len() ==> index.dom().contains((#[trigger] pins[i]).name),
        forall|i: int, j: int|
            0 <= i < pins.len() && 0 <= j < pins.len() && index[(#[trigger] pins[i]).name]
                == index[(#[trigger] pins[j]).name] ==> i == j,
    ensures
        forall|i: int|
            0 <= i < k ==> {
                let got = read_pins(pending, index, pins, k);
                let id = index[(#[trigger] pins[i]).name];
                got.dom().contains(id) && got[id] == (pins[i].x, pins[i].y)
            },
    decreases k,
{
    if k > 0 {
        lemma_read_pins(pending, index, pins, k - 1);
    }
}

proof fn lemma_waiting(pending: Map<usize, (Real32, Real32)>, seeds: Seq<Pin>, k: int)
    requires
        0 <= k <= usize::MAX,
    ensures
        ({
            let w = waiting_pins(pending, seeds, k);
            &&& forall|i: int|
                0 <= i < w.len() ==> {
                    let p = #[trigger] w[i];
                    &&& p.frame < k && pending.dom().contains(p.frame)
                    &&& pending[p.frame] == (p.x, p.y) && !pipeline::is_pinned(seeds, p.frame)
                }
            &&& forall|i: int, j: int|
                0 <= i < j < w.len() ==> (#[trigger] w[i]).frame < (#[trigger] w[j]).frame
            &&& forall|id: usize|
                id < k && #[trigger] pending.dom().contains(id) && !pipeline::is_pinned(seeds, id)
                    ==> exists|i: int| 0 <= i < w.len() && (#[trigger] w[i]).frame == id
        }),
    decreases k,
{
    if k > 0 {
        lemma_waiting(pending, seeds, k - 1);
        let rest = waiting_pins(pending, seeds, k - 1);
        let w = waiting_pins(pending, seeds, k);
        assert forall|id: usize|
            id < k && #[trigger] pending.dom().contains(id) && !pipeline::is_pinned(
                seeds,
                id,
            ) implies exists|i: int| 0 <= i < w.len() && (#[trigger] w[i]).frame == id by {
            if id < k - 1 {
                let i = choose|i: int| 0 <= i < rest.len() && (#[trigger] rest[i]).frame == id;
                assert(w[i] == rest[i]);
            } else {
                assert(w[rest.len() as int].frame == id);
            }
        }
    }
}

/// Whether the pins of a session are on pictures, and those of its bursts on
/// different ones.
pub open spec fn pins_in_place(v: cull::CullView) -> bool {
    let seeds = all_seeds(v, v.bursts.len() as int);
    &&& forall|k: int| 0 <= k < seeds.len() ==> is_picture(v.images, (#[trigger] seeds[k]).frame)
    &&& forall|k: int, m: int|
        0 <= k < seeds.len() && 0 <= m < seeds.len() && (#[trigger] seeds[k]).frame == (
        #[trigger] seeds[m]).frame ==> k == m
    &&& forall|id: usize| #[trigger] v.pending.dom().contains(id) ==> is_picture(v.images, id)
}

proof fn lemma_pins_come_back(
    v: cull::CullView,
    fresh: cull::CullView,
    names: Seq<Seq<char>>,
    i: int,
)
    requires
        v.wf(),
        fresh.images == v.images,
        names.len() == v.metas.len() <= usize::MAX,
        distinct(names),
        pins_in_place(v),
        0 <= i < all_pins(v, names.len() as int).len(),
    ensures
        ({
            let pin = all_pins(v, names.len() as int)[i];
            let pending = resumed(fresh, names, saved(v, names)).pending;
            pending.dom().contains(pin.frame) && pending[pin.frame] == (pin.x, pin.y)
        }),
{
    let n = v.images.len() as int;
    let index = name_index(v.images, names, n);
    let seeds = all_seeds(v, v.bursts.len() as int);
    let waiting = waiting_pins(v.pending, seeds, names.len() as int);
    let all = all_pins(v, names.len() as int);
    let m = all.len() as int;
    let pins = saved_seeds(all, names, m);
    lemma_index(v.images, names, n);
    lemma_waiting(v.pending, seeds, names.len() as int);
    assert forall|k: int| 0 <= k < m implies ({
        let id = (#[trigger] all[k]).frame;
        id < names.len() && index.dom().contains(names[id as int]) && index[names[id as int]] == id
    }) by {
        let id = all[k].frame;
        if k < seeds.len() {
            assert(all[k] == seeds[k]);
        } else {
            assert(all[k] == waiting[k - seeds.len()]);
            assert(v.pending.dom().contains(id));
        }
        assert(is_picture(v.images, id));
        let q = choose|q: int| 0 <= q < n && (#[trigger] v.images[q]).lead() == id;
        assert(v.images[q].wf() && v.images[q].exists_in(v.metas.len() as int));
    }
    lemma_seed_entries(all, names, m);
    assert forall|k: int| 0 <= k < m implies index.dom().contains((#[trigger] pins[k]).name)
        && index[pins[k].name] == all[k].frame by {}
    assert forall|k: int, l: int|
        0 <= k < m && 0 <= l < m && (#[trigger] all[k]).frame == (#[trigger] all[l]).frame
        implies k == l by {
        let c = seeds.len() as int;
        if k < c && l < c {
            assert(all[k] == seeds[k] && all[l] == seeds[l]);
        } else if k < c {
            assert(all[k] == seeds[k] && all[l] == waiting[l - c]);
        } else if l < c {
            assert(all[l] == seeds[l] && all[k] == waiting[k - c]);
        } else {
            assert(all[k] == waiting[k - c] && all[l] == waiting[l - c]);
        }
    }
    assert forall|k: int, l: int|
        0 <= k < pins.len() && 0 <= l < pins.len() && index[(#[trigger] pins[k]).name] == index[(
        #[trigger] pins[l]).name] implies k == l by {
        assert(all[k].frame == all[l].frame);
    }
    lemma_read_pins(fresh.pending, index, pins, m);
    assert(index[pins[i].name] == all[i].frame);
}

/// Reopening a folder brings the pins back: each is pending on its frame, to
/// be applied when the burst is opened.
pub proof fn pins_come_back(
    v: cull::CullView,
    fresh: cull::CullView,
    names: Seq<Seq<char>>,
    i: int,
)
    requires
        v.wf(),
        fresh.images == v.images,
        names.len() == v.metas.len() <= usize::MAX,
        distinct(names),
        pins_in_place(v),
        0 <= i < all_seeds(v, v.bursts.len() as int).len(),
    ensures
        ({
            let pin = all_seeds(v, v.bursts.len() as int)[i];
            let pending = resumed(fresh, names, saved(v, names)).pending;
            pending.dom().contains(pin.frame) && pending[pin.frame] == (pin.x, pin.y)
        }),
{
    lemma_pins_come_back(v, fresh, names, i);
    assert(all_pins(v, names.len() as int)[i] == all_seeds(v, v.bursts.len() as int)[i]);
}

/// A pin that still waits for its burst to be opened is not lost when the
/// session is saved and taken up again, unless another pin was set in its
/// place.
pub proof fn waiting_pins_come_back(
    v: cull::CullView,
    fresh: cull::CullView,
    names: Seq<Seq<char>>,
    id: usize,
)
    requires
        v.wf(),
        fresh.images == v.images,
        names.len() == v.metas.len() <= usize::MAX,
        distinct(names),
        pins_in_place(v),
        v.pending.dom().contains(id),
        !pipeline::is_pinned(all_seeds(v, v.bursts.len() as int), id),
    ensures
        ({
            let pending = resumed(fresh, names, saved(v, names)).pending;
            pending.dom().contains(id) && pending[id] == v.pending[id]
        }),
{
    let seeds = all_seeds(v, v.bursts.len() as int);
    let w = waiting_pins(v.pending, seeds, names.len() as int);
    lemma_waiting(v.pending, seeds, names.len() as int);
    assert(is_picture(v.images, id));
    let q = choose|q: int| 0 <= q < v.images.len() && (#[trigger] v.images[q]).lead() == id;
    assert(v.images[q].wf() && v.images[q].exists_in(v.metas.len() as int));
    let i = choose|i: int| 0 <= i < w.len() && (#[trigger] w[i]).frame == id;
    assert(all_pins(v, names.len() as int)[seeds.len() + i] == w[i]);
    lemma_pins_come_back(v, fresh, names, seeds.len() + i);
}

proof fn lemma_name_index(images: Seq<LogicalImage>, names: Seq<Seq<char>>, k: int, i: int)
    requires
        0 <= k <= images.len(),
        0 <= i < images.len(),
        forall|j: int|
            0 <= j < images.len() && names[(#[trigger] images[j]).lead() as int]
                == names[images[i].lead() as int] ==> images[j].lead() == images[i].lead(),
    ensures
        i < k ==> name_index(images, names, k).dom().contains(names[images[i].lead() as int]),
        name_index(images, names, k).dom().contains(names[images[i].lead() as int])
            ==> name_index(images, names, k)[names[images[i].lead() as int]] == images[i].lead(),
    decreases k,
{
    if k > 0 {
        lemma_name_index(images, names, k - 1, i);
        assert(names[images[k - 1].lead() as int] == names[images[i].lead() as int]
            ==> images[k - 1].lead() == images[i].lead());
    }
}

/// A line of an older record, path, letter and rating with tabs between them,
/// marks the picture of that path as it says: `P` is a pick, `X` a rejection,
/// anything else neither. Other pictures stay as they are.
pub proof fn older_records_are_taken_up(
    v: cull::CullView,
    i: int,
    letter: char,
    rating: u8,
    other: usize,
)
    requires
        0 <= i < v.images.len(),
        ({
            let paths = paths_of(v.metas);
            let path = paths[v.images[i].lead() as int];
            &&& !path.contains('\t') && !path.contains('\n')
            &&& forall|j: int|
                0 <= j < v.images.len() && paths[(#[trigger] v.images[j]).lead() as int] == path
                    ==> v.images[j].lead() == v.images[i].lead()
        }),
        letter != '\t' && letter != '\n',
        letter == 'P' || letter == 'X' || rating > 0,
    ensures
        ({
            let id = v.images[i].lead();
            let line = paths_of(v.metas)[id as int] + seq!['\t'] + (seq![letter] + seq!['\t']
                + text::decimal(rating as int));
            let none = Seq::<char>::empty();
            let t = migrated(v, line + seq!['\n'] + none);
            &&& t.state(id).rating == rating
            &&& letter == 'P' ==> t.state(id).flag == Flag::Picked
            &&& letter == 'X' ==> t.state(id).flag == Flag::Rejected
            &&& letter != 'P' && letter != 'X' ==> t.state(id).flag == Flag::Unrated
            &&& other != id ==> t.state(other) == v.state(other)
            &&& t.look.dirty
            &&& t.images == v.images && t.bursts == v.bursts
        }),
{
    let id = v.images[i].lead();
    let paths = paths_of(v.metas);
    let path = paths[id as int];
    let d = text::decimal(rating as int);
    let tail = seq![letter] + seq!['\t'] + d;
    let line = path + seq!['\t'] + tail;
    let none = Seq::<char>::empty();
    let content = line + seq!['\n'] + none;
    text::numbers_read_as_written(rating as int);
    assert forall|j: int| 0 <= j < d.len() implies d[j] != '\t' && d[j] != '\n' by {
        assert(text::is_digit(d[j]));
    }
    assert(!line.contains('\n')) by {
        if line.contains('\n') {
            let j = choose|j: int| 0 <= j < line.len() && line[j] == '\n';
            if j < path.len() {
                assert(path[j] == '\n');
            } else if j >= path.len() + 3 {
                assert(d[j - path.len() - 3] == '\n');
            }
        }
    }
    assert(!d.contains('\t'));
    assert(!seq![letter].contains('\t'));
    text::separators_divide_text(path, tail, '\t');
    text::separators_divide_text(seq![letter], d, '\t');
    text::separators_divide_text(d, none, '\t');
    let fields = text::split(line, '\t');
    assert(fields =~= seq![path, seq![letter], d]);
    text::lines_end_at_line_feeds(line, none);
    text::lines_end_at_line_feeds(none, none);
    assert(line.last() == d.last());
    assert(text::is_digit(d[d.len() - 1]));
    let lines = text::text_lines(content);
    assert(lines =~= seq![line]);
    lemma_name_index(v.images, paths, v.images.len() as int, i);
    let index = name_index(v.images, paths, v.images.len() as int);
    reveal_with_fuel(read_lines, 2);
    let st = ImgState { flag: flag_lettered(seq![letter]), rating };
    assert(seq![letter] == seq!['P'] <==> letter == 'P') by {
        assert(seq![letter][0] == letter && seq!['P'][0] == 'P');
    }
    assert(seq![letter] == seq!['X'] <==> letter == 'X') by {
        assert(seq![letter][0] == letter && seq!['X'][0] == 'X');
    }
    let after = read_lines(v.marks.state, index, lines, 1);
    assert(after == v.marks.state.insert(id, st));
    assert(after.dom().contains(id));
}

/// A flag is written as the word "pick" or "reject" or not at all, and no
/// other text is read as one.
pub proof fn flags_are_two_words(s: Seq<char>)
    ensures
        flag_written(s) == Flag::Picked <==> s == seq!['p', 'i', 'c', 'k'],
        flag_written(s) == Flag::Rejected <==> s == seq!['r', 'e', 'j', 'e', 'c', 't'],
        flag_text(Flag::Picked) == seq!['p', 'i', 'c', 'k'],
        flag_text(Flag::Rejected) == seq!['r', 'e', 'j', 'e', 'c', 't'],
        flag_text(Flag::Unrated).len() == 0,
{
    reveal_strlit("pick");
    reveal_strlit("reject");
    reveal_strlit("");
    assert("pick"@ =~= seq!['p', 'i', 'c', 'k']);
    assert("reject"@ =~= seq!['r', 'e', 'j', 'e', 'c', 't']);
    assert(s == "pick"@ ==> s.len() == 4);
    assert(s == "reject"@ ==> s.len() == 6);
}

/// The record lists every file that something was decided about, with what was
/// decided, and no other.
pub proof fn records_list_what_was_decided(
    state: Map<usize, ImgState>,
    names: Seq<Seq<char>>,
    k: int,
    e: ImageView,
)
    requires
        0 <= k <= names.len() <= usize::MAX,
    ensures
        saved_images(state, names, k).contains(e) <==> exists|id: usize|
            id < k && #[trigger] state.dom().contains(id) && e.name == names[id as int] && e.flag
                == flag_text(state[id].flag) && e.rating == state[id].rating,
    decreases k,
{
    if k > 0 {
        records_list_what_was_decided(state, names, k - 1, e);
        let (rest, all) = (saved_images(state, names, k - 1), saved_images(state, names, k));
        let last = (k - 1) as usize;
        if rest.contains(e) {
            let j = choose|j: int| 0 <= j < rest.len() && rest[j] == e;
            assert(all[j] == e);
        }
        if state.dom().contains(last) {
            let new = ImageView {
                name: names[k - 1],
                flag: flag_text(state[last].flag),
                rating: state[last].rating,
            };
            assert(all[all.len() - 1] == new);
            if all.contains(e) {
                let j = choose|j: int| 0 <= j < all.len() && all[j] == e;
                if j < rest.len() {
                    assert(rest[j] == e);
                    assert(rest.contains(e));
                }
            }
            if e.name == names[last as int] && e.flag == flag_text(state[last].flag) && e.rating
                == state[last].rating {
                assert(e =~= new);
            }
        }
    }
}

} // verus!
