//! What the user has decided about the pictures: flags and ratings, and how
//! to take the last decision back.

use vstd::prelude::*;
use std::collections::HashMap;

verus! {

#[derive(Debug, Clone, Copy, PartialEq, Eq, Structural)]
pub enum Flag {
    Unrated,
    Picked,
    Rejected,
}

impl Default for Flag {
    fn default() -> (r: Flag)
        ensures
            r == Flag::Unrated,
    {
        Flag::Unrated
    }
}

#[derive(Debug, Clone, Copy, PartialEq, Eq, Structural)]
pub struct ImgState {
    pub flag: Flag,
    pub rating: u8,
}

/// Nothing decided yet.
pub open spec fn blank() -> ImgState {
    ImgState { flag: Flag::Unrated, rating: 0 }
}

impl Default for ImgState {
    fn default() -> (r: ImgState)
        ensures
            r == blank(),
    {
        ImgState { flag: Flag::Unrated, rating: 0 }
    }
}

/// What has been decided about picture `id`.
pub open spec fn state_of(m: Map<usize, ImgState>, id: usize) -> ImgState {
    if m.dom().contains(id) {
        m[id]
    } else {
        blank()
    }
}

/// `m` with a decision about `id`; only what differs from nothing is kept.
pub open spec fn with_state(m: Map<usize, ImgState>, id: usize, st: ImgState) -> Map<usize, ImgState> {
    if st == blank() {
        m.remove(id)
    } else {
        m.insert(id, st)
    }
}

/// `m` with the first `k` decisions of `changes`.
pub open spec fn with_states(
    m: Map<usize, ImgState>,
    changes: Seq<(usize, ImgState)>,
    k: int,
) -> Map<usize, ImgState>
    decreases k,
{
    if k <= 0 {
        m
    } else {
        with_state(with_states(m, changes, k - 1), changes[k - 1].0, changes[k - 1].1)
    }
}

/// What was decided, before `changes`, about the pictures that they concern.
pub open spec fn states_before(
    m: Map<usize, ImgState>,
    changes: Seq<(usize, ImgState)>,
) -> Seq<(usize, ImgState)> {
    Seq::new(changes.len(), |i: int| (changes[i].0, state_of(m, changes[i].0)))
}

/// Whether only real decisions are kept.
pub open spec fn no_blanks(m: Map<usize, ImgState>) -> bool {
    forall|id: usize| #[trigger] m.dom().contains(id) ==> m[id] != blank()
}

/// The value of `Marks`.
#[verifier::ext_equal]
pub struct MarksView {
    /// Per picture.
    pub state: Map<usize, ImgState>,
    /// For each change that can be taken back, what was there before it; the
    /// latest last.
    pub undo: Seq<Seq<(usize, ImgState)>>,
}

/// The marks after a change.
pub open spec fn applied(v: MarksView, changes: Seq<(usize, ImgState)>) -> MarksView {
    MarksView {
        state: with_states(v.state, changes, changes.len() as int),
        undo: v.undo.push(states_before(v.state, changes)),
    }
}

/// The marks after the last change is taken back.
pub open spec fn undone(v: MarksView) -> MarksView {
    if v.undo.len() == 0 {
        v
    } else {
        MarksView {
            state: with_states(v.state, v.undo.last(), v.undo.last().len() as int),
            undo: v.undo.drop_last(),
        }
    }
}

/// Flags and ratings by picture, and the changes that can be taken back.
pub struct Marks {
    pub state: HashMap<usize, ImgState>,
    pub undo: Vec<Vec<(usize, ImgState)>>,
}

impl View for Marks {
    type V = MarksView;

    open spec fn view(&self) -> MarksView {
        MarksView {
            state: self.state@,
            undo: Seq::new(self.undo@.len(), |i: int| self.undo@[i]@),
        }
    }
}

impl Marks {
    /// Nothing decided, nothing to take back.
    pub fn new() -> (r: Marks)
        ensures
            r@ == (MarksView { state: Map::empty(), undo: Seq::empty() }),
    {
        broadcast use vstd::std_specs::hash::group_hash_axioms;

        let r = Marks { state: HashMap::new(), undo: Vec::new() };
        assert(r@ =~= MarksView { state: Map::empty(), undo: Seq::empty() });
        r
    }

    /// What has been decided about picture `id`.
    pub fn img_state(&self, id: usize) -> (r: ImgState)
        ensures
            r == state_of(self@.state, id),
    {
        broadcast use vstd::std_specs::hash::group_hash_axioms;

        match self.state.get(&id) {
            Some(st) => *st,
            None => ImgState::default(),
        }
    }

    /// Whether nothing has been decided.
    pub fn is_empty(&self) -> (r: bool)
        ensures
            r == (self@.state =~= Map::<usize, ImgState>::empty()),
    {
        broadcast use vstd::std_specs::hash::group_hash_axioms;

        let r = self.state.is_empty();
        proof {
            if r {
                assert(self.state@.dom() =~= Set::empty());
            }
        }
        r
    }

    fn set(&mut self, id: usize, st: ImgState)
        ensures
            final(self)@ == (MarksView { state: with_state(old(self)@.state, id, st), ..old(self)@ }),
    {
        broadcast use vstd::std_specs::hash::group_hash_axioms;

        if st == ImgState::default() {
            self.state.remove(&id);
        } else {
            self.state.insert(id, st);
        }
        assert(self@.state =~= with_state(old(self)@.state, id, st));
    }

    fn set_all(&mut self, changes: &Vec<(usize, ImgState)>)
        ensures
            final(self)@ == (MarksView {
                state: with_states(old(self)@.state, changes@, changes@.len() as int),
                ..old(self)@
            }),
    {
        let n: usize = changes.len();
        let mut i: usize = 0;
        while i < n
            invariant
                i <= n == changes@.len(),
                self@ == (MarksView {
                    state: with_states(old(self)@.state, changes@, i as int),
                    ..old(self)@
                }),
            decreases n - i,
        {
            let (id, st) = changes[i];
            self.set(id, st);
            i += 1;
        }
    }

    /// Makes a change that can be taken back.
    pub fn apply(&mut self, changes: Vec<(usize, ImgState)>)
        ensures
            final(self)@ == applied(old(self)@, changes@),
    {
        let n: usize = changes.len();
        let mut prev: Vec<(usize, ImgState)> = Vec::new();
        let mut i: usize = 0;
        while i < n
            invariant
                i <= n == changes@.len(),
                prev@.len() == i,
                forall|j: int| 0 <= j < i ==> prev@[j] == states_before(self@.state, changes@)[j],
            decreases n - i,
        {
            let id: usize = changes[i].0;
            prev.push((id, self.img_state(id)));
            i += 1;
        }
        assert(prev@ =~= states_before(self@.state, changes@));
        let ghost before = self@;
        self.undo.push(prev);
        assert(self@.undo =~= before.undo.push(prev@));
        self.set_all(&changes);
    }

    /// Takes the last change back; says whether there was one.
    pub fn undo_last(&mut self) -> (r: bool)
        ensures
            r == (old(self)@.undo.len() > 0),
            final(self)@ == undone(old(self)@),
    {
        match self.undo.pop() {
            Some(prev) => {
                assert(self@.undo =~= old(self)@.undo.drop_last());
                self.set_all(&prev);
                true
            },
            None => false,
        }
    }
}

proof fn lemma_with_states(m: Map<usize, ImgState>, changes: Seq<(usize, ImgState)>, k: int)
    requires
        0 <= k <= changes.len(),
        no_blanks(m),
    ensures
        no_blanks(with_states(m, changes, k)),
        forall|id: usize|
            (forall|i: int| 0 <= i < k ==> changes[i].0 != id) ==> #[trigger] state_of(
                with_states(m, changes, k),
                id,
            ) == state_of(m, id),
    decreases k,
{
    if k > 0 {
        lemma_with_states(m, changes, k - 1);
        let rest = with_states(m, changes, k - 1);
        assert forall|id: usize|
            (forall|i: int| 0 <= i < k ==> changes[i].0 != id) implies #[trigger] state_of(
            with_states(m, changes, k),
            id,
        ) == state_of(m, id) by {
            assert(changes[k - 1].0 != id);
            assert(state_of(rest, id) == state_of(m, id));
        }
    }
}

proof fn lemma_restored(
    m: Map<usize, ImgState>,
    m0: Map<usize, ImgState>,
    changes: Seq<(usize, ImgState)>,
    k: int,
)
    requires
        0 <= k <= changes.len(),
    ensures
        forall|i: int|
            0 <= i < k ==> state_of(
                with_states(m, states_before(m0, changes), k),
                (#[trigger] changes[i]).0,
            ) == state_of(m0, changes[i].0),
    decreases k,
{
    if k > 0 {
        lemma_restored(m, m0, changes, k - 1);
        assert(states_before(m0, changes)[k - 1] == (
            changes[k - 1].0,
            state_of(m0, changes[k - 1].0),
        ));
    }
}

/// Taking a change back restores everything as it was before the change, the
/// changes before it included.
pub proof fn undo_takes_back(v: MarksView, changes: Seq<(usize, ImgState)>)
    requires
        no_blanks(v.state),
    ensures
        undone(applied(v, changes)) == v,
{
    let n = changes.len() as int;
    let before = states_before(v.state, changes);
    let there = with_states(v.state, changes, n);
    let back = with_states(there, before, n);
    lemma_with_states(v.state, changes, n);
    lemma_with_states(there, before, n);
    lemma_restored(there, v.state, changes, n);
    assert forall|id: usize| state_of(back, id) == state_of(v.state, id) by {
        if exists|i: int| 0 <= i < n && changes[i].0 == id {
            let i = choose|i: int| 0 <= i < n && changes[i].0 == id;
            assert(state_of(back, changes[i].0) == state_of(v.state, changes[i].0));
        } else {
            assert(forall|i: int| 0 <= i < n ==> before[i].0 == changes[i].0);
            assert(state_of(back, id) == state_of(there, id));
        }
    }
    assert forall|id: usize| back.dom().contains(id) == v.state.dom().contains(id) by {
        assert(state_of(back, id) == state_of(v.state, id));
    }
    assert(back =~= v.state) by {
        assert forall|id: usize| back.dom().contains(id) implies back[id] == v.state[id] by {
            assert(state_of(back, id) == state_of(v.state, id));
        }
    }
    assert(applied(v, changes).undo.drop_last() =~= v.undo);
}

/// A change keeps real decisions only.
pub proof fn changes_leave_no_blanks(v: MarksView, changes: Seq<(usize, ImgState)>)
    requires
        no_blanks(v.state),
    ensures
        no_blanks(applied(v, changes).state),
        no_blanks(undone(v).state),
{
    lemma_with_states(v.state, changes, changes.len() as int);
    if v.undo.len() > 0 {
        lemma_with_states(v.state, v.undo.last(), v.undo.last().len() as int);
    }
}

/// What is decided last about a picture is what is then read of it.
pub proof fn the_last_decision_holds(v: MarksView, changes: Seq<(usize, ImgState)>, i: int)
    requires
        0 <= i < changes.len(),
        forall|j: int| i < j < changes.len() ==> (#[trigger] changes[j]).0 != changes[i].0,
    ensures
        state_of(applied(v, changes).state, changes[i].0) == changes[i].1,
{
    lemma_decided(v.state, changes, i, changes.len() as int);
}

proof fn lemma_decided(m: Map<usize, ImgState>, changes: Seq<(usize, ImgState)>, i: int, k: int)
    requires
        0 <= i < k <= changes.len(),
        forall|j: int| i < j < changes.len() ==> (#[trigger] changes[j]).0 != changes[i].0,
    ensures
        state_of(with_states(m, changes, k), changes[i].0) == changes[i].1,
    decreases k,
{
    if i < k - 1 {
        lemma_decided(m, changes, i, k - 1);
        assert(changes[k - 1].0 != changes[i].0);
    }
}

/// A change leaves every picture alone that it does not name.
pub proof fn unnamed_pictures_stay(v: MarksView, changes: Seq<(usize, ImgState)>, id: usize)
    requires
        forall|j: int| 0 <= j < changes.len() ==> (#[trigger] changes[j]).0 != id,
    ensures
        state_of(applied(v, changes).state, id) == state_of(v.state, id),
{
    lemma_unnamed(v.state, changes, id, changes.len() as int);
}

proof fn lemma_unnamed(
    m: Map<usize, ImgState>,
    changes: Seq<(usize, ImgState)>,
    id: usize,
    k: int,
)
    requires
        0 <= k <= changes.len(),
        forall|j: int| 0 <= j < changes.len() ==> (#[trigger] changes[j]).0 != id,
    ensures
        state_of(with_states(m, changes, k), id) == state_of(m, id),
    decreases k,
{
    if k > 0 {
        lemma_unnamed(m, changes, id, k - 1);
        assert(changes[k - 1].0 != id);
    }
}

/// A picture that nothing was decided about is neither picked nor rejected,
/// and has no stars.
pub proof fn undecided_pictures_are_unrated(m: Map<usize, ImgState>, id: usize)
    requires
        !m.dom().contains(id),
    ensures
        state_of(m, id).flag == Flag::Unrated,
        state_of(m, id).rating == 0,
{
}

} // verus!
