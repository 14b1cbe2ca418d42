//! Segmentation of the pupil: the darkest compact blob near the centre of a
//! search window. A region is grown from a dark seed at rising thresholds;
//! the pupil is what exists before the first big jump of its area. Distances
//! from the centre and the shape of the blob are measured by the caller.

use vstd::prelude::*;
use vstd::arithmetic::div_mod::*;
use crate::decode::Luma;
use crate::eye;
use crate::single::Real32;
use crate::score;
use crate::score::Rect;

verus! {

/// Smallest blob accepted as a pupil (radius 6 px).
pub const MIN_AREA: usize = 113;

/// Luma levels between thresholds.
pub const STEP: u32 = 4;

/// How much darker than the median of the window a seed has to be.
pub const MIN_CONTRAST: u32 = 12;

/// Smallest side of a search window.
pub const MIN_WINDOW: usize = 16;

/// Whether pixel `j` is a direct neighbour of pixel `i` (left, right, above
/// or below) in rows of `w`.
pub open spec fn adjacent(w: int, i: int, j: int) -> bool {
    ||| j == i + 1 && i % w + 1 < w
    ||| j == i - 1 && i % w > 0
    ||| j == i + w
    ||| j == i - w
}

/// Whether `p` is a walk over pixels of `open`, from one to a neighbour.
pub open spec fn is_walk(open: Seq<bool>, w: int, p: Seq<int>) -> bool {
    &&& p.len() > 0
    &&& forall|k: int| 0 <= k < p.len() ==> 0 <= #[trigger] p[k] < open.len() && open[p[k]]
    &&& forall|k: int| 0 <= k < p.len() - 1 ==> adjacent(w, #[trigger] p[k], p[k + 1])
}

/// Whether a walk over pixels of `open` leads from one of `from` to `i`.
pub open spec fn reached(open: Seq<bool>, w: int, from: Seq<bool>, i: int) -> bool {
    exists|p: Seq<int>|
        #![trigger is_walk(open, w, p)]
        is_walk(open, w, p) && from[p[0]] && p.last() == i
}

/// The pixels that walks over `open` from those of `from` lead to.
pub open spec fn flooded(open: Seq<bool>, w: int, from: Seq<bool>) -> Seq<bool> {
    Seq::new(open.len(), |i: int| reached(open, w, from, i))
}

/// A set that holds the start pixels and all open neighbours of its pixels
/// holds everything that is reached.
proof fn lemma_closed(open: Seq<bool>, w: int, from: Seq<bool>, s: Seq<bool>, p: Seq<int>, k: int)
    requires
        s.len() == open.len(),
        is_walk(open, w, p),
        from[p[0]],
        0 <= k < p.len(),
        forall|i: int| 0 <= i < open.len() && open[i] && from[i] ==> #[trigger] s[i],
        forall|i: int, j: int|
            0 <= i < open.len() && 0 <= j < open.len() && s[i] && open[j] && #[trigger] adjacent(
                w,
                i,
                j,
            ) ==> s[j],
    ensures
        s[p[k]],
    decreases k,
{
    if k > 0 {
        lemma_closed(open, w, from, s, p, k - 1);
        assert(adjacent(w, p[k - 1], p[k - 1 + 1]));
        assert(open[p[k]]);
    }
}

/// A walk can be continued to an open neighbour of where it ends.
proof fn lemma_extend(open: Seq<bool>, w: int, from: Seq<bool>, i: int, j: int)
    requires
        reached(open, w, from, i),
        0 <= j < open.len(),
        open[j],
        adjacent(w, i, j),
    ensures
        reached(open, w, from, j),
{
    let p = choose|p: Seq<int>|
        #![trigger is_walk(open, w, p)]
        is_walk(open, w, p) && from[p[0]] && p.last() == i;
    let q = p.push(j);
    assert forall|k: int| 0 <= k < q.len() implies 0 <= #[trigger] q[k] < open.len()
        && open[q[k]] by {
        if k < p.len() {
            assert(q[k] == p[k]);
        }
    }
    assert forall|k: int| 0 <= k < q.len() - 1 implies adjacent(w, #[trigger] q[k], q[k + 1]) by {
        assert(q[k] == p[k]);
        if k + 1 < p.len() {
            assert(q[k + 1] == p[k + 1]);
            assert(adjacent(w, p[k], p[k + 1]));
        }
    }
    assert(q[0] == p[0]);
    assert(is_walk(open, w, q));
}

/// A start pixel is reached.
proof fn lemma_start(open: Seq<bool>, w: int, from: Seq<bool>, i: int)
    requires
        0 <= i < open.len(),
        open[i],
        from[i],
    ensures
        reached(open, w, from, i),
{
    let p = seq![i];
    assert(is_walk(open, w, p));
    assert(p.last() == i);
}

/// Whether all open neighbours of `i` are marked.
pub open spec fn settled(open: Seq<bool>, w: int, marked: Seq<bool>, i: int) -> bool {
    forall|j: int|
        0 <= j < open.len() && open[j] && #[trigger] adjacent(w, i, j) ==> marked[j]
}

/// How many of `s` are still false.
pub open spec fn unmarked(s: Seq<bool>) -> int {
    s.len() - eye::count_true(s)
}

proof fn lemma_mark_counts(s: Seq<bool>, i: int)
    requires
        0 <= i < s.len(),
        !s[i],
    ensures
        eye::count_true(s.update(i, true)) == eye::count_true(s) + 1,
    decreases s.len(),
{
    if i == s.len() - 1 {
        assert(s.update(i, true).drop_last() =~= s.drop_last());
    } else {
        lemma_mark_counts(s.drop_last(), i);
        assert(s.update(i, true).drop_last() =~= s.drop_last().update(i, true));
    }
}

proof fn lemma_count_range(s: Seq<bool>)
    ensures
        0 <= eye::count_true(s) <= s.len(),
    decreases s.len(),
{
    if s.len() > 0 {
        lemma_count_range(s.drop_last());
    }
}

/// What visiting pixel `j` does: it is marked where it is open, and put on
/// the stack where it is newly marked.
pub open spec fn visited(
    open: Seq<bool>,
    marked0: Seq<bool>,
    stack0: Seq<usize>,
    marked: Seq<bool>,
    stack: Seq<usize>,
    j: int,
) -> bool {
    &&& marked.len() == open.len()
    &&& forall|k: int|
        0 <= k < open.len() ==> #[trigger] marked[k] == (marked0[k] || (k == j && open[k]))
    &&& if open[j] && !marked0[j] {
        stack == stack0.push(j as usize)
    } else {
        stack == stack0
    }
}

/// Marks pixel `j` and puts it on the stack, where it is open and new.
fn visit(open: &Vec<bool>, marked: &mut Vec<bool>, stack: &mut Vec<usize>, j: usize)
    requires
        j < open.len(),
        old(marked)@.len() == open@.len(),
    ensures
        visited(open@, old(marked)@, old(stack)@, final(marked)@, final(stack)@, j as int),
        unmarked(final(marked)@) + final(stack)@.len() == unmarked(old(marked)@) + old(
            stack,
        )@.len(),
{
    if open[j] && !marked[j] {
        proof {
            lemma_mark_counts(marked@, j as int);
        }
        marked.set(j, true);
        stack.push(j);
    }
}

/// The state after visiting the neighbours of `i`: the new marks are its open
/// neighbours, and they are on the stack.
pub open spec fn spread(
    open: Seq<bool>,
    w: int,
    marked0: Seq<bool>,
    stack0: Seq<usize>,
    marked: Seq<bool>,
    stack: Seq<usize>,
    i: int,
) -> bool {
    &&& marked.len() == open.len()
    &&& forall|j: int|
        0 <= j < open.len() ==> #[trigger] marked[j] == (marked0[j] || (open[j] && adjacent(
            w,
            i,
            j,
        )))
    &&& stack.len() >= stack0.len()
    &&& forall|k: int| 0 <= k < stack0.len() ==> #[trigger] stack[k] == stack0[k]
    &&& forall|k: int|
        stack0.len() <= k < stack.len() ==> #[trigger] stack[k] < open.len()
            && marked[stack[k] as int]
    &&& forall|j: int|
        0 <= j < open.len() && #[trigger] marked[j] && !marked0[j] ==> stack.contains(j as usize)
}

/// The part of `spread` that visiting the pixels of `js` one after the other
/// gives.
pub open spec fn spread_over(
    open: Seq<bool>,
    marked0: Seq<bool>,
    stack0: Seq<usize>,
    marked: Seq<bool>,
    stack: Seq<usize>,
    js: Set<int>,
) -> bool {
    &&& marked.len() == open.len()
    &&& forall|j: int|
        0 <= j < open.len() ==> #[trigger] marked[j] == (marked0[j] || (open[j] && js.contains(j)))
    &&& stack.len() >= stack0.len()
    &&& forall|k: int| 0 <= k < stack0.len() ==> #[trigger] stack[k] == stack0[k]
    &&& forall|k: int|
        stack0.len() <= k < stack.len() ==> #[trigger] stack[k] < open.len()
            && marked[stack[k] as int]
    &&& forall|j: int|
        0 <= j < open.len() && #[trigger] marked[j] && !marked0[j] ==> stack.contains(j as usize)
}

proof fn lemma_spread_more(
    open: Seq<bool>,
    marked0: Seq<bool>,
    stack0: Seq<usize>,
    marked1: Seq<bool>,
    stack1: Seq<usize>,
    marked: Seq<bool>,
    stack: Seq<usize>,
    js: Set<int>,
    j: int,
)
    requires
        open.len() <= usize::MAX,
        spread_over(open, marked0, stack0, marked1, stack1, js),
        0 <= j < open.len(),
        visited(open, marked1, stack1, marked, stack, j),
    ensures
        spread_over(open, marked0, stack0, marked, stack, js.insert(j)),
{
    assert forall|k: int| stack0.len() <= k < stack.len() implies #[trigger] stack[k] < open.len()
        && marked[stack[k] as int] by {
        if k < stack1.len() {
            assert(stack[k] == stack1[k]);
            assert(marked1[stack1[k] as int]);
        }
    }
    assert forall|k: int| 0 <= k < stack0.len() implies #[trigger] stack[k] == stack0[k] by {
        assert(stack[k] == stack1[k]);
    }
    assert forall|k: int| 0 <= k < open.len() && #[trigger] marked[k] && !marked0[k] implies
        stack.contains(k as usize) by {
        if marked1[k] {
            let m = choose|m: int| 0 <= m < stack1.len() && stack1[m] == k as usize;
            assert(stack[m] == k as usize);
        } else {
            assert(k == j);
            assert(stack[stack1.len() as int] == j as usize);
        }
    }
}

/// Visits the neighbours of `i`.
fn visit_neighbours(
    open: &Vec<bool>,
    w: usize,
    marked: &mut Vec<bool>,
    stack: &mut Vec<usize>,
    i: usize,
)
    requires
        w > 0,
        i < open.len(),
        old(marked)@.len() == open@.len(),
    ensures
        spread(
            open@,
            w as int,
            old(marked)@,
            old(stack)@,
            final(marked)@,
            final(stack)@,
            i as int,
        ),
        unmarked(final(marked)@) + final(stack)@.len() == unmarked(old(marked)@) + old(
            stack,
        )@.len(),
{
    let n: usize = open.len();
    let x: usize = i % w;
    let ghost (m0, s0) = (marked@, stack@);
    let ghost mut js = Set::<int>::empty();
    assert(spread_over(open@, m0, s0, marked@, stack@, js));
    if x > 0 {
        let ghost (m1, s1) = (marked@, stack@);
        proof {
            lemma_small_mod(0, w as nat);
        }
        visit(open, marked, stack, i - 1);
        proof {
            lemma_spread_more(open@, m0, s0, m1, s1, marked@, stack@, js, i - 1);
            js = js.insert(i - 1);
        }
    }
    if x + 1 < w && i + 1 < n {
        let ghost (m1, s1) = (marked@, stack@);
        visit(open, marked, stack, i + 1);
        proof {
            lemma_spread_more(open@, m0, s0, m1, s1, marked@, stack@, js, i + 1);
            js = js.insert(i + 1);
        }
    }
    if i >= w {
        let ghost (m1, s1) = (marked@, stack@);
        visit(open, marked, stack, i - w);
        proof {
            lemma_spread_more(open@, m0, s0, m1, s1, marked@, stack@, js, i - w);
            js = js.insert(i - w);
        }
    }
    if n - i > w {
        let ghost (m1, s1) = (marked@, stack@);
        visit(open, marked, stack, i + w);
        proof {
            lemma_spread_more(open@, m0, s0, m1, s1, marked@, stack@, js, i + w);
            js = js.insert(i + w);
        }
    }
    assert forall|j: int| 0 <= j < n implies (js.contains(j) <==> adjacent(
        w as int,
        i as int,
        j,
    )) by {}
}

/// What holds while a flood is under way: everything marked is reached and
/// open, everything to start from is marked, the stack holds marked pixels,
/// and marked pixels off the stack are settled.
pub open spec fn flooding(
    open: Seq<bool>,
    w: int,
    from: Seq<bool>,
    marked: Seq<bool>,
    stack: Seq<usize>,
) -> bool {
    &&& marked.len() == open.len()
    &&& forall|i: int|
        0 <= i < open.len() && #[trigger] marked[i] ==> open[i] && reached(open, w, from, i)
    &&& forall|i: int| 0 <= i < open.len() && open[i] && from[i] ==> #[trigger] marked[i]
    &&& forall|k: int| 0 <= k < stack.len() ==> #[trigger] stack[k] < open.len() && marked[stack[k] as int]
    &&& forall|i: int|
        0 <= i < open.len() && #[trigger] marked[i] ==> settled(open, w, marked, i)
            || stack.contains(i as usize)
}

/// The pixels that walks over `open` from the open pixels of `from` lead to,
/// in rows of `w`.
pub fn flood(open: &Vec<bool>, w: usize, from: &Vec<bool>) -> (r: Vec<bool>)
    requires
        w > 0,
        from@.len() == open@.len(),
    ensures
        r@ == flooded(open@, w as int, from@),
{
    let n: usize = open.len();
    let mut marked: Vec<bool> = Vec::new();
    let mut stack: Vec<usize> = Vec::new();
    let mut i: usize = 0;
    while i < n
        invariant
            i <= n,
            n == open@.len(),
            from@.len() == n,
            marked@.len() == i,
            forall|k: int| 0 <= k < i ==> #[trigger] marked@[k] == (open@[k] && from@[k]),
            forall|k: int|
                0 <= k < stack@.len() ==> #[trigger] stack@[k] < i && marked@[stack@[k] as int],
            forall|k: int|
                0 <= k < i && #[trigger] marked@[k] ==> stack@.contains(k as usize),
        decreases n - i,
    {
        let ghost stack0 = stack@;
        let ghost marked0 = marked@;
        if open[i] && from[i] {
            marked.push(true);
            stack.push(i);
            assert(stack@[stack0.len() as int] == i);
        } else {
            marked.push(false);
        }
        assert forall|k: int| 0 <= k < i + 1 && #[trigger] marked@[k] implies stack@.contains(
            k as usize,
        ) by {
            if k < i {
                assert(marked0[k]);
                let m = choose|m: int| 0 <= m < stack0.len() && stack0[m] == k as usize;
                assert(stack@[m] == k as usize);
            }
        }
        i += 1;
    }
    proof {
        assert forall|k: int| 0 <= k < n && #[trigger] marked@[k] implies open@[k] && reached(
            open@,
            w as int,
            from@,
            k,
        ) by {
            lemma_start(open@, w as int, from@, k);
        }
        lemma_count_range(marked@);
    }
    while stack.len() > 0
        invariant
            n == open@.len(),
            from@.len() == n,
            w > 0,
            flooding(open@, w as int, from@, marked@, stack@),
            unmarked(marked@) >= 0,
        decreases unmarked(marked@) + stack@.len(),
    {
        let ghost stack0 = stack@;
        let ghost marked0 = marked@;
        let i: usize = stack.pop().unwrap();
        assert(stack0[stack0.len() - 1] == i);
        let ghost stack1 = stack@;
        assert(stack1 =~= stack0.drop_last());
        visit_neighbours(open, w, &mut marked, &mut stack, i);
        proof {
            lemma_count_range(marked@);
            lemma_flood_step(open@, w as int, from@, marked0, stack0, marked@, stack@, i as int);
        }
    }
    proof {
        assert forall|i: int| 0 <= i < n implies marked@[i] == reached(
            open@,
            w as int,
            from@,
            i,
        ) by {
            if reached(open@, w as int, from@, i) {
                let p = choose|p: Seq<int>|
                    #![trigger is_walk(open@, w as int, p)]
                    is_walk(open@, w as int, p) && from@[p[0]] && p.last() == i;
                assert forall|a: int, b: int|
                    0 <= a < n && 0 <= b < n && marked@[a] && open@[b] && #[trigger] adjacent(
                        w as int,
                        a,
                        b,
                    ) implies marked@[b] by {
                    assert(settled(open@, w as int, marked@, a));
                }
                lemma_closed(open@, w as int, from@, marked@, p, p.len() - 1);
            }
        }
        assert(marked@ =~= flooded(open@, w as int, from@));
    }
    marked
}

/// One pixel's neighbours have been visited: what holds of a flood still
/// does.
proof fn lemma_flood_step(
    open: Seq<bool>,
    w: int,
    from: Seq<bool>,
    marked0: Seq<bool>,
    stack0: Seq<usize>,
    marked: Seq<bool>,
    stack: Seq<usize>,
    i: int,
)
    requires
        w > 0,
        flooding(open, w, from, marked0, stack0),
        stack0.len() > 0,
        stack0.last() == i,
        open.len() <= usize::MAX,
        spread(open, w, marked0, stack0.drop_last(), marked, stack, i),
    ensures
        flooding(open, w, from, marked, stack),
{
    assert(marked0[i]);
    assert forall|j: int| 0 <= j < open.len() && #[trigger] marked[j] implies open[j] && reached(
        open,
        w,
        from,
        j,
    ) by {
        if !marked0[j] {
            lemma_extend(open, w, from, i, j);
        }
    }
    assert forall|k: int| 0 <= k < stack.len() implies #[trigger] stack[k] < open.len()
        && marked[stack[k] as int] by {
        if k < stack0.len() - 1 {
            assert(stack[k] == stack0[k]);
            assert(marked0[stack0[k] as int]);
        }
    }
    assert forall|j: int| 0 <= j < open.len() && #[trigger] marked[j] implies settled(
        open,
        w,
        marked,
        j,
    ) || stack.contains(j as usize) by {
        if marked0[j] {
            if settled(open, w, marked0, j) {
                assert forall|k: int|
                    0 <= k < open.len() && open[k] && #[trigger] adjacent(w, j, k) implies marked[k] by {
                    assert(marked0[k]);
                }
            } else {
                let m = choose|m: int| 0 <= m < stack0.len() && stack0[m] == j as usize;
                assert(stack0[m] == j as usize);
                if m < stack0.len() - 1 {
                    assert(stack[m] == stack0[m]);
                } else {
                    assert(j == i);
                    assert forall|k: int|
                        0 <= k < open.len() && open[k] && #[trigger] adjacent(w, j, k) implies marked[k] by {}
                }
            }
        }
    }
}

/// The pixels darker than `t`.
pub open spec fn darker(sm: Seq<u8>, t: u8) -> Seq<bool> {
    Seq::new(sm.len(), |i: int| sm[i] < t)
}

/// The pixels that are not in `s`.
pub open spec fn others(s: Seq<bool>) -> Seq<bool> {
    Seq::new(s.len(), |i: int| !s[i])
}

/// Just the pixel `seed` of `n`.
pub open spec fn only(n: nat, seed: int) -> Seq<bool> {
    Seq::new(n, |i: int| i == seed)
}

/// Whether pixel `i` lies on the edge of a `w` by `h` window.
pub open spec fn on_edge(w: int, h: int, i: int) -> bool {
    i % w == 0 || i % w == w - 1 || i / w == 0 || i / w == h - 1
}

/// The pixels on the edge of a `w` by `h` window.
pub open spec fn edge(w: int, h: int) -> Seq<bool> {
    Seq::new((w * h) as nat, |i: int| on_edge(w, h, i))
}

/// 4-connected region of pixels darker than `t` that holds the seed.
pub open spec fn region(sm: Seq<u8>, w: int, seed: int, t: u8) -> Seq<bool> {
    flooded(darker(sm, t), w, only(sm.len(), seed))
}

/// A region with its holes (catchlight): all that cannot be reached from the
/// edge of the window without entering the region.
pub open spec fn filled(s: Seq<bool>, w: int, h: int) -> Seq<bool> {
    others(flooded(others(s), w, edge(w, h)))
}

/// Whether the region of the seed is a blob: the seed is darker than `t`, and
/// the region neither touches the edge of the window nor exceeds half of it.
pub open spec fn is_blob(sm: Seq<u8>, w: int, h: int, seed: int, t: u8) -> bool {
    &&& sm[seed] < t
    &&& forall|i: int|
        0 <= i < sm.len() && #[trigger] region(sm, w, seed, t)[i] ==> !on_edge(w, h, i)
    &&& eye::count_true(region(sm, w, seed, t)) <= w * h / 2
}

/// The blob of the seed at threshold `t`, holes filled.
pub open spec fn blob(sm: Seq<u8>, w: int, h: int, seed: int, t: u8) -> Seq<bool> {
    filled(region(sm, w, seed, t), w, h)
}

proof fn lemma_flood_monotone(
    open1: Seq<bool>,
    from1: Seq<bool>,
    open2: Seq<bool>,
    from2: Seq<bool>,
    w: int,
)
    requires
        open1.len() == open2.len(),
        from1.len() == open1.len(),
        from2.len() == open1.len(),
        forall|i: int| 0 <= i < open1.len() && open1[i] ==> #[trigger] open2[i],
        forall|i: int| 0 <= i < open1.len() && from1[i] ==> #[trigger] from2[i],
    ensures
        forall|i: int|
            0 <= i < open1.len() && flooded(open1, w, from1)[i] ==> #[trigger] flooded(
                open2,
                w,
                from2,
            )[i],
{
    assert forall|i: int| 0 <= i < open1.len() && flooded(open1, w, from1)[i] implies #[trigger] flooded(
        open2,
        w,
        from2,
    )[i] by {
        let p = choose|p: Seq<int>|
            #![trigger is_walk(open1, w, p)]
            is_walk(open1, w, p) && from1[p[0]] && p.last() == i;
        assert(0 <= p[0] < open1.len());
        assert(from2[p[0]]);
        assert forall|k: int| 0 <= k < p.len() implies 0 <= #[trigger] p[k] < open2.len()
            && open2[p[k]] by {
            assert(open1[p[k]]);
        }
        assert(is_walk(open2, w, p));
    }
}

proof fn lemma_count_monotone(a: Seq<bool>, b: Seq<bool>)
    requires
        a.len() == b.len(),
        forall|i: int| 0 <= i < a.len() && a[i] ==> #[trigger] b[i],
    ensures
        eye::count_true(a) <= eye::count_true(b),
    decreases a.len(),
{
    if a.len() > 0 {
        lemma_count_monotone(a.drop_last(), b.drop_last());
    }
}

/// A blob only grows as the threshold rises: every pixel stays in it, and its
/// area never shrinks.
pub proof fn blobs_grow_with_the_threshold(
    sm: Seq<u8>,
    w: int,
    h: int,
    seed: int,
    t1: u8,
    t2: u8,
)
    requires
        t1 <= t2,
        sm.len() == w * h,
    ensures
        forall|i: int|
            0 <= i < sm.len() && blob(sm, w, h, seed, t1)[i] ==> #[trigger] blob(
                sm,
                w,
                h,
                seed,
                t2,
            )[i],
        eye::count_true(blob(sm, w, h, seed, t1)) <= eye::count_true(blob(sm, w, h, seed, t2)),
{
    let one = only(sm.len(), seed);
    lemma_flood_monotone(darker(sm, t1), one, darker(sm, t2), one, w);
    let (r1, r2) = (region(sm, w, seed, t1), region(sm, w, seed, t2));
    assert forall|i: int| 0 <= i < sm.len() && others(r2)[i] implies #[trigger] others(r1)[i] by {
        if r1[i] {
            assert(r2[i]);
        }
    }
    lemma_flood_monotone(others(r2), edge(w, h), others(r1), edge(w, h), w);
    let (o1, o2) = (flooded(others(r1), w, edge(w, h)), flooded(others(r2), w, edge(w, h)));
    assert forall|i: int| 0 <= i < sm.len() && others(o1)[i] implies #[trigger] others(o2)[i] by {
        if o2[i] {
            assert(o1[i]);
        }
    }
    lemma_count_monotone(blob(sm, w, h, seed, t1), blob(sm, w, h, seed, t2));
}

/// A blob holds the region it was grown from.
pub proof fn blob_holds_its_region(s: Seq<bool>, w: int, h: int, i: int)
    requires
        0 <= i < s.len(),
        s[i],
    ensures
        filled(s, w, h)[i],
{
    if flooded(others(s), w, edge(w, h))[i] {
        let p = choose|p: Seq<int>|
            #![trigger is_walk(others(s), w, p)]
            is_walk(others(s), w, p) && edge(w, h)[p[0]] && p.last() == i;
        assert(others(s)[p[p.len() - 1]]);
    }
}

/// The pixels that are not in `s`.
fn others_of(s: &Vec<bool>) -> (r: Vec<bool>)
    ensures
        r@ == others(s@),
{
    let mut out: Vec<bool> = Vec::new();
    let mut i: usize = 0;
    while i < s.len()
        invariant
            i <= s.len(),
            out@ == others(s@).take(i as int),
        decreases s.len() - i,
    {
        out.push(!s[i]);
        assert(out@ =~= others(s@).take(i + 1));
        i += 1;
    }
    assert(out@ =~= others(s@));
    out
}

/// The pixels on the edge of a `w` by `h` window.
fn edge_of(w: usize, h: usize) -> (r: Vec<bool>)
    requires
        w > 0,
        h > 0,
        w * h <= usize::MAX,
    ensures
        r@ == edge(w as int, h as int),
{
    let n: usize = w * h;
    let mut out: Vec<bool> = Vec::new();
    let mut i: usize = 0;
    while i < n
        invariant
            i <= n,
            n == w * h,
            w > 0,
            h > 0,
            out@ == edge(w as int, h as int).take(i as int),
        decreases n - i,
    {
        let x: usize = i % w;
        let y: usize = i / w;
        out.push(x == 0 || x == w - 1 || y == 0 || y == h - 1);
        assert(out@ =~= edge(w as int, h as int).take(i + 1));
        i += 1;
    }
    assert(out@ =~= edge(w as int, h as int));
    out
}

/// 4-connected region of pixels `< t` containing the seed, with the holes
/// (catchlight) filled. None if it touches the window border or exceeds half
/// the window. Returns the mask and its area.
pub fn grow(sm: &Vec<u8>, w: usize, h: usize, seed: usize, t: u8) -> (r: Option<
    (Vec<bool>, usize),
>)
    requires
        w > 0,
        h > 0,
        sm@.len() == w * h,
        seed < sm@.len(),
    ensures
        r is Some <==> is_blob(sm@, w as int, h as int, seed as int, t),
        r matches Some(b) ==> b.0@ == blob(sm@, w as int, h as int, seed as int, t) && b.1
            == eye::count_true(b.0@),
{
    if sm[seed] >= t {
        return None;
    }
    let n: usize = sm.len();
    let mut dark: Vec<bool> = Vec::new();
    let mut start: Vec<bool> = Vec::new();
    let mut i: usize = 0;
    while i < n
        invariant
            i <= n,
            n == sm@.len(),
            dark@ == darker(sm@, t).take(i as int),
            start@ == only(sm@.len(), seed as int).take(i as int),
        decreases n - i,
    {
        dark.push(sm[i] < t);
        start.push(i == seed);
        assert(dark@ =~= darker(sm@, t).take(i + 1));
        assert(start@ =~= only(sm@.len(), seed as int).take(i + 1));
        i += 1;
    }
    assert(dark@ =~= darker(sm@, t));
    assert(start@ =~= only(sm@.len(), seed as int));
    let comp = flood(&dark, w, &start);
    let rim = edge_of(w, h);
    let mut k: usize = 0;
    while k < n
        invariant
            k <= n,
            n == sm@.len(),
            comp@ == region(sm@, w as int, seed as int, t),
            rim@ == edge(w as int, h as int),
            rim@.len() == n,
            comp@.len() == n,
            forall|j: int| 0 <= j < k && #[trigger] comp@[j] ==> !on_edge(w as int, h as int, j),
        decreases n - k,
    {
        if comp[k] && rim[k] {
            assert(region(sm@, w as int, seed as int, t)[k as int]);
            return None;
        }
        k += 1;
    }
    if eye::count(&comp) > n / 2 {
        return None;
    }
    // Holes: background not reachable from the border belongs to the blob.
    let outside = flood(&others_of(&comp), w, &rim);
    let mask = others_of(&outside);
    let area: usize = eye::count(&mask);
    Some((mask, area))
}

/// Mean of the pixels around `(x, y)` of the window `r`, as far as they lie
/// in it.
pub open spec fn window_mean(px: Seq<u8>, stride: int, r: Rect, x: int, y: int) -> int {
    let (x0, x1) = (eye::before(x), eye::after(x, r.w as int));
    let (y0, y1) = (eye::before(y), eye::after(y, r.h as int));
    score::area_sum(
        |a: int, b: int| score::at(px, stride, r.x + a, r.y + b),
        x0,
        x1 + 1,
        y0,
        y1 + 1,
    ) / ((x1 - x0 + 1) * (y1 - y0 + 1))
}

/// The window `r` of an image, smoothed.
pub open spec fn window_smoothed(px: Seq<u8>, stride: int, r: Rect) -> Seq<u8> {
    Seq::new(
        (r.w * r.h) as nat,
        |i: int| window_mean(px, stride, r, i % r.w as int, i / r.w as int) as u8,
    )
}

proof fn lemma_mean(sum: int, nx: int, ny: int)
    requires
        1 <= nx <= 3,
        1 <= ny <= 3,
        0 <= sum <= 255 * (nx * ny),
    ensures
        1 <= nx * ny <= 9,
        0 <= sum / (nx * ny) <= 255,
{
    assert(1 <= nx * ny <= 9) by (nonlinear_arith)
        requires
            1 <= nx <= 3,
            1 <= ny <= 3,
    ;
    let k = nx * ny;
    assert(0 <= sum / k <= 255) by (nonlinear_arith)
        requires
            1 <= k,
            0 <= sum <= 255 * k,
    ;
}

/// Mean of the pixels around `(x, y)` of the window `r`.
fn mean_at(l: &Luma, r: Rect, x: usize, y: usize) -> (m: u8)
    requires
        l.wf(),
        r.x + r.w <= l.width,
        r.y + r.h <= l.height,
        x < r.w,
        y < r.h,
    ensures
        m == window_mean(l.pixels@, l.width as int, r, x as int, y as int),
{
    let total: usize = l.pixels.len();
    let x0: usize = if x > 0 {
        x - 1
    } else {
        0
    };
    let x1: usize = if x + 1 < r.w {
        x + 1
    } else {
        r.w - 1
    };
    let y0: usize = if y > 0 {
        y - 1
    } else {
        0
    };
    let y1: usize = if y + 1 < r.h {
        y + 1
    } else {
        r.h - 1
    };
    let ghost f = |a: int, b: int| score::at(l.pixels@, l.width as int, r.x + a, r.y + b);
    let mut sum: u32 = 0;
    let mut n: u32 = 0;
    let mut yy: usize = y0;
    while yy <= y1
        invariant
            l.wf(),
            total == l.pixels@.len(),
            r.x + r.w <= l.width,
            r.y + r.h <= l.height,
            x0 <= x1 < r.w,
            y0 <= y1 < r.h,
            x1 - x0 <= 2,
            y1 - y0 <= 2,
            y0 <= yy <= y1 + 1,
            f == (|a: int, b: int| score::at(l.pixels@, l.width as int, r.x + a, r.y + b)),
            sum == score::area_sum(f, x0 as int, x1 + 1, y0 as int, yy as int),
            n == (x1 - x0 + 1) * (yy - y0),
            sum <= 255 * n,
            n <= 9,
        decreases y1 + 1 - yy,
    {
        let mut xx: usize = x0;
        while xx <= x1
            invariant
                l.wf(),
                total == l.pixels@.len(),
                r.x + r.w <= l.width,
                r.y + r.h <= l.height,
                x0 <= x1 < r.w,
                y0 <= yy <= y1 < r.h,
                x1 - x0 <= 2,
                y1 - y0 <= 2,
                x0 <= xx <= x1 + 1,
                f == (|a: int, b: int| score::at(l.pixels@, l.width as int, r.x + a, r.y + b)),
                sum == score::area_sum(f, x0 as int, x1 + 1, y0 as int, yy as int)
                    + score::row_sum(f, x0 as int, xx as int, yy as int),
                n == (x1 - x0 + 1) * (yy - y0) + (xx - x0),
                sum <= 255 * n,
                n <= 9,
            decreases x1 + 1 - xx,
        {
            proof {
                eye::lemma_pix(l.width as int, l.height as int, r.x + xx, r.y + yy);
                assert(n < 9) by (nonlinear_arith)
                    requires
                        n == (x1 - x0 + 1) * (yy - y0) + (xx - x0),
                        0 <= x1 - x0 <= 2,
                        0 <= yy - y0 <= 2,
                        0 <= xx - x0 <= x1 - x0,
                ;
            }
            let i: usize = (r.y + yy) * l.width + (r.x + xx);
            sum = sum + l.pixels[i] as u32;
            n = n + 1;
            assert(score::row_sum(f, x0 as int, xx + 1, yy as int) == score::row_sum(
                f,
                x0 as int,
                xx as int,
                yy as int,
            ) + f(xx as int, yy as int));
            xx += 1;
        }
        assert(score::area_sum(f, x0 as int, x1 + 1, y0 as int, yy + 1) == score::area_sum(
            f,
            x0 as int,
            x1 + 1,
            y0 as int,
            yy as int,
        ) + score::row_sum(f, x0 as int, x1 + 1, yy as int));
        assert((x1 - x0 + 1) * (yy + 1 - y0) == (x1 - x0 + 1) * (yy - y0) + (x1 - x0 + 1))
            by (nonlinear_arith);
        yy += 1;
    }
    proof {
        lemma_mean(sum as int, x1 - x0 + 1, y1 - y0 + 1);
    }
    (sum / n) as u8
}

/// How many of the first `n` of `s` are `v` or less.
pub open spec fn at_most(s: Seq<u8>, n: int, v: int) -> int
    decreases n,
{
    if n <= 0 {
        0
    } else {
        at_most(s, n - 1, v) + if s[n - 1] <= v {
            1int
        } else {
            0
        }
    }
}

/// How many of the first `n` of `s` are `v`.
pub open spec fn exactly(s: Seq<u8>, n: int, v: int) -> int
    decreases n,
{
    if n <= 0 {
        0
    } else {
        exactly(s, n - 1, v) + if s[n - 1] == v {
            1int
        } else {
            0
        }
    }
}

/// The first level from `v` on that at least `half` of `s` do not exceed.
pub open spec fn median_from(s: Seq<u8>, half: int, v: int) -> int
    decreases 255 - v,
{
    if v >= 255 || at_most(s, s.len() as int, v) >= half {
        v
    } else {
        median_from(s, half, v + 1)
    }
}

/// The median level of a window.
pub open spec fn median(s: Seq<u8>) -> int {
    median_from(s, s.len() as int / 2, 0)
}

proof fn lemma_level_counts(s: Seq<u8>, n: int, v: int)
    requires
        0 <= n <= s.len(),
    ensures
        at_most(s, n, v) == at_most(s, n, v - 1) + exactly(s, n, v),
        0 <= at_most(s, n, v) <= n,
        0 <= exactly(s, n, v) <= n,
        at_most(s, n, -1) == 0,
    decreases n,
{
    if n > 0 {
        lemma_level_counts(s, n - 1, v);
    }
}

/// The median level of a window.
fn median_of(s: &Vec<u8>) -> (r: u32)
    ensures
        r == median(s@),
        r <= 255,
{
    let n: usize = s.len();
    let mut hist: Vec<u64> = vec![0u64; 256];
    let mut i: usize = 0;
    while i < n
        invariant
            i <= n,
            n == s@.len(),
            hist.len() == 256,
            forall|v: int| 0 <= v < 256 ==> #[trigger] hist@[v] == exactly(s@, i as int, v),
        decreases n - i,
    {
        let y: usize = s[i] as usize;
        proof {
            lemma_level_counts(s@, i as int, y as int);
        }
        let c: u64 = hist[y];
        hist.set(y, c + 1);
        i += 1;
    }
    let half: u64 = (n / 2) as u64;
    let mut acc: u64 = 0;
    let mut v: usize = 0;
    proof {
        lemma_level_counts(s@, n as int, -1);
    }
    while v < 256
        invariant
            v <= 256,
            n == s@.len(),
            hist.len() == 256,
            half == n / 2,
            forall|w: int| 0 <= w < 256 ==> #[trigger] hist@[w] == exactly(s@, n as int, w),
            acc == at_most(s@, n as int, v - 1),
            v <= 255 ==> median(s@) == median_from(s@, half as int, v as int),
            v == 256 ==> median(s@) == 255,
        decreases 256 - v,
    {
        proof {
            lemma_level_counts(s@, n as int, v as int);
        }
        acc += hist[v];
        if acc >= half {
            return v as u32;
        }
        v += 1;
    }
    255
}

/// The search for a pupil in one window.
pub struct Segmenter {
    /// The window: the search rectangle, moved inside the image and cut off.
    pub area: Rect,
    /// The window, smoothed so that speckle noise cannot fragment regions.
    pub sm: Vec<u8>,
    /// Median level of the smoothed window; it bounds the thresholds.
    pub med: u32,
    /// Pixels that turned out not to belong to a pupil.
    pub excluded: Vec<bool>,
}

/// Number of thresholds above a seed of level `dark`.
pub open spec fn threshold_count(dark: int, med: int) -> int {
    if med > dark {
        (med - dark) / STEP as int
    } else {
        0
    }
}

/// The threshold of the given number above a seed of level `dark`.
pub open spec fn threshold(dark: int, k: int) -> int {
    dark + (k + 1) * STEP
}

/// Whether pixel `i` may be a seed: not on the edge, near enough to have a
/// cost, and not excluded.
pub open spec fn is_candidate(
    w: int,
    h: int,
    costs: Seq<Option<Real32>>,
    excluded: Seq<bool>,
    i: int,
) -> bool {
    !on_edge(w, h, i) && costs[i] is Some && !excluded[i]
}

/// The cheapest candidate among the first `k` pixels, the first of several.
pub open spec fn cheapest(
    w: int,
    h: int,
    costs: Seq<Option<Real32>>,
    excluded: Seq<bool>,
    k: int,
) -> Option<int>
    decreases k,
{
    if k <= 0 {
        None
    } else {
        let best = cheapest(w, h, costs, excluded, k - 1);
        if !is_candidate(w, h, costs, excluded, k - 1) {
            best
        } else {
            match best {
                Some(b) => if costs[k - 1]->0.below(costs[b]->0) {
                    Some(k - 1)
                } else {
                    Some(b)
                },
                None => Some(k - 1),
            }
        }
    }
}

/// No candidate is cheaper than the one that is picked, and one is picked if
/// there is any.
pub proof fn picked_seed_is_cheapest(
    w: int,
    h: int,
    costs: Seq<Option<Real32>>,
    excluded: Seq<bool>,
    k: int,
    i: int,
)
    requires
        0 <= i < k,
        is_candidate(w, h, costs, excluded, i),
        forall|j: int| 0 <= j < k && costs[j] is Some ==> !(#[trigger] costs[j])->0.is_nan_spec(),
    ensures
        cheapest(w, h, costs, excluded, k) matches Some(b) && 0 <= b < k && is_candidate(
            w,
            h,
            costs,
            excluded,
            b,
        ) && !costs[i]->0.below(costs[b]->0),
    decreases k,
{
    let last = k - 1;
    if i < last {
        picked_seed_is_cheapest(w, h, costs, excluded, last, i);
    } else {
        lemma_cheapest_candidate(w, h, costs, excluded, last);
    }
}

proof fn lemma_cheapest_candidate(
    w: int,
    h: int,
    costs: Seq<Option<Real32>>,
    excluded: Seq<bool>,
    k: int,
)
    ensures
        cheapest(w, h, costs, excluded, k) matches Some(b) ==> 0 <= b < k && is_candidate(
            w,
            h,
            costs,
            excluded,
            b,
        ),
    decreases k,
{
    if k > 0 {
        lemma_cheapest_candidate(w, h, costs, excluded, k - 1);
    }
}

impl Segmenter {
    /// The parts of the search fit together.
    pub open spec fn wf(self) -> bool {
        &&& self.area.w >= MIN_WINDOW
        &&& self.area.h >= MIN_WINDOW
        &&& self.sm@.len() == self.area.w * self.area.h
        &&& self.excluded@.len() == self.sm@.len()
        &&& self.med == median(self.sm@)
        &&& self.med <= 255
    }

    /// Starts the search in a window of an image; nothing where the window is
    /// too small.
    pub fn new(l: &Luma, search: Rect) -> (r: Option<Segmenter>)
        requires
            l.wf(),
        ensures
            ({
                let c = eye::clamped(l.width as int, l.height as int, search);
                &&& r is Some <==> c.w >= MIN_WINDOW && c.h >= MIN_WINDOW
                &&& r is Some <==> c.w >= 16 && c.h >= 16
                &&& r matches Some(s) ==> {
                    &&& s.wf()
                    &&& s.area == c
                    &&& s.sm@ == window_smoothed(l.pixels@, l.width as int, c)
                    &&& eye::count_true(s.excluded@) == 0
                }
            }),
    {
        let total: usize = l.pixels.len();
        let c = eye::clamp_rect(l, search);
        if c.w < MIN_WINDOW || c.h < MIN_WINDOW {
            return None;
        }
        assert(c.w * c.h <= l.width * l.height) by (nonlinear_arith)
            requires
                0 <= c.w <= l.width,
                0 <= c.h <= l.height,
        ;
        let n: usize = c.w * c.h;
        let ghost whole = window_smoothed(l.pixels@, l.width as int, c);
        let mut sm: Vec<u8> = Vec::new();
        let mut excluded: Vec<bool> = Vec::new();
        let mut i: usize = 0;
        while i < n
            invariant
                l.wf(),
                c.x + c.w <= l.width,
                c.y + c.h <= l.height,
                n == c.w * c.h,
                c.w >= MIN_WINDOW,
                c.h >= MIN_WINDOW,
                i <= n,
                whole == window_smoothed(l.pixels@, l.width as int, c),
                sm@ == whole.take(i as int),
                excluded@.len() == i,
                eye::count_true(excluded@) == 0,
            decreases n - i,
        {
            proof {
                eye::lemma_unpix(c.w as int, c.h as int, i as int);
            }
            sm.push(mean_at(l, c, i % c.w, i / c.w));
            let ghost before = excluded@;
            excluded.push(false);
            assert(excluded@.drop_last() =~= before);
            assert(sm@ =~= whole.take(i + 1));
            i += 1;
        }
        assert(sm@ =~= whole);
        let med: u32 = median_of(&sm);
        Some(Segmenter { area: c, sm, med, excluded })
    }

    /// The cheapest pixel that may be a seed.
    pub fn pick_seed(&self, costs: &Vec<Option<Real32>>) -> (r: Option<usize>)
        requires
            self.wf(),
            costs@.len() == self.sm@.len(),
        ensures
            ({
                let want = cheapest(
                    self.area.w as int,
                    self.area.h as int,
                    costs@,
                    self.excluded@,
                    self.sm@.len() as int,
                );
                &&& r is Some <==> want is Some
                &&& r is Some ==> r->0 == want->0 && r->0 < self.sm@.len()
            }),
    {
        let n: usize = self.sm.len();
        let (w, h): (usize, usize) = (self.area.w, self.area.h);
        let mut best: Option<usize> = None;
        let mut i: usize = 0;
        while i < n
            invariant
                self.wf(),
                n == self.sm@.len(),
                costs@.len() == n,
                w == self.area.w,
                h == self.area.h,
                i <= n,
                ({
                    let want = cheapest(w as int, h as int, costs@, self.excluded@, i as int);
                    &&& best is Some <==> want is Some
                    &&& best is Some ==> best->0 == want->0 && best->0 < i && costs@[best->0 as int] is Some
                }),
            decreases n - i,
        {
            let x: usize = i % w;
            let y: usize = i / w;
            let inner = !(x == 0 || x == w - 1 || y == 0 || y == h - 1);
            if inner && !self.excluded[i] {
                if let Some(c) = costs[i] {
                    let better = match best {
                        Some(b) => match costs[b] {
                            Some(d) => c.lt(&d),
                            None => false,
                        },
                        None => true,
                    };
                    if better {
                        best = Some(i);
                    }
                }
            }
            i += 1;
        }
        best
    }

    /// Takes a seed out of the search; tells whether it stands out enough from
    /// the window to be grown.
    pub fn take_seed(&mut self, seed: usize) -> (r: bool)
        requires
            old(self).wf(),
            seed < old(self).sm@.len(),
        ensures
            final(self).wf(),
            *final(self) == (Segmenter { excluded: final(self).excluded, ..*old(self) }),
            final(self).excluded@ == old(self).excluded@.update(seed as int, true),
            r == (old(self).med > old(self).sm@[seed as int] + MIN_CONTRAST),
            r == (old(self).med - old(self).sm@[seed as int] > 12),
    {
        self.excluded.set(seed, true);
        self.med > self.sm[seed] as u32 + MIN_CONTRAST
    }

    /// Threshold number `k` above a seed.
    pub open spec fn level(self, seed: int, k: int) -> u8 {
        threshold(self.sm@[seed] as int, k) as u8
    }

    /// Number of thresholds above a seed.
    pub open spec fn levels(self, seed: int) -> int {
        threshold_count(self.sm@[seed] as int, self.med as int)
    }

    /// Whether the seed grows into a blob at threshold number `k`.
    pub open spec fn blob_at(self, seed: int, k: int) -> bool {
        is_blob(
            self.sm@,
            self.area.w as int,
            self.area.h as int,
            seed,
            self.level(seed, k),
        )
    }

    /// The blob of the seed at threshold number `k`.
    pub open spec fn mask_at(self, seed: int, k: int) -> Seq<bool> {
        blob(self.sm@, self.area.w as int, self.area.h as int, seed, self.level(seed, k))
    }

    /// Number of thresholds above a seed.
    fn level_count(&self, seed: usize) -> (r: usize)
        requires
            self.wf(),
            seed < self.sm@.len(),
        ensures
            r == self.levels(seed as int),
            r <= 63,
    {
        let dark: u32 = self.sm[seed] as u32;
        if self.med > dark {
            ((self.med - dark) / STEP) as usize
        } else {
            0
        }
    }

    /// The blob of the seed at threshold number `k`, and its area.
    pub fn grown(&self, seed: usize, k: usize) -> (r: Option<(Vec<bool>, usize)>)
        requires
            self.wf(),
            seed < self.sm@.len(),
            k < self.levels(seed as int),
        ensures
            r is Some <==> self.blob_at(seed as int, k as int),
            r matches Some(b) ==> b.0@ == self.mask_at(seed as int, k as int) && b.1
                == eye::count_true(b.0@),
    {
        let n: usize = self.level_count(seed);
        let t: u32 = self.sm[seed] as u32 + (k as u32 + 1) * STEP;
        assert(t <= self.med);
        grow(&self.sm, self.area.w, self.area.h, seed, t as u8)
    }

    /// Area of the blob as a function of the threshold, from the lowest
    /// threshold up to where the seed no longer grows into a blob.
    pub fn areas(&self, seed: usize) -> (r: Vec<usize>)
        requires
            self.wf(),
            seed < self.sm@.len(),
        ensures
            r@.len() <= self.levels(seed as int),
            forall|k: int| 0 <= k < r@.len() ==> #[trigger] self.blob_at(seed as int, k),
            forall|k: int|
                0 <= k < r@.len() ==> #[trigger] r@[k] == eye::count_true(
                    self.mask_at(seed as int, k),
                ),
            r@.len() == self.levels(seed as int) || !self.blob_at(seed as int, r@.len() as int),
            forall|j: int, k: int| 0 <= j <= k < r@.len() ==> #[trigger] r@[j] <= #[trigger] r@[k],
    {
        let n: usize = self.level_count(seed);
        let mut out: Vec<usize> = Vec::new();
        let mut k: usize = 0;
        while k < n
            invariant
                self.wf(),
                seed < self.sm@.len(),
                n == self.levels(seed as int),
                n <= 63,
                k <= n,
                out@.len() == k,
                forall|j: int| 0 <= j < k ==> #[trigger] self.blob_at(seed as int, j),
                forall|j: int|
                    0 <= j < k ==> #[trigger] out@[j] == eye::count_true(
                        self.mask_at(seed as int, j),
                    ),
            decreases n - k,
        {
            match self.grown(seed, k) {
                Some((_, a)) => out.push(a),
                None => {
                    proof {
                        self.lemma_sorted(seed as int, out@);
                    }
                    return out;
                },
            }
            k += 1;
        }
        proof {
            self.lemma_sorted(seed as int, out@);
        }
        out
    }

    proof fn lemma_sorted(&self, seed: int, a: Seq<usize>)
        requires
            self.wf(),
            0 <= seed < self.sm@.len(),
            a.len() <= self.levels(seed),
            forall|k: int|
                0 <= k < a.len() ==> #[trigger] a[k] == eye::count_true(self.mask_at(seed, k)),
        ensures
            forall|j: int, k: int| 0 <= j <= k < a.len() ==> #[trigger] a[j] <= #[trigger] a[k],
    {
        assert forall|j: int, k: int| 0 <= j <= k < a.len() implies #[trigger] a[j] <= #[trigger] a[k] by {
            let dark = self.sm@[seed] as int;
            assert(threshold(dark, k) <= self.med);
            blobs_grow_with_the_threshold(
                self.sm@,
                self.area.w as int,
                self.area.h as int,
                seed,
                self.level(seed, j),
                self.level(seed, k),
            );
        }
    }

    /// Excludes what the seed grew into, so that the next seed lands somewhere
    /// else: the blob at the last of the `grown` thresholds at which it was
    /// one.
    pub fn exclude_region(&mut self, seed: usize, grown: usize)
        requires
            old(self).wf(),
            seed < old(self).sm@.len(),
        ensures
            final(self).wf(),
            *final(self) == (Segmenter { excluded: final(self).excluded, ..*old(self) }),
            ({
                let k = eye::before(grown as int);
                let there = k < old(self).levels(seed as int) && old(self).blob_at(seed as int, k);
                forall|i: int|
                    0 <= i < old(self).sm@.len() ==> #[trigger] final(self).excluded@[i] == (old(
                        self,
                    ).excluded@[i] || (there && old(self).mask_at(seed as int, k)[i]))
            }),
    {
        let k: usize = if grown > 0 {
            grown - 1
        } else {
            0
        };
        if k >= self.level_count(seed) {
            return ;
        }
        if let Some((comp, _)) = self.grown(seed, k) {
            let n: usize = self.sm.len();
            let ghost before = *self;
            let mut i: usize = 0;
            while i < n
                invariant
                    before.wf(),
                    *self == (Segmenter { excluded: self.excluded, ..before }),
                    n == before.sm@.len(),
                    comp@.len() == n,
                    self.excluded@.len() == n,
                    i <= n,
                    forall|j: int|
                        0 <= j < n ==> #[trigger] self.excluded@[j] == (before.excluded@[j] || (j < i
                            && comp@[j])),
                decreases n - i,
            {
                if comp[i] {
                    self.excluded.set(i, true);
                }
                i += 1;
            }
        }
    }
}

/// Index of the first area that is large enough for a pupil, from `k` on.
pub open spec fn first_large(areas: Seq<usize>, k: int) -> int
    decreases areas.len() - k,
{
    if k >= areas.len() || areas[k] >= MIN_AREA {
        k
    } else {
        first_large(areas, k + 1)
    }
}

/// Index of the first true of `s` from `k` on and below `end`; `end` where
/// there is none.
pub open spec fn first_true(s: Seq<bool>, k: int, end: int) -> int
    decreases end - k,
{
    if k >= end || s[k] {
        k
    } else {
        first_true(s, k + 1, end)
    }
}

/// The threshold at which the pupil is measured: the middle of those from the
/// first at which the blob is large enough up to the first after which its
/// area jumps, or at which it is too big to be a pupil. `jumps[k]` says that
/// the area jumps from threshold `k` to the next, `big[k]` that the blob is
/// too big.
pub open spec fn pupil_level(areas: Seq<usize>, jumps: Seq<bool>, big: Seq<bool>) -> Option<int> {
    let n = areas.len() as int;
    let first = first_large(areas, 0);
    if first >= n {
        None
    } else {
        let j = first_true(jumps, first, n - 1);
        let jump_end = if j < n - 1 {
            j + 1
        } else {
            n
        };
        let too_big = first_true(big, first, n);
        let end = if jump_end <= too_big {
            jump_end
        } else {
            too_big
        };
        if end <= first {
            None
        } else {
            Some((first + end - 1) / 2)
        }
    }
}

/// The threshold at which the pupil is measured.
pub fn choose_level(areas: &Vec<usize>, jumps: &Vec<bool>, big: &Vec<bool>) -> (r: Option<usize>)
    requires
        jumps@.len() == areas@.len(),
        big@.len() == areas@.len(),
        areas@.len() <= 0xffff,
    ensures
        r is Some <==> pupil_level(areas@, jumps@, big@) is Some,
        r is Some ==> r->0 == pupil_level(areas@, jumps@, big@)->0 && r->0 < areas@.len(),
{
    let n: usize = areas.len();
    let mut first: usize = 0;
    while first < n && areas[first] < MIN_AREA
        invariant
            first <= n,
            n == areas@.len(),
            first_large(areas@, 0) == first_large(areas@, first as int),
        decreases n - first,
    {
        first += 1;
    }
    if first >= n {
        return None;
    }
    let mut j: usize = first;
    while j < n - 1 && !jumps[j]
        invariant
            0 < n,
            n == jumps@.len(),
            first <= j <= n - 1,
            first_true(jumps@, first as int, n - 1) == first_true(jumps@, j as int, n - 1),
        decreases n - j,
    {
        j += 1;
    }
    let jump_end: usize = if j < n - 1 {
        j + 1
    } else {
        n
    };
    let mut too_big: usize = first;
    while too_big < n && !big[too_big]
        invariant
            n == big@.len(),
            first <= too_big <= n,
            first_true(big@, first as int, n as int) == first_true(big@, too_big as int, n as int),
        decreases n - too_big,
    {
        too_big += 1;
    }
    let end: usize = if jump_end <= too_big {
        jump_end
    } else {
        too_big
    };
    if end <= first {
        None
    } else {
        Some((first + end - 1) / 2)
    }
}

/// Pixels are neighbours exactly where they share a side: one of them is one
/// to the left, to the right, above or below the other. Pixels that only touch
/// at a corner are not, nor are the ends of two rows.
pub proof fn neighbours_share_a_side(w: int, x: int, y: int, p: int, q: int)
    requires
        0 <= x < w,
        0 <= p < w,
        0 <= y,
        0 <= q,
    ensures
        adjacent(w, y * w + x, q * w + p) <==> (q == y && (p == x + 1 || p == x - 1)) || (p == x && (q
            == y + 1 || q == y - 1)),
{
    let (i, j) = (y * w + x, q * w + p);
    vstd::arithmetic::div_mod::lemma_fundamental_div_mod_converse(i, w, y, x);
    vstd::arithmetic::div_mod::lemma_fundamental_div_mod_converse(j, w, q, p);
    assert((y + 1) * w == y * w + w && (y - 1) * w == y * w - w) by (nonlinear_arith);
    if j == i + w {
        vstd::arithmetic::div_mod::lemma_fundamental_div_mod_converse(j, w, y + 1, x);
    }
    if j == i - w {
        vstd::arithmetic::div_mod::lemma_fundamental_div_mod_converse(j, w, y - 1, x);
    }
    if j == i + 1 && x + 1 < w {
        vstd::arithmetic::div_mod::lemma_fundamental_div_mod_converse(j, w, y, x + 1);
    }
    if j == i - 1 && x > 0 {
        vstd::arithmetic::div_mod::lemma_fundamental_div_mod_converse(j, w, y, x - 1);
    }
}

/// The region of a seed is made of pixels darker than the threshold, holds the
/// seed if that is dark enough, and with a pixel all dark ones that share a
/// side with it; and it is the smallest that does.
pub proof fn regions_are_all_that_is_joined(
    sm: Seq<u8>,
    w: int,
    seed: int,
    t: u8,
    i: int,
    j: int,
    s: Seq<bool>,
)
    requires
        0 <= seed < sm.len(),
        0 <= i < sm.len(),
        0 <= j < sm.len(),
    ensures
        region(sm, w, seed, t).len() == sm.len(),
        region(sm, w, seed, t)[i] ==> sm[i] < t,
        sm[seed] < t ==> region(sm, w, seed, t)[seed],
        region(sm, w, seed, t)[i] && adjacent(w, i, j) && sm[j] < t ==> region(sm, w, seed, t)[j],
        s.len() == sm.len() && s[seed] && (forall|a: int, b: int|
            0 <= a < sm.len() && 0 <= b < sm.len() && s[a] && sm[b] < t && #[trigger] adjacent(
                w,
                a,
                b,
            ) ==> s[b]) && region(sm, w, seed, t)[i] ==> s[i],
{
    let open = darker(sm, t);
    let from = only(sm.len(), seed);
    if open[seed] {
        lemma_start(open, w, from, seed);
    }
    if region(sm, w, seed, t)[i] {
        let p = choose|p: Seq<int>|
            #![trigger is_walk(open, w, p)]
            is_walk(open, w, p) && from[p[0]] && p.last() == i;
        assert(open[p[p.len() - 1]]);
        if adjacent(w, i, j) && open[j] {
            lemma_extend(open, w, from, i, j);
        }
        if s.len() == sm.len() && s[seed] && (forall|a: int, b: int|
            0 <= a < sm.len() && 0 <= b < sm.len() && s[a] && sm[b] < t && #[trigger] adjacent(
                w,
                a,
                b,
            ) ==> s[b]) {
            lemma_closed(open, w, from, s, p, p.len() - 1);
        }
    }
}

/// Filling a region adds its holes only: a pixel outside it stays outside
/// where it lies on the edge of the window, or beside one that stays outside.
pub proof fn only_holes_are_filled(s: Seq<bool>, w: int, h: int, i: int, j: int)
    requires
        s.len() == w * h,
        0 <= i < s.len(),
        0 <= j < s.len(),
    ensures
        filled(s, w, h).len() == s.len(),
        s[i] ==> filled(s, w, h)[i],
        !s[i] && (i % w == 0 || i % w == w - 1 || i / w == 0 || i / w == h - 1) ==> !filled(
            s,
            w,
            h,
        )[i],
        !s[j] && !filled(s, w, h)[i] && adjacent(w, i, j) ==> !filled(s, w, h)[j],
{
    let open = others(s);
    let from = edge(w, h);
    let out = flooded(open, w, from);
    if !s[i] && on_edge(w, h, i) {
        lemma_start(open, w, from, i);
    }
    if out[i] {
        let p = choose|p: Seq<int>|
            #![trigger is_walk(open, w, p)]
            is_walk(open, w, p) && from[p[0]] && p.last() == i;
        assert(open[p[p.len() - 1]]);
        if adjacent(w, i, j) && open[j] {
            lemma_extend(open, w, from, i, j);
        }
    }
}

/// A blob stays off the edge of the window and within half of it, and its seed
/// is darker than the threshold; any region of which that holds is a blob.
pub proof fn blobs_stay_inside(sm: Seq<u8>, w: int, h: int, seed: int, t: u8)
    requires
        sm.len() == w * h,
        w > 0,
        h > 0,
        0 <= seed < sm.len(),
    ensures
        is_blob(sm, w, h, seed, t) <==> sm[seed] < t && (forall|x: int, y: int|
            0 <= x < w && 0 <= y < h && #[trigger] region(sm, w, seed, t)[y * w + x] ==> 0 < x < w - 1
                && 0 < y < h - 1) && 2 * Set::new(
            |i: int| 0 <= i < sm.len() && region(sm, w, seed, t)[i],
        ).len() <= w * h,
{
    let r = region(sm, w, seed, t);
    eye::counting_counts_each_once(r);
    assert(Set::new(|i: int| 0 <= i < r.len() && r[i]) =~= Set::new(
        |i: int| 0 <= i < sm.len() && region(sm, w, seed, t)[i],
    ));
    if forall|i: int| 0 <= i < sm.len() && #[trigger] r[i] ==> !on_edge(w, h, i) {
        assert forall|x: int, y: int| 0 <= x < w && 0 <= y < h && #[trigger] r[y * w + x] implies 0
            < x < w - 1 && 0 < y < h - 1 by {
            eye::lemma_pix(w, h, x, y);
            assert(!on_edge(w, h, y * w + x));
        }
    }
    if forall|x: int, y: int|
        0 <= x < w && 0 <= y < h && #[trigger] r[y * w + x] ==> 0 < x < w - 1 && 0 < y < h - 1 {
        assert forall|i: int| 0 <= i < sm.len() && #[trigger] r[i] implies !on_edge(w, h, i) by {
            eye::lemma_unpix(w, h, i);
            assert(r[(i / w) * w + i % w]);
        }
    }
}

/// The levels of `s` up to `v`.
pub open spec fn up_to(s: Seq<u8>, n: int, v: int) -> Set<int> {
    Set::new(|i: int| 0 <= i < n && s[i] <= v)
}

proof fn lemma_up_to(s: Seq<u8>, n: int, v: int)
    requires
        0 <= n,
    ensures
        up_to(s, n, v).finite(),
        at_most(s, n, v) == up_to(s, n, v).len(),
        v >= 255 ==> at_most(s, n, v) == n,
    decreases n,
{
    if n > 0 {
        lemma_up_to(s, n - 1, v);
        if s[n - 1] <= v {
            assert(up_to(s, n, v) =~= up_to(s, n - 1, v).insert(n - 1));
        } else {
            assert(up_to(s, n, v) =~= up_to(s, n - 1, v));
        }
    } else {
        assert(up_to(s, n, v) =~= Set::empty());
    }
}

proof fn lemma_median(s: Seq<u8>, half: int, v: int)
    requires
        0 <= v <= 255,
        v > 0 ==> at_most(s, s.len() as int, v - 1) < half,
    ensures
        ({
            let m = median_from(s, half, v);
            &&& v <= m <= 255
            &&& m > 0 ==> at_most(s, s.len() as int, m - 1) < half
            &&& m < 255 ==> at_most(s, s.len() as int, m) >= half
        }),
    decreases 255 - v,
{
    if v < 255 && at_most(s, s.len() as int, v) < half {
        lemma_median(s, half, v + 1);
    }
}

/// The median of a window: half of its pixels are no brighter, and fewer than
/// half are darker.
pub proof fn half_the_window_is_below_the_median(s: Seq<u8>)
    ensures
        0 <= median(s) <= 255,
        up_to(s, s.len() as int, median(s)).len() >= s.len() / 2,
        median(s) > 0 ==> up_to(s, s.len() as int, median(s) - 1).len() < s.len() / 2,
{
    let n = s.len() as int;
    lemma_median(s, n / 2, 0);
    lemma_up_to(s, n, median(s));
    lemma_up_to(s, n, median(s) - 1);
}

/// Thresholds rise from the seed's level in steps of 4 and stop at the median.
pub proof fn thresholds_rise_to_the_median(s: Segmenter, seed: int, k: int)
    requires
        s.wf(),
        0 <= seed < s.sm@.len(),
        0 <= k,
    ensures
        k < s.levels(seed) <==> s.sm@[seed] + 4 * (k + 1) <= s.med,
        k < s.levels(seed) ==> s.level(seed, k) == s.sm@[seed] + 4 * (k + 1),
{
}

proof fn lemma_first_large(areas: Seq<usize>, k: int)
    requires
        0 <= k <= areas.len(),
    ensures
        k <= first_large(areas, k) <= areas.len(),
        forall|j: int| k <= j < first_large(areas, k) ==> #[trigger] areas[j] < 113,
        first_large(areas, k) < areas.len() ==> areas[first_large(areas, k)] >= 113,
    decreases areas.len() - k,
{
    if k < areas.len() && areas[k] < MIN_AREA {
        lemma_first_large(areas, k + 1);
    }
}

proof fn lemma_first_true(s: Seq<bool>, k: int, end: int)
    requires
        k <= end,
    ensures
        k <= first_true(s, k, end) <= end,
        forall|j: int| k <= j < first_true(s, k, end) ==> !#[trigger] s[j],
        first_true(s, k, end) < end ==> s[first_true(s, k, end)],
    decreases end - k,
{
    if k < end && !s[k] {
        lemma_first_true(s, k + 1, end);
    }
}

/// The pupil is measured in the middle of a run of thresholds (the result: its
/// first, and the one after its last). The run starts at the first threshold
/// at which the blob covers 113 pixels; within it the area never jumps and the
/// blob is never too big; and it ends only where there is no further
/// threshold, the area jumps, or the blob gets too big.
pub proof fn pupils_are_measured_in_the_middle(
    areas: Seq<usize>,
    jumps: Seq<bool>,
    big: Seq<bool>,
) -> (run: (int, int))
    requires
        jumps.len() == areas.len(),
        big.len() == areas.len(),
    ensures
        0 <= run.0 <= areas.len(),
        forall|k: int| 0 <= k < run.0 ==> #[trigger] areas[k] < 113,
        pupil_level(areas, jumps, big) is None <==> run.0 == areas.len() || big[run.0],
        pupil_level(areas, jumps, big) matches Some(l) ==> {
            &&& run.0 <= l < run.1 <= areas.len()
            &&& areas[run.0] >= 113
            &&& forall|k: int| run.0 <= k < run.1 ==> !#[trigger] big[k]
            &&& forall|k: int| run.0 <= k < run.1 - 1 ==> !#[trigger] jumps[k]
            &&& run.1 == areas.len() || big[run.1] || jumps[run.1 - 1]
            &&& l - run.0 <= run.1 - 1 - l <= l - run.0 + 1
        },
{
    let n = areas.len() as int;
    lemma_first_large(areas, 0);
    let first = first_large(areas, 0);
    if first < n {
        lemma_first_true(jumps, first, n - 1);
        lemma_first_true(big, first, n);
        let j = first_true(jumps, first, n - 1);
        let jump_end = if j < n - 1 {
            j + 1
        } else {
            n
        };
        let too_big = first_true(big, first, n);
        let end = if jump_end <= too_big {
            jump_end
        } else {
            too_big
        };
        (first, end)
    } else {
        (first, n)
    }
}

/// Inside a window a smoothed pixel is the mean of it and its eight
/// neighbours.
pub proof fn smoothing_takes_the_mean_of_nine(px: Seq<u8>, stride: int, r: Rect, x: int, y: int)
    requires
        0 < x < r.w - 1,
        0 < y < r.h - 1,
    ensures
        ({
            let at = |i: int, j: int| px[(r.y + y + j) * stride + (r.x + x + i)] as int;
            window_mean(px, stride, r, x, y) == (at(-1, -1) + at(0, -1) + at(1, -1) + at(-1, 0) + at(
                0,
                0,
            ) + at(1, 0) + at(-1, 1) + at(0, 1) + at(1, 1)) / 9
        }),
{
    reveal_with_fuel(score::area_sum, 4);
    reveal_with_fuel(score::row_sum, 4);
    let f = |a: int, b: int| score::at(px, stride, r.x + a, r.y + b);
    let (x0, x1) = (eye::before(x), eye::after(x, r.w as int));
    let (y0, y1) = (eye::before(y), eye::after(y, r.h as int));
    assert((x1 - x0 + 1) * (y1 - y0 + 1) == 9) by (nonlinear_arith)
        requires
            x1 - x0 == 2,
            y1 - y0 == 2,
    ;
    assert(f(x - 1, y - 1) == px[(r.y + y + -1) * stride + (r.x + x + -1)]);
    assert(f(x, y - 1) == px[(r.y + y + -1) * stride + (r.x + x + 0)]);
    assert(f(x + 1, y - 1) == px[(r.y + y + -1) * stride + (r.x + x + 1)]);
    assert(f(x - 1, y) == px[(r.y + y + 0) * stride + (r.x + x + -1)]);
    assert(f(x, y) == px[(r.y + y + 0) * stride + (r.x + x + 0)]);
    assert(f(x + 1, y) == px[(r.y + y + 0) * stride + (r.x + x + 1)]);
    assert(f(x - 1, y + 1) == px[(r.y + y + 1) * stride + (r.x + x + -1)]);
    assert(f(x, y + 1) == px[(r.y + y + 1) * stride + (r.x + x + 0)]);
    assert(f(x + 1, y + 1) == px[(r.y + y + 1) * stride + (r.x + x + 1)]);
    assert(score::area_sum(f, x - 1, x + 2, y - 1, y + 2) == f(x - 1, y - 1) + f(x, y - 1) + f(
        x + 1,
        y - 1,
    ) + f(x - 1, y) + f(x, y) + f(x + 1, y) + f(x - 1, y + 1) + f(x, y + 1) + f(x + 1, y + 1));
}

/// Smoothing leaves even ground as it is, up to the edge of the window.
pub proof fn smoothing_leaves_even_ground(
    px: Seq<u8>,
    stride: int,
    r: Rect,
    x: int,
    y: int,
    c: int,
)
    requires
        0 <= x < r.w,
        0 <= y < r.h,
        forall|i: int, j: int|
            0 <= i < r.w && 0 <= j < r.h ==> #[trigger] px[(r.y + j) * stride + (r.x + i)] == c,
    ensures
        window_mean(px, stride, r, x, y) == c,
{
    let f = |a: int, b: int| score::at(px, stride, r.x + a, r.y + b);
    let (x0, x1) = (eye::before(x), eye::after(x, r.w as int));
    let (y0, y1) = (eye::before(y), eye::after(y, r.h as int));
    assert forall|a: int, b: int| x0 <= a < x1 + 1 && y0 <= b < y1 + 1 implies #[trigger] f(a, b)
        == c by {
        assert(px[(r.y + b) * stride + (r.x + a)] == c);
    }
    score::lemma_area_even(f, c, x0, x1 + 1, y0, y1 + 1);
    let k = (x1 - x0 + 1) * (y1 - y0 + 1);
    assert(k >= 1) by (nonlinear_arith)
        requires
            k == (x1 - x0 + 1) * (y1 - y0 + 1),
            x0 <= x1,
            y0 <= y1,
    ;
    assert((k * c) / k == c) by (nonlinear_arith)
        requires
            k >= 1,
    ;
}

/// The seed that is picked lies off the edge of the window, has a cost, and
/// was not taken out of the search.
pub proof fn seeds_lie_inside(
    w: int,
    h: int,
    costs: Seq<Option<Real32>>,
    excluded: Seq<bool>,
    k: int,
)
    ensures
        cheapest(w, h, costs, excluded, k) matches Some(i) ==> 0 <= i < k && i % w != 0 && i % w != w
            - 1 && i / w != 0 && i / w != h - 1 && costs[i] is Some && !excluded[i],
{
    lemma_cheapest_candidate(w, h, costs, excluded, k);
}

} // verus!
