//! Stable sorting of positions.

use vstd::prelude::*;

verus! {

/// An order of the positions of some list. Positions that neither come before
/// the other rank alike.
pub trait Ranking {
    /// Whether what stands at `a` ranks before what stands at `b`.
    spec fn ahead(&self, a: int, b: int) -> bool;

    /// Whether `a` is a position of the list.
    spec fn has(&self, a: int) -> bool;

    /// Ranking is a strict weak order.
    proof fn is_order(&self, a: int, b: int, c: int)
        requires
            self.has(a),
            self.has(b),
            self.has(c),
        ensures
            !self.ahead(a, a),
            self.ahead(a, b) && self.ahead(b, c) ==> self.ahead(a, c),
            !self.ahead(a, b) && !self.ahead(b, c) ==> !self.ahead(a, c),
    ;

    /// Whether what stands at `a` ranks before what stands at `b`.
    fn is_ahead(&self, a: usize, b: usize) -> (r: bool)
        requires
            self.has(a as int),
            self.has(b as int),
        ensures
            r == self.ahead(a as int, b as int),
    ;
}

/// Whether `a` comes before `b` in a stable sort: it ranks before it, or they
/// rank alike and it stands before it.
pub open spec fn precedes<R: Ranking>(r: &R, a: int, b: int) -> bool {
    r.ahead(a, b) || (!r.ahead(b, a) && a < b)
}

/// Whether `s` lists the positions `lo..hi`, each once, in stable order.
pub open spec fn is_sorted<R: Ranking>(r: &R, s: Seq<usize>, lo: int, hi: int) -> bool {
    &&& s.len() == hi - lo
    &&& forall|i: int| 0 <= i < s.len() ==> lo <= #[trigger] s[i] < hi
    &&& forall|i: int, j: int|
        0 <= i < j < s.len() ==> precedes(r, #[trigger] s[i] as int, #[trigger] s[j] as int)
    &&& forall|p: int| lo <= p < hi ==> #[trigger] s.contains(p as usize)
}

proof fn lemma_precedes<R: Ranking>(r: &R, a: int, b: int, c: int)
    requires
        r.has(a),
        r.has(b),
        r.has(c),
    ensures
        !precedes(r, a, a),
        precedes(r, a, b) && precedes(r, b, c) ==> precedes(r, a, c),
        precedes(r, a, b) || precedes(r, b, a) || a == b,
{
    r.is_order(a, b, c);
    r.is_order(a, c, b);
    r.is_order(b, a, c);
    r.is_order(b, c, a);
    r.is_order(c, a, b);
    r.is_order(c, b, a);
}

/// There is only one way to sort.
pub proof fn stable_order_is_unique<R: Ranking>(
    r: &R,
    s: Seq<usize>,
    t: Seq<usize>,
    lo: int,
    hi: int,
)
    requires
        0 <= lo <= hi <= usize::MAX,
        forall|p: int| lo <= p < hi ==> r.has(p),
        is_sorted(r, s, lo, hi),
        is_sorted(r, t, lo, hi),
    ensures
        s == t,
{
    assert forall|k: int| 0 <= k < s.len() implies s[k] == t[k] by {
        lemma_same_prefix(r, s, t, lo, hi, k);
    }
    assert(s =~= t);
}

proof fn lemma_same_prefix<R: Ranking>(
    r: &R,
    s: Seq<usize>,
    t: Seq<usize>,
    lo: int,
    hi: int,
    k: int,
)
    requires
        0 <= lo <= hi <= usize::MAX,
        forall|p: int| lo <= p < hi ==> r.has(p),
        is_sorted(r, s, lo, hi),
        is_sorted(r, t, lo, hi),
        0 <= k < s.len(),
    ensures
        s[k] == t[k],
    decreases k,
{
    assert forall|i: int| 0 <= i < k implies s[i] == t[i] by {
        lemma_same_prefix(r, s, t, lo, hi, i);
    }
    let (a, b) = (s[k] as int, t[k] as int);
    if a != b {
        // Each stands further on in the other list.
        assert(t.contains(a as usize));
        assert(s.contains(b as usize));
        let i = choose|i: int| 0 <= i < t.len() && t[i] == a as usize;
        let j = choose|j: int| 0 <= j < s.len() && s[j] == b as usize;
        if i < k {
            assert(s[i] == t[i]);
            assert(precedes(r, s[i] as int, s[k] as int));
            lemma_precedes(r, a, a, a);
        } else if j < k {
            assert(s[j] == t[j]);
            assert(precedes(r, t[j] as int, t[k] as int));
            lemma_precedes(r, b, b, b);
        } else {
            assert(precedes(r, t[k] as int, t[i] as int));
            assert(precedes(r, s[k] as int, s[j] as int));
            lemma_precedes(r, a, b, a);
        }
    }
}

fn goes_first<R: Ranking>(r: &R, a: usize, b: usize) -> (f: bool)
    requires
        r.has(a as int),
        r.has(b as int),
    ensures
        f == precedes(r, a as int, b as int),
{
    r.is_ahead(a, b) || (!r.is_ahead(b, a) && a < b)
}

/// Whether every element of `s` precedes every element of `t` from `from` on.
spec fn all_before<R: Ranking>(r: &R, s: Seq<usize>, t: Seq<usize>, from: int) -> bool {
    forall|i: int, j: int|
        0 <= i < s.len() && from <= j < t.len() ==> precedes(
            r,
            #[trigger] s[i] as int,
            #[trigger] t[j] as int,
        )
}

/// Merges the sorted positions `lo..mid` and `mid..hi`.
fn merge<R: Ranking>(r: &R, a: &Vec<usize>, b: &Vec<usize>, lo: usize, mid: usize, hi: usize) -> (m:
    Vec<usize>)
    requires
        lo <= mid <= hi,
        forall|p: int| lo <= p < hi ==> r.has(p),
        is_sorted(r, a@, lo as int, mid as int),
        is_sorted(r, b@, mid as int, hi as int),
    ensures
        is_sorted(r, m@, lo as int, hi as int),
{
    let mut out: Vec<usize> = Vec::new();
    let mut i: usize = 0;
    let mut j: usize = 0;
    while i < a.len() || j < b.len()
        invariant
            lo <= mid <= hi,
            forall|p: int| lo <= p < hi ==> r.has(p),
            is_sorted(r, a@, lo as int, mid as int),
            is_sorted(r, b@, mid as int, hi as int),
            i <= a@.len(),
            j <= b@.len(),
            out@.len() == i + j,
            forall|k: int| 0 <= k < out@.len() ==> lo <= #[trigger] out@[k] < hi,
            forall|k: int, l: int|
                0 <= k < l < out@.len() ==> precedes(
                    r,
                    #[trigger] out@[k] as int,
                    #[trigger] out@[l] as int,
                ),
            all_before(r, out@, a@, i as int),
            all_before(r, out@, b@, j as int),
            forall|k: int| 0 <= k < i ==> out@.contains(#[trigger] a@[k]),
            forall|k: int| 0 <= k < j ==> out@.contains(#[trigger] b@[k]),
        decreases a@.len() - i + b@.len() - j,
    {
        let take_a = if j >= b.len() {
            true
        } else if i >= a.len() {
            false
        } else {
            goes_first(r, a[i], b[j])
        };
        let ghost before = out@;
        let x: usize = if take_a {
            a[i]
        } else {
            b[j]
        };
        proof {
            // What is left of either list comes after `x`.
            assert forall|k: int| (if take_a {
                i + 1
            } else {
                i as int
            }) <= k < a@.len() implies precedes(r, x as int, #[trigger] a@[k] as int) by {
                if !take_a {
                    lemma_precedes(r, a@[i as int] as int, x as int, x as int);
                    lemma_precedes(r, x as int, a@[i as int] as int, a@[k] as int);
                }
            }
            assert forall|k: int| (if take_a {
                j as int
            } else {
                j + 1
            }) <= k < b@.len() implies precedes(r, x as int, #[trigger] b@[k] as int) by {
                if take_a {
                    lemma_precedes(r, x as int, b@[j as int] as int, b@[k] as int);
                }
            }
        }
        out.push(x);
        assert(out@[before.len() as int] == x);
        assert forall|y: usize| before.contains(y) implies #[trigger] out@.contains(y) by {
            let k = choose|k: int| 0 <= k < before.len() && before[k] == y;
            assert(out@[k] == y);
        }
        if take_a {
            i += 1;
        } else {
            j += 1;
        }
    }
    proof {
        assert forall|p: int| lo <= p < hi implies #[trigger] out@.contains(p as usize) by {
            if p < mid {
                assert(a@.contains(p as usize));
                let k = choose|k: int| 0 <= k < a@.len() && a@[k] == p as usize;
                assert(out@.contains(a@[k]));
            } else {
                assert(b@.contains(p as usize));
                let k = choose|k: int| 0 <= k < b@.len() && b@[k] == p as usize;
                assert(out@.contains(b@[k]));
            }
        }
    }
    out
}

/// The positions `lo..hi` in stable order.
pub fn sorted_positions<R: Ranking>(r: &R, lo: usize, hi: usize) -> (s: Vec<usize>)
    requires
        lo <= hi,
        forall|p: int| lo <= p < hi ==> r.has(p),
    ensures
        is_sorted(r, s@, lo as int, hi as int),
    decreases hi - lo,
{
    if hi - lo <= 1 {
        let mut s: Vec<usize> = Vec::new();
        if lo < hi {
            s.push(lo);
            assert(s@[0] == lo);
            assert forall|p: int| lo <= p < hi implies #[trigger] s@.contains(p as usize) by {
                assert(p == lo);
            }
        }
        return s;
    }
    let mid: usize = lo + (hi - lo) / 2;
    let a = sorted_positions(r, lo, mid);
    let b = sorted_positions(r, mid, hi);
    merge(r, &a, &b, lo, mid, hi)
}

} // verus!
