//! Canon MakerNote: the AF area the camera used (AFInfo2). On mirrorless
//! bodies with subject detection this is the eye/face/body frame, which
//! gives the focus point per frame without any tracking.

use vstd::prelude::*;
use super::tiff;
use super::tiff::Tiff;
use crate::meta::{AfBox, FileMeta};
use crate::meta;

verus! {

pub const TAG_AF_INFO2: u16 = 0x0026;

/// The AF area recorded by the AFInfo2 entries of `es`: that of the last one
/// whose words can be read, else `old_box`.
pub open spec fn af_of_entries(
    t: tiff::TiffView,
    es: Seq<tiff::EntryView>,
    old_box: Option<AfBox>,
) -> Option<AfBox>
    decreases es.len(),
{
    if es.len() == 0 {
        old_box
    } else if es.last().tag == TAG_AF_INFO2 && t.words(es.last()) is Some {
        af_area(t.words(es.last())->0)
    } else {
        af_of_entries(t, es.drop_last(), old_box)
    }
}

/// Walk the Canon MakerNote IFD at `ifd` (JPEG/CR2: the 0x927C value offset
/// inside the EXIF TIFF; CR3: CMT3's first IFD) and record the AF box.
pub fn apply_makernote(t: &Tiff, ifd: u32, meta: &mut FileMeta)
    ensures
        final(meta)@ == (meta::MetaView {
            af_box: af_of_entries(t@, t@.entries(ifd as int), old(meta)@.af_box),
            ..old(meta)@
        }),
{
    let (entries, _) = t.ifd(ifd);
    let ghost es = t@.entries(ifd as int);
    let ghost m0 = meta@;
    let mut i: usize = 0;
    assert(es.take(0) =~= Seq::<tiff::EntryView>::empty());
    while i < entries.len()
        invariant
            i <= entries.len(),
            tiff::entry_views(entries@) == es,
            meta@ == (meta::MetaView {
                af_box: af_of_entries(t@, es.take(i as int), m0.af_box),
                ..m0
            }),
        decreases entries.len() - i,
    {
        let e = &entries[i];
        assert(e@ == es[i as int]);
        assert(es.take(i + 1).drop_last() =~= es.take(i as int));
        if e.tag == TAG_AF_INFO2 {
            if let Some(words) = t.u16s(e) {
                meta.af_box = af_box_from_words(&words);
            }
        }
        i += 1;
    }
    assert(es.take(es.len() as int) =~= es);
}

/// Number of AF points that the words claim to describe.
pub open spec fn point_count(w: Seq<u16>) -> int {
    w[2] as int
}

/// Words of AFInfo2 that are complete: the size word agrees with their
/// number, the AF frame is not empty, and all points and their focus bits
/// are there.
pub open spec fn complete(w: Seq<u16>) -> bool {
    &&& w.len() >= 8
    &&& w[0] == 2 * w.len()
    &&& w[6] > 0 && w[7] > 0
    &&& w.len() >= 8 + 4 * point_count(w) + (point_count(w) + 15) / 16
}

/// Whether AF point `i` is an area, that is neither side of it is 0.
pub open spec fn is_area(w: Seq<u16>, i: int) -> bool {
    w[8 + i] != 0 && w[8 + point_count(w) + i] != 0
}

/// The AF points below `k` that are areas, in order.
pub open spec fn areas(w: Seq<u16>, k: int) -> Seq<int> {
    Seq::new(k as nat, |i: int| i).filter(|i: int| is_area(w, i))
}

/// Whether AF point `i` was in focus: its bit among the in-focus words.
pub open spec fn in_focus(w: Seq<u16>, i: int) -> bool {
    (w[8 + 4 * point_count(w) + i / 16] >> ((i % 16) as u16)) & 1u16 == 1u16
}

/// The first of `a` that was in focus.
pub open spec fn first_in_focus(w: Seq<u16>, a: Seq<int>) -> Option<int>
    decreases a.len(),
{
    if a.len() == 0 {
        None
    } else if in_focus(w, a[0]) {
        Some(a[0])
    } else {
        first_in_focus(w, a.drop_first())
    }
}

/// The AF area that AFInfo2 words describe: one to three areas are a subject
/// frame, of which the first in focus counts, else the first.
pub open spec fn af_area(w: Seq<u16>) -> Option<AfBox> {
    if !complete(w) {
        None
    } else {
        let n = point_count(w);
        let a = areas(w, n);
        if 1 <= a.len() <= 3 {
            let i = match first_in_focus(w, a) {
                Some(i) => i,
                None => a[0],
            };
            Some(
                AfBox {
                    x: w[8 + 2 * n + i] as i16,
                    y: w[8 + 3 * n + i] as i16,
                    w: w[8 + i],
                    h: w[8 + n + i],
                    af_w: w[6],
                    af_h: w[7],
                    mode: w[1],
                },
            )
        } else {
            None
        }
    }
}

proof fn lemma_areas_step(w: Seq<u16>, k: int)
    requires
        0 <= k,
    ensures
        areas(w, 0) == Seq::<int>::empty(),
        is_area(w, k) ==> areas(w, k + 1) == areas(w, k).push(k),
        !is_area(w, k) ==> areas(w, k + 1) == areas(w, k),
{
    reveal(Seq::filter);
    let p = |i: int| is_area(w, i);
    let s = Seq::new((k + 1) as nat, |i: int| i);
    let z = Seq::new(0, |i: int| i);
    assert(z.filter(p) =~= Seq::<int>::empty());
    assert(s.drop_last() =~= Seq::new(k as nat, |i: int| i));
    assert(s.last() == k);
}

/// AFInfo2 words: `[size, mode, npts, valid, cimg_w, cimg_h, af_w, af_h,
/// widths[npts], heights[npts], xs[npts], ys[npts], in_focus bits, selected
/// bits, ...]`. Positions are i16 relative to the image centre with +Y up, in
/// the stored (unrotated) frame. One to three non-zero areas is a subject
/// frame; dozens is a DSLR point grid, which says nothing about the subject.
pub fn af_box_from_words(w: &[u16]) -> (r: Option<AfBox>)
    ensures
        r == af_area(w@),
{
    if w.len() < 8 || w.len() > 0x7fff || w[0] as usize != 2 * w.len() {
        return None;
    }
    let mode: u16 = w[1];
    let n: usize = w[2] as usize;
    let bits: usize = (n + 15) / 16;
    if w[6] == 0 || w[7] == 0 || w.len() < 8 + 4 * n + bits {
        return None;
    }
    let mut found: Vec<usize> = Vec::new();
    let mut i: usize = 0;
    proof {
        lemma_areas_step(w@, 0);
    }
    while i < n
        invariant
            i <= n,
            n == point_count(w@),
            complete(w@),
            found@.map_values(|x: usize| x as int) == areas(w@, i as int),
            forall|j: int| 0 <= j < found.len() ==> found[j] < i,
        decreases n - i,
    {
        proof {
            lemma_areas_step(w@, i as int);
        }
        let ghost before = found@;
        if w[8 + i] != 0 && w[8 + n + i] != 0 {
            found.push(i);
            assert(found@.map_values(|x: usize| x as int) =~= before.map_values(
                |x: usize| x as int,
            ).push(i as int));
        }
        i += 1;
    }
    let ghost a = areas(w@, n as int);
    assert(a.len() == found.len());
    if found.len() == 0 || found.len() > 3 {
        return None;
    }
    let mut k: usize = 0;
    assert(a.skip(0) =~= a);
    while k < found.len() && (w[8 + 4 * n + found[k] / 16] >> ((found[k] % 16) as u16)) & 1u16
        != 1u16
        invariant
            k <= found.len(),
            n == point_count(w@),
            complete(w@),
            a == found@.map_values(|x: usize| x as int),
            forall|j: int| 0 <= j < found.len() ==> found[j] < n,
            first_in_focus(w@, a) == first_in_focus(w@, a.skip(k as int)),
        decreases found.len() - k,
    {
        assert(a.skip(k as int)[0] == found[k as int]);
        assert(a.skip(k as int).drop_first() =~= a.skip(k + 1));
        k += 1;
    }
    assert(k < found.len() ==> a.skip(k as int)[0] == found[k as int]);
    assert(a[0] == found[0]);
    let c: usize = if k < found.len() {
        found[k]
    } else {
        found[0]
    };
    Some(
        AfBox {
            x: w[8 + 2 * n + c] as i16,
            y: w[8 + 3 * n + c] as i16,
            w: w[8 + c],
            h: w[8 + n + c],
            af_w: w[6],
            af_h: w[7],
            mode,
        },
    )
}

proof fn lemma_first_in_focus(w: Seq<u16>, a: Seq<int>)
    ensures
        match first_in_focus(w, a) {
            Some(i) => exists|k: int|
                0 <= k < a.len() && #[trigger] a[k] == i && in_focus(w, a[k]) && forall|j: int|
                    0 <= j < k ==> !in_focus(w, #[trigger] a[j]),
            None => forall|k: int| 0 <= k < a.len() ==> !in_focus(w, #[trigger] a[k]),
        },
    decreases a.len(),
{
    if a.len() > 0 {
        let rest = a.drop_first();
        if in_focus(w, a[0]) {
            assert(a[0] == first_in_focus(w, a)->0);
        } else {
            lemma_first_in_focus(w, rest);
            match first_in_focus(w, rest) {
                Some(i) => {
                    let k = choose|k: int|
                        0 <= k < rest.len() && #[trigger] rest[k] == i && in_focus(w, rest[k])
                            && forall|j: int| 0 <= j < k ==> !in_focus(w, #[trigger] rest[j]);
                    assert(a[k + 1] == i);
                    assert forall|j: int| 0 <= j < k + 1 implies !in_focus(w, #[trigger] a[j]) by {
                        if j > 0 {
                            assert(rest[j - 1] == a[j]);
                        }
                    }
                },
                None => {
                    assert forall|k: int| 0 <= k < a.len() implies !in_focus(
                        w,
                        #[trigger] a[k],
                    ) by {
                        if k > 0 {
                            assert(rest[k - 1] == a[k]);
                        }
                    }
                },
            }
        }
    }
}

proof fn lemma_areas(w: Seq<u16>, k: int)
    requires
        0 <= k,
    ensures
        forall|j: int|
            0 <= j < areas(w, k).len() ==> 0 <= #[trigger] areas(w, k)[j] < k && is_area(
                w,
                areas(w, k)[j],
            ),
        forall|i: int| 0 <= i < k && is_area(w, i) ==> #[trigger] areas(w, k).contains(i),
        forall|i: int, j: int|
            0 <= i < j < areas(w, k).len() ==> #[trigger] areas(w, k)[i] < #[trigger] areas(w, k)[j],
        areas(w, k).len() == Set::new(|i: int| 0 <= i < k && is_area(w, i)).len(),
        Set::new(|i: int| 0 <= i < k && is_area(w, i)).finite(),
    decreases k,
{
    let area = |i: int| is_area(w, i);
    let all = Seq::new(k as nat, |i: int| i);
    let those = Set::new(|i: int| 0 <= i < k && is_area(w, i));
    reveal(Seq::filter);
    if k > 0 {
        lemma_areas(w, k - 1);
        let rest = areas(w, k - 1);
        let before = Set::new(|i: int| 0 <= i < k - 1 && is_area(w, i));
        assert(all.drop_last() =~= Seq::new((k - 1) as nat, |i: int| i));
        assert(areas(w, k) == if is_area(w, k - 1) {
            rest.push(k - 1)
        } else {
            rest
        });
        if is_area(w, k - 1) {
            assert(those =~= before.insert(k - 1));
        } else {
            assert(those =~= before);
        }
        assert forall|i: int| 0 <= i < k && is_area(w, i) implies #[trigger] areas(w, k).contains(
            i,
        ) by {
            if i < k - 1 {
                assert(rest.contains(i));
                let j = choose|j: int| 0 <= j < rest.len() && rest[j] == i;
                assert(areas(w, k)[j] == i);
            } else {
                assert(areas(w, k)[areas(w, k).len() - 1] == i);
            }
        }
    } else {
        assert(all =~= Seq::<int>::empty());
        assert(those =~= Set::empty());
    }
}

/// The AF area is that of a point (the result) that is an area, where there
/// are one to three of them: the first in focus, or the first where none is.
/// Its corner, size and frame are those of the point.
pub proof fn the_focused_area_is_taken(w: Seq<u16>) -> (i: int)
    requires
        complete(w),
    ensures
        ({
            let n = w[2] as int;
            let those = Set::new(|k: int| 0 <= k < n && is_area(w, k));
            &&& af_area(w) is Some <==> 1 <= those.len() <= 3
            &&& af_area(w) matches Some(b) ==> {
                &&& 0 <= i < n
                &&& b.w == w[8 + i] && b.h == w[8 + n + i] && b.w != 0 && b.h != 0
                &&& b.x == w[8 + 2 * n + i] as i16 && b.y == w[8 + 3 * n + i] as i16
                &&& b.af_w == w[6] && b.af_h == w[7] && b.mode == w[1]
                &&& forall|k: int|
                    0 <= k < i && #[trigger] is_area(w, k) ==> !in_focus(w, k)
                &&& in_focus(w, i) || forall|k: int|
                    0 <= k < n && #[trigger] is_area(w, k) ==> !in_focus(w, k) && i <= k
            }
        }),
{
    let n = point_count(w);
    let a = areas(w, n);
    lemma_areas(w, n);
    lemma_first_in_focus(w, a);
    assert(Set::new(|k: int| 0 <= k < n && is_area(w, k)) =~= Set::new(
        |k: int| 0 <= k < w[2] as int && is_area(w, k),
    ));
    let i = match first_in_focus(w, a) {
        Some(i) => i,
        None => a[0],
    };
    if 1 <= a.len() <= 3 {
        assert forall|k: int| 0 <= k < i && #[trigger] is_area(w, k) implies !in_focus(w, k) by {
            assert(a.contains(k));
            let j = choose|j: int| 0 <= j < a.len() && a[j] == k;
            assert(a[j] == k);
        }
        assert(in_focus(w, i) || forall|k: int|
            0 <= k < n && #[trigger] is_area(w, k) ==> !in_focus(w, k) && i <= k) by {
            if first_in_focus(w, a) is None {
                assert forall|k: int| 0 <= k < n && #[trigger] is_area(w, k) implies !in_focus(
                    w,
                    k,
                ) && i <= k by {
                    assert(a.contains(k));
                    let j = choose|j: int| 0 <= j < a.len() && a[j] == k;
                    assert(a[j] == k);
                    if j > 0 {
                        assert(a[0] < a[j]);
                    }
                }
            }
        }
        assert(a[0] == a[0] && is_area(w, i));
    }
    i
}

/// The AF entries that can be read say where the camera focused; of several
/// the last one does.
pub proof fn the_last_af_entry_counts(
    t: tiff::TiffView,
    es: Seq<tiff::EntryView>,
    old_box: Option<AfBox>,
    i: int,
)
    requires
        0 <= i < es.len(),
        es[i].tag == 0x0026,
        t.words(es[i]) is Some,
        forall|j: int|
            i < j < es.len() ==> (#[trigger] es[j]).tag != 0x0026 || t.words(es[j]) is None,
    ensures
        af_of_entries(t, es, old_box) == af_area(t.words(es[i])->0),
    decreases es.len(),
{
    if i < es.len() - 1 {
        assert(es[es.len() - 1].tag != 0x0026 || t.words(es[es.len() - 1]) is None);
        let rest = es.drop_last();
        assert forall|j: int| i < j < rest.len() implies (#[trigger] rest[j]).tag != 0x0026
            || t.words(rest[j]) is None by {
            assert(rest[j] == es[j]);
        }
        the_last_af_entry_counts(t, rest, old_box, i);
    }
}

} // verus!
