//! Burst grouping: pair RAW+JPEG into logical images, then split the
//! timeline into bursts wherever the inter-frame gap exceeds a threshold.

use vstd::prelude::*;
use crate::meta;
use crate::meta::{FileKind, FileMeta};
use crate::path;
use crate::sort;
use crate::sort::Ranking;
use crate::text;

verus! {

/// One picture as the photographer thinks of it: a RAW and/or its paired
/// JPEG (same stem, same second). Indices point into the scanned meta slice.
#[derive(Debug, Clone, Copy, PartialEq, Eq, Structural)]
pub struct LogicalImage {
    pub raw: Option<usize>,
    pub jpeg: Option<usize>,
}

impl LogicalImage {
    /// There is a file for the picture.
    pub open spec fn wf(self) -> bool {
        self.raw is Some || self.jpeg is Some
    }

    /// Preferred index for metadata/preview work.
    pub open spec fn lead(self) -> usize {
        match self.raw {
            Some(i) => i,
            None => self.jpeg->0,
        }
    }

    /// The files of the picture are among the first `n`.
    pub open spec fn exists_in(self, n: int) -> bool {
        (self.raw is Some ==> self.raw->0 < n) && (self.jpeg is Some ==> self.jpeg->0 < n)
    }

    /// All indices, the RAW first.
    pub open spec fn files(self) -> Seq<usize> {
        match (self.raw, self.jpeg) {
            (Some(a), Some(b)) => seq![a, b],
            (Some(a), None) => seq![a],
            (None, Some(b)) => seq![b],
            (None, None) => seq![],
        }
    }

    /// Preferred index for metadata/preview work (RAW wins: better subsec
    /// fidelity and the cheap 1620px preview).
    pub fn primary(&self) -> (r: usize)
        requires
            self.wf(),
        ensures
            r == self.lead(),
    {
        match self.raw {
            Some(i) => i,
            None => self.jpeg.unwrap(),
        }
    }

    /// All indices, the RAW first.
    pub fn indices(&self) -> (r: Vec<usize>)
        ensures
            r@ == self.files(),
    {
        let mut out: Vec<usize> = Vec::new();
        if let Some(i) = self.raw {
            out.push(i);
        }
        if let Some(i) = self.jpeg {
            out.push(i);
        }
        assert(out@ =~= self.files());
        out
    }
}

#[derive(Debug)]
pub struct Burst {
    pub images: Vec<LogicalImage>,
}

/// Whether the pictures have files, and all of these are among `n`.
pub open spec fn valid_images(images: Seq<LogicalImage>, n: int) -> bool {
    forall|i: int|
        0 <= i < images.len() ==> (#[trigger] images[i]).wf() && images[i].exists_in(n)
}

/// Capture times of the first `k` pictures that have one.
pub open spec fn times(metas: Seq<FileMeta>, images: Seq<LogicalImage>, k: int) -> Seq<i64>
    decreases k,
{
    if k <= 0 {
        Seq::empty()
    } else {
        let rest = times(metas, images, k - 1);
        match metas[images[k - 1].lead() as int].ts {
            Some(t) => rest.push(t.unix_centis),
            None => rest,
        }
    }
}

/// The least of `s`, which is not empty.
pub open spec fn least(s: Seq<i64>) -> int
    decreases s.len(),
{
    if s.len() <= 1 {
        s[0] as int
    } else {
        let m = least(s.drop_last());
        if s.last() < m {
            s.last() as int
        } else {
            m
        }
    }
}

/// The greatest of `s`, which is not empty.
pub open spec fn greatest(s: Seq<i64>) -> int
    decreases s.len(),
{
    if s.len() <= 1 {
        s[0] as int
    } else {
        let m = greatest(s.drop_last());
        if s.last() > m {
            s.last() as int
        } else {
            m
        }
    }
}

/// Time from the first to the last of `s`; 0 where there is none.
pub open spec fn span(s: Seq<i64>) -> int {
    if s.len() == 0 {
        0
    } else {
        greatest(s) - least(s)
    }
}

impl Burst {
    /// Time from the first to the last picture that has a time.
    pub fn span_centis(&self, metas: &Vec<FileMeta>) -> (r: i64)
        requires
            valid_images(self.images@, metas@.len() as int),
            span(times(metas@, self.images@, self.images@.len() as int)) <= i64::MAX,
        ensures
            r == span(times(metas@, self.images@, self.images@.len() as int)),
    {
        let mut found: Option<(i64, i64)> = None;
        let mut i: usize = 0;
        while i < self.images.len()
            invariant
                i <= self.images@.len(),
                valid_images(self.images@, metas@.len() as int),
                ({
                    let t = times(metas@, self.images@, i as int);
                    match found {
                        Some((a, b)) => t.len() > 0 && a == least(t) && b == greatest(t),
                        None => t.len() == 0,
                    }
                }),
            decreases self.images@.len() - i,
        {
            let k: usize = self.images[i].primary();
            let ghost t = times(metas@, self.images@, i as int);
            if let Some(ts) = metas[k].ts {
                let c: i64 = ts.unix_centis;
                assert(t.push(c).drop_last() =~= t);
                found = match found {
                    Some((a, b)) => Some(
                        (
                            if c < a {
                                c
                            } else {
                                a
                            },
                            if c > b {
                                c
                            } else {
                                b
                            },
                        ),
                    ),
                    None => Some((c, c)),
                };
            }
            i += 1;
        }
        match found {
            Some((a, b)) => {
                proof {
                    lemma_least(times(metas@, self.images@, self.images@.len() as int));
                }
                b - a
            },
            None => 0,
        }
    }
}

proof fn lemma_least(s: Seq<i64>)
    requires
        s.len() > 0,
    ensures
        least(s) <= greatest(s),
    decreases s.len(),
{
    if s.len() > 1 {
        lemma_least(s.drop_last());
    }
}

/// What the files of one picture have in common.
#[verifier::ext_equal]
pub struct PairKey {
    /// File stem, in lower case.
    pub stem: Seq<char>,
    /// Second of the capture; nothing where its time is not known.
    pub second: Option<i64>,
}

/// A `PairKey` of a scanned file.
pub struct FileKey {
    pub stem: Vec<char>,
    pub second: Option<i64>,
}

impl View for FileKey {
    type V = PairKey;

    open spec fn view(&self) -> PairKey {
        PairKey { stem: self.stem@, second: self.second }
    }
}

impl FileKey {
    /// Whether two files belong together.
    fn is_key(&self, other: &FileKey) -> (r: bool)
        ensures
            r == (self@ == other@),
    {
        let at_once = match (self.second, other.second) {
            (Some(a), Some(b)) => a == b,
            (None, None) => true,
            _ => false,
        };
        at_once && text::chars_eq(&self.stem, &other.stem)
    }
}

/// Whether no earlier key equals key `i`.
pub open spec fn is_first(keys: Seq<PairKey>, i: int) -> bool {
    forall|j: int| 0 <= j < i ==> #[trigger] keys[j] != keys[i]
}

/// The positions among the first `n` at which a key occurs for the first
/// time.
pub open spec fn first_positions(keys: Seq<PairKey>, n: int) -> Seq<int>
    decreases n,
{
    if n <= 0 {
        Seq::empty()
    } else if is_first(keys, n - 1) {
        first_positions(keys, n - 1).push(n - 1)
    } else {
        first_positions(keys, n - 1)
    }
}

/// The first of the first `n` files with the given key that is a JPEG, or
/// that is none.
pub open spec fn first_file(
    keys: Seq<PairKey>,
    kinds: Seq<FileKind>,
    key: PairKey,
    jpeg: bool,
    n: int,
) -> Option<usize>
    decreases n,
{
    if n <= 0 {
        None
    } else {
        match first_file(keys, kinds, key, jpeg, n - 1) {
            Some(i) => Some(i),
            None => if keys[n - 1] == key && (kinds[n - 1] == FileKind::Jpeg) == jpeg {
                Some((n - 1) as usize)
            } else {
                None
            },
        }
    }
}

/// The picture that the first `n` files with the given key make up.
pub open spec fn picture(
    keys: Seq<PairKey>,
    kinds: Seq<FileKind>,
    key: PairKey,
    n: int,
) -> LogicalImage {
    LogicalImage {
        raw: first_file(keys, kinds, key, false, n),
        jpeg: first_file(keys, kinds, key, true, n),
    }
}

/// The pictures of a list of files: one for each key, in the order in which
/// the keys first occur.
pub open spec fn pictures(keys: Seq<PairKey>, kinds: Seq<FileKind>) -> Seq<LogicalImage> {
    let n = keys.len() as int;
    let firsts = first_positions(keys, n);
    Seq::new(firsts.len(), |k: int| picture(keys, kinds, keys[firsts[k]], n))
}

/// The values of a list of keys.
pub open spec fn key_views(v: Seq<FileKey>) -> Seq<PairKey> {
    Seq::new(v.len(), |i: int| v[i]@)
}

/// What holds after `i` files have been paired: `firsts` are the positions
/// at which keys first occurred, `out` the pictures so far.
spec fn pairing(
    ss: Seq<PairKey>,
    kinds: Seq<FileKind>,
    firsts: Seq<usize>,
    out: Seq<LogicalImage>,
    i: int,
) -> bool {
    &&& firsts.map_values(|x: usize| x as int) == first_positions(ss, i)
    &&& out.len() == firsts.len()
    &&& forall|k: int| 0 <= k < firsts.len() ==> #[trigger] firsts[k] < i
    &&& forall|k: int|
        0 <= k < out.len() ==> #[trigger] out[k] == picture(ss, kinds, ss[firsts[k] as int], i)
    &&& forall|k: int| 0 <= k < out.len() ==> (#[trigger] out[k]).wf() && out[k].exists_in(i)
    &&& forall|k: int, l: int|
        0 <= k < l < firsts.len() ==> ss[#[trigger] firsts[k] as int] != ss[#[trigger] firsts[l] as int]
    &&& forall|j: int| 0 <= j < i ==> seen(ss, firsts, #[trigger] ss[j])
}

/// Whether `key` is one of those at the positions `firsts`.
spec fn seen(ss: Seq<PairKey>, firsts: Seq<usize>, key: PairKey) -> bool {
    exists|k: int| 0 <= k < firsts.len() && ss[#[trigger] firsts[k] as int] == key
}

proof fn lemma_pair_new(
    ss: Seq<PairKey>,
    kinds: Seq<FileKind>,
    firsts: Seq<usize>,
    out: Seq<LogicalImage>,
    i: usize,
)
    requires
        i < ss.len(),
        kinds.len() == ss.len(),
        pairing(ss, kinds, firsts, out, i as int),
        forall|m: int| 0 <= m < firsts.len() ==> ss[#[trigger] firsts[m] as int] != ss[i as int],
    ensures
        pairing(
            ss,
            kinds,
            firsts.push(i),
            out.push(
                LogicalImage {
                    raw: if kinds[i as int] == FileKind::Jpeg {
                        None
                    } else {
                        Some(i)
                    },
                    jpeg: if kinds[i as int] == FileKind::Jpeg {
                        Some(i)
                    } else {
                        None
                    },
                },
            ),
            i + 1,
        ),
{
    assert(is_first(ss, i as int)) by {
        assert forall|j: int| 0 <= j < i implies #[trigger] ss[j] != ss[i as int] by {
            assert(seen(ss, firsts, ss[j]));
        }
    }
    assert forall|j: int| 0 <= j < i implies #[trigger] ss[j] != ss[i as int] by {}
    lemma_no_file(ss, kinds, ss[i as int], false, i as int);
    lemma_no_file(ss, kinds, ss[i as int], true, i as int);
    let f2 = firsts.push(i);
    assert(f2.map_values(|x: usize| x as int) =~= firsts.map_values(|x: usize| x as int).push(
        i as int,
    ));
    assert forall|j: int| 0 <= j < i + 1 implies seen(ss, f2, #[trigger] ss[j]) by {
        if j < i {
            assert(seen(ss, firsts, ss[j]));
            let k = choose|k: int| 0 <= k < firsts.len() && ss[#[trigger] firsts[k] as int] == ss[j];
            assert(f2[k] == firsts[k]);
        } else {
            assert(f2[firsts.len() as int] == i);
        }
    }
}

proof fn lemma_pair_old(
    ss: Seq<PairKey>,
    kinds: Seq<FileKind>,
    firsts: Seq<usize>,
    out: Seq<LogicalImage>,
    i: usize,
    k: int,
    img: LogicalImage,
)
    requires
        i < ss.len(),
        kinds.len() == ss.len(),
        pairing(ss, kinds, firsts, out, i as int),
        0 <= k < firsts.len(),
        ss[firsts[k] as int] == ss[i as int],
        img == picture(ss, kinds, ss[i as int], i + 1),
        img.wf(),
        img.exists_in(i + 1),
    ensures
        pairing(ss, kinds, firsts, out.update(k, img), i + 1),
{
    assert(!is_first(ss, i as int)) by {
        assert(ss[firsts[k] as int] == ss[i as int]);
    }
    let o2 = out.update(k, img);
    assert forall|m: int| 0 <= m < o2.len() implies #[trigger] o2[m] == picture(
        ss,
        kinds,
        ss[firsts[m] as int],
        i + 1,
    ) by {
        if m != k {
            assert(o2[m] == out[m]);
            if m < k {
                assert(ss[firsts[m] as int] != ss[firsts[k] as int]);
            } else {
                assert(ss[firsts[k] as int] != ss[firsts[m] as int]);
            }
        }
    }
    assert forall|m: int| 0 <= m < o2.len() implies (#[trigger] o2[m]).wf() && o2[m].exists_in(
        i + 1,
    ) by {
        if m != k {
            assert(o2[m] == out[m]);
        }
    }
    assert forall|j: int| 0 <= j < i + 1 implies seen(ss, firsts, #[trigger] ss[j]) by {
        if j == i {
            assert(ss[firsts[k] as int] == ss[j]);
        }
    }
}

/// Index of the first of the positions `firsts` with the key of file `i`;
/// their number where there is none.
fn find_key(keys: &Vec<FileKey>, firsts: &Vec<usize>, i: usize) -> (r: usize)
    requires
        i < keys@.len(),
        forall|m: int| 0 <= m < firsts@.len() ==> #[trigger] firsts@[m] < i,
    ensures
        r <= firsts@.len(),
        r < firsts@.len() ==> keys@[firsts@[r as int] as int]@ == keys@[i as int]@,
        forall|m: int| 0 <= m < r ==> keys@[#[trigger] firsts@[m] as int]@ != keys@[i as int]@,
{
    let mut k: usize = 0;
    while k < firsts.len() && !keys[firsts[k]].is_key(&keys[i])
        invariant
            i < keys@.len(),
            k <= firsts@.len(),
            forall|m: int| 0 <= m < firsts@.len() ==> #[trigger] firsts@[m] < i,
            forall|m: int| 0 <= m < k ==> keys@[#[trigger] firsts@[m] as int]@ != keys@[i as int]@,
        decreases firsts@.len() - k,
    {
        k += 1;
    }
    k
}

/// Pairs files by their keys.
pub fn pair_keys(keys: &Vec<FileKey>, kinds: &Vec<FileKind>) -> (r: Vec<LogicalImage>)
    requires
        keys@.len() == kinds@.len(),
    ensures
        r@ == pictures(key_views(keys@), kinds@),
        valid_images(r@, keys@.len() as int),
{
    let n: usize = keys.len();
    let ghost ss = key_views(keys@);
    let mut firsts: Vec<usize> = Vec::new();
    let mut out: Vec<LogicalImage> = Vec::new();
    let mut i: usize = 0;
    assert(firsts@.map_values(|x: usize| x as int) =~= first_positions(ss, 0));
    while i < n
        invariant
            i <= n,
            n == keys@.len(),
            n == kinds@.len(),
            ss == key_views(keys@),
            pairing(ss, kinds@, firsts@, out@, i as int),
        decreases n - i,
    {
        let k: usize = find_key(keys, &firsts, i);
        let is_jpeg = match kinds[i] {
            FileKind::Jpeg => true,
            _ => false,
        };
        if k == firsts.len() {
            proof {
                assert forall|m: int| 0 <= m < firsts@.len() implies ss[#[trigger] firsts@[m] as int]
                    != ss[i as int] by {}
                lemma_pair_new(ss, kinds@, firsts@, out@, i);
            }
            firsts.push(i);
            out.push(
                LogicalImage {
                    raw: if is_jpeg {
                        None
                    } else {
                        Some(i)
                    },
                    jpeg: if is_jpeg {
                        Some(i)
                    } else {
                        None
                    },
                },
            );
        } else {
            let mut img = out[k];
            if is_jpeg {
                if img.jpeg.is_none() {
                    img.jpeg = Some(i);
                }
            } else {
                if img.raw.is_none() {
                    img.raw = Some(i);
                }
            }
            proof {
                assert(ss[firsts@[k as int] as int] == ss[i as int]);
                assert(img == picture(ss, kinds@, ss[i as int], i + 1));
                lemma_pair_old(ss, kinds@, firsts@, out@, i, k as int, img);
            }
            out.set(k, img);
        }
        i += 1;
    }
    proof {
        let want = pictures(ss, kinds@);
        let fp = first_positions(ss, n as int);
        assert(fp.len() == firsts@.len());
        assert forall|k: int| 0 <= k < out@.len() implies out@[k] == want[k] by {
            assert(fp[k] == firsts@[k]);
        }
        assert(out@ =~= want);
    }
    out
}

proof fn lemma_no_file(
    keys: Seq<PairKey>,
    kinds: Seq<FileKind>,
    key: PairKey,
    jpeg: bool,
    n: int,
)
    requires
        forall|j: int| 0 <= j < n ==> #[trigger] keys[j] != key,
    ensures
        first_file(keys, kinds, key, jpeg, n) is None,
    decreases n,
{
    if n > 0 {
        lemma_no_file(keys, kinds, key, jpeg, n - 1);
        assert(keys[n - 1] != key);
    }
}

/// The positions at which keys first occur are some of the first `n`, with
/// keys that differ, and every key of those is at one of them.
#[verifier::rlimit(40)]
proof fn lemma_first_positions(keys: Seq<PairKey>, n: int)
    requires
        0 <= n <= keys.len(),
    ensures
        forall|k: int|
            0 <= k < first_positions(keys, n).len() ==> 0 <= #[trigger] first_positions(keys, n)[k]
                < n,
        forall|k: int, l: int|
            0 <= k < l < first_positions(keys, n).len() ==> keys[#[trigger] first_positions(
                keys,
                n,
            )[k]] != keys[#[trigger] first_positions(keys, n)[l]],
        forall|i: int|
            0 <= i < n ==> exists|k: int|
                0 <= k < first_positions(keys, n).len() && keys[#[trigger] first_positions(
                    keys,
                    n,
                )[k]] == #[trigger] keys[i],
    decreases n,
{
    if n > 0 {
        lemma_first_positions(keys, n - 1);
        let rest = first_positions(keys, n - 1);
        let all = first_positions(keys, n);
        assert forall|i: int| 0 <= i < n implies exists|k: int|
            0 <= k < all.len() && keys[#[trigger] all[k]] == #[trigger] keys[i] by {
            if i < n - 1 {
                let k = choose|k: int|
                    0 <= k < rest.len() && keys[#[trigger] rest[k]] == keys[i];
                assert(all[k] == rest[k]);
            } else if is_first(keys, n - 1) {
                assert(all[rest.len() as int] == n - 1);
            } else {
                let j = choose|j: int| 0 <= j < n - 1 && #[trigger] keys[j] == keys[n - 1];
                let k = choose|k: int|
                    0 <= k < rest.len() && keys[#[trigger] rest[k]] == keys[j];
                assert(all[k] == rest[k]);
            }
        }
        assert forall|k: int, l: int| 0 <= k < l < all.len() implies keys[#[trigger] all[k]]
            != keys[#[trigger] all[l]] by {
            assert(all[k] == rest[k]);
            if l < rest.len() {
                assert(all[l] == rest[l]);
            }
        }
    }
}

/// The file that is found has the key; one is found where there is one.
proof fn lemma_first_file(
    keys: Seq<PairKey>,
    kinds: Seq<FileKind>,
    key: PairKey,
    jpeg: bool,
    n: int,
)
    requires
        0 <= n <= keys.len() <= usize::MAX,
    ensures
        first_file(keys, kinds, key, jpeg, n) matches Some(i) ==> i < n && keys[i as int] == key,
        forall|i: int|
            0 <= i < n && #[trigger] keys[i] == key && (kinds[i] == FileKind::Jpeg) == jpeg
                ==> first_file(keys, kinds, key, jpeg, n) is Some,
    decreases n,
{
    if n > 0 {
        lemma_first_file(keys, kinds, key, jpeg, n - 1);
    }
}

/// Whether no two pictures are led by the same file.
pub open spec fn told_apart(images: Seq<LogicalImage>) -> bool {
    forall|i: int, j: int|
        0 <= i < j < images.len() ==> (#[trigger] images[i]).lead() != (#[trigger] images[j]).lead()
}

/// Pairing loses no file and makes no picture twice: there is a picture for
/// the key of every file, it has a file with that key, and no two pictures are
/// led by the same file.
pub proof fn every_file_has_its_picture(keys: Seq<PairKey>, kinds: Seq<FileKind>)
    requires
        keys.len() <= usize::MAX,
    ensures
        told_apart(pictures(keys, kinds)),
        forall|i: int|
            0 <= i < keys.len() ==> exists|k: int|
                0 <= k < pictures(keys, kinds).len() && (#[trigger] pictures(keys, kinds)[k]).wf()
                    && keys[pictures(keys, kinds)[k].lead() as int] == #[trigger] keys[i],
{
    let n = keys.len() as int;
    let firsts = first_positions(keys, n);
    let all = pictures(keys, kinds);
    lemma_first_positions(keys, n);
    assert forall|k: int| 0 <= k < all.len() implies (#[trigger] all[k]).wf() && keys[
        all[k].lead() as int] == keys[firsts[k]] by {
        let key = keys[firsts[k]];
        lemma_first_file(keys, kinds, key, false, n);
        lemma_first_file(keys, kinds, key, true, n);
    }
    assert forall|i: int| 0 <= i < n implies exists|k: int|
        0 <= k < all.len() && (#[trigger] all[k]).wf() && keys[all[k].lead() as int]
            == #[trigger] keys[i] by {
        let k = choose|k: int| 0 <= k < firsts.len() && keys[#[trigger] firsts[k]] == keys[i];
        assert(all[k].wf());
    }
    assert forall|i: int, j: int| 0 <= i < j < all.len() implies (#[trigger] all[i]).lead() != (
    #[trigger] all[j]).lead() by {
        assert(keys[firsts[i]] != keys[firsts[j]]);
    }
}

/// The second in which a file was captured, where its time is known.
pub open spec fn second_of(m: FileMeta) -> Option<i64> {
    match m.ts {
        Some(t) => Some((t.unix_centis as int / 100) as i64),
        None => None,
    }
}

/// The keys by which files are paired.
pub open spec fn pairing_keys(metas: Seq<FileMeta>) -> Seq<PairKey> {
    Seq::new(
        metas.len(),
        |i: int|
            PairKey {
                stem: text::lower(path::stem_of(metas[i].path@)),
                second: second_of(metas[i]),
            },
    )
}

/// Whether `ks` can be the keys by which files are paired: each has the second
/// of its file, and a stem that some platform finds, which is the one of
/// `pairing_keys` where the path is plain.
pub open spec fn are_keys(metas: Seq<FileMeta>, ks: Seq<PairKey>) -> bool {
    &&& ks.len() == metas.len()
    &&& forall|i: int|
        0 <= i < ks.len() ==> {
            &&& (#[trigger] ks[i]).second == second_of(metas[i])
            &&& path::plain_path(metas[i].path@) ==> ks[i] == pairing_keys(metas)[i]
            &&& path::named(metas[i].path@) ==> is_lower_stem(metas[i].path@, ks[i].stem)
        }
}

/// Whether some platform finds the stem `stem` in `p`, in lower case.
pub open spec fn is_lower_stem(p: Seq<char>, stem: Seq<char>) -> bool {
    exists|k: int| #[trigger]
        path::may_start(p, k) && stem == text::lower(path::name_stem(p.skip(k)))
}

/// The kinds of a list of files.
pub open spec fn kinds_of(metas: Seq<FileMeta>) -> Seq<FileKind> {
    Seq::new(metas.len(), |i: int| metas[i].kind)
}

fn capture_second(m: &FileMeta) -> (r: Option<i64>)
    ensures
        r == second_of(*m),
{
    match m.ts {
        Some(t) => {
            let c: i64 = t.unix_centis;
            Some(
                if c >= 0 {
                    c / 100
                } else {
                    -1 - (-1 - c) / 100
                },
            )
        },
        None => None,
    }
}

/// Pair RAW+JPEG of the same second by file stem (case-insensitive), keeping
/// scan order stable.
pub fn pair(metas: &Vec<FileMeta>) -> (r: Vec<LogicalImage>)
    ensures
        valid_images(r@, metas@.len() as int),
        exists|ks: Seq<PairKey>| #[trigger]
            are_keys(metas@, ks) && r@ == pictures(ks, kinds_of(metas@)),
        (forall|i: int| 0 <= i < metas@.len() ==> path::plain_path(#[trigger] metas@[i].path@))
            ==> r@ == pictures(pairing_keys(metas@), kinds_of(metas@)),
{
    let mut keys: Vec<FileKey> = Vec::new();
    let mut kinds: Vec<FileKind> = Vec::new();
    let mut i: usize = 0;
    while i < metas.len()
        invariant
            i <= metas@.len(),
            keys@.len() == i,
            kinds@ == kinds_of(metas@).take(i as int),
            forall|k: int|
                0 <= k < i ==> {
                    &&& (#[trigger] keys@[k])@.second == second_of(metas@[k])
                    &&& path::plain_path(metas@[k].path@) ==> keys@[k]@ == pairing_keys(metas@)[k]
                    &&& path::named(metas@[k].path@) ==> is_lower_stem(
                        metas@[k].path@,
                        keys@[k]@.stem,
                    )
                },
        decreases metas@.len() - i,
    {
        let stem: Vec<char> = match path::file_stem(metas[i].path.as_str()) {
            Some(s) => {
                proof {
                    let p = metas@[i as int].path@;
                    if path::plain_path(p) {
                        path::lemma_plain(p);
                    }
                    if path::named(p) {
                        let k = choose|k: int| #[trigger]
                            path::may_start(p, k) && s@ == path::name_stem(p.skip(k));
                        assert(path::may_start(p, k));
                        assert(is_lower_stem(p, text::lower(s@)));
                    }
                }
                text::chars_of(text::to_lower(s.as_str()).as_str())
            },
            None => {
                proof {
                    let p = metas@[i as int].path@;
                    if path::plain_path(p) {
                        path::lemma_plain(p);
                    }
                }
                text::digits(i as u64, 10)
            },
        };
        keys.push(FileKey { stem, second: capture_second(&metas[i]) });
        kinds.push(metas[i].kind);
        assert(kinds@ =~= kinds_of(metas@).take(i + 1));
        i += 1;
    }
    assert(kinds@ =~= kinds_of(metas@));
    proof {
        let ks = key_views(keys@);
        assert(are_keys(metas@, ks));
        if forall|i: int|
            0 <= i < metas@.len() ==> path::plain_path(#[trigger] metas@[i].path@) {
            assert(ks =~= pairing_keys(metas@));
        }
    }
    pair_keys(&keys, &kinds)
}

/// The camera that took a picture; no serial number counts as an empty one.
pub open spec fn camera(m: FileMeta) -> Seq<char> {
    match m.serial {
        Some(s) => s@,
        None => Seq::empty(),
    }
}

/// The file number of a picture; none counts as 0.
pub open spec fn number(m: FileMeta) -> u32 {
    match m.file_number {
        Some(n) => n,
        None => 0,
    }
}

/// Whether `a` was taken before `b`: ordered by camera, then time, then file
/// number.
pub open spec fn taken_before(a: FileMeta, b: FileMeta) -> bool {
    let (ta, tb) = (a.ts->0.unix_centis, b.ts->0.unix_centis);
    if camera(a) != camera(b) {
        text::str_lt(camera(a), camera(b))
    } else if ta != tb {
        ta < tb
    } else {
        number(a) < number(b)
    }
}

/// Order of dated pictures by camera, time and file number.
pub struct ByTime<'a> {
    pub metas: &'a Vec<FileMeta>,
    pub dated: &'a Vec<LogicalImage>,
}

/// The camera that took a picture.
fn camera_of(m: &FileMeta) -> (r: String)
    ensures
        r@ == camera(*m),
{
    match &m.serial {
        Some(s) => text::copy_of(s.as_str()),
        None => String::new(),
    }
}

impl<'a> Ranking for ByTime<'a> {
    open spec fn ahead(&self, a: int, b: int) -> bool {
        taken_before(
            self.metas@[self.dated@[a].lead() as int],
            self.metas@[self.dated@[b].lead() as int],
        )
    }

    open spec fn has(&self, a: int) -> bool {
        &&& 0 <= a < self.dated@.len()
        &&& self.dated@[a].wf()
        &&& self.dated@[a].lead() < self.metas@.len()
        &&& self.metas@[self.dated@[a].lead() as int].ts is Some
    }

    proof fn is_order(&self, a: int, b: int, c: int) {
        let ma = self.metas@[self.dated@[a].lead() as int];
        let mb = self.metas@[self.dated@[b].lead() as int];
        let mc = self.metas@[self.dated@[c].lead() as int];
        text::strings_are_ordered(camera(ma), camera(mb), camera(mc));
        text::strings_are_ordered(camera(mb), camera(mc), camera(ma));
        text::strings_are_ordered(camera(mc), camera(ma), camera(mb));
        text::strings_are_ordered(camera(ma), camera(mc), camera(mb));
        text::strings_are_ordered(camera(mb), camera(ma), camera(mc));
        text::strings_are_ordered(camera(mc), camera(mb), camera(ma));
    }

    fn is_ahead(&self, a: usize, b: usize) -> (r: bool) {
        let ma = &self.metas[self.dated[a].primary()];
        let mb = &self.metas[self.dated[b].primary()];
        let (ca, cb) = (camera_of(ma), camera_of(mb));
        if !text::str_eq(ca.as_str(), cb.as_str()) {
            return text::comes_before(ca.as_str(), cb.as_str());
        }
        let (ta, tb): (i64, i64) = (ma.ts.unwrap().unix_centis, mb.ts.unwrap().unix_centis);
        if ta != tb {
            return ta < tb;
        }
        let na: u32 = match ma.file_number {
            Some(n) => n,
            None => 0,
        };
        let nb: u32 = match mb.file_number {
            Some(n) => n,
            None => 0,
        };
        na < nb
    }
}

/// The pictures of `images` that have a time (or have none), in order.
pub open spec fn by_date(
    metas: Seq<FileMeta>,
    images: Seq<LogicalImage>,
    dated: bool,
    k: int,
) -> Seq<LogicalImage>
    decreases k,
{
    if k <= 0 {
        Seq::empty()
    } else {
        let rest = by_date(metas, images, dated, k - 1);
        if (metas[images[k - 1].lead() as int].ts is Some) == dated {
            rest.push(images[k - 1])
        } else {
            rest
        }
    }
}

/// Whether a new burst starts between two pictures that follow each other:
/// another camera, or too long a gap.
pub open spec fn breaks(a: FileMeta, b: FileMeta, max_gap: int) -> bool {
    path::opt_view(a.serial) != path::opt_view(b.serial) || b.ts->0.unix_centis - a.ts->0.unix_centis
        > max_gap
}

/// `images` cut into bursts.
pub open spec fn cut(
    metas: Seq<FileMeta>,
    images: Seq<LogicalImage>,
    max_gap: int,
    k: int,
) -> Seq<Seq<LogicalImage>>
    decreases k,
{
    if k <= 0 {
        Seq::empty()
    } else {
        let rest = cut(metas, images, max_gap, k - 1);
        if k == 1 || breaks(
            metas[images[k - 2].lead() as int],
            metas[images[k - 1].lead() as int],
            max_gap,
        ) {
            rest.push(seq![images[k - 1]])
        } else {
            rest.update(rest.len() - 1, rest.last().push(images[k - 1]))
        }
    }
}

/// The elements of `images` at the positions `ord`.
pub open spec fn reordered(images: Seq<LogicalImage>, ord: Seq<usize>) -> Seq<LogicalImage> {
    Seq::new(ord.len(), |i: int| images[ord[i] as int])
}

/// The pictures of a list of bursts.
pub open spec fn burst_views(b: Seq<Burst>) -> Seq<Seq<LogicalImage>> {
    Seq::new(b.len(), |i: int| b[i].images@)
}

/// The dated pictures in the order of `ord`, cut into bursts, and after them
/// each undated one by itself.
pub open spec fn grouped(
    metas: Seq<FileMeta>,
    images: Seq<LogicalImage>,
    max_gap: int,
    ord: Seq<usize>,
) -> Seq<Seq<LogicalImage>> {
    let n = images.len() as int;
    let line = reordered(by_date(metas, images, true, n), ord);
    let undated = by_date(metas, images, false, n);
    cut(metas, line, max_gap, line.len() as int) + Seq::new(
        undated.len(),
        |i: int| seq![undated[i]],
    )
}

/// Whether `ord` puts the dated pictures of `images` in order of camera, time
/// and file number.
pub open spec fn is_timeline(
    metas: Seq<FileMeta>,
    images: Seq<LogicalImage>,
    ord: Seq<usize>,
) -> bool {
    let d = by_date(metas, images, true, images.len() as int);
    &&& ord.len() == d.len()
    &&& forall|i: int| 0 <= i < ord.len() ==> 0 <= #[trigger] ord[i] < d.len()
    &&& forall|p: int| 0 <= p < d.len() ==> #[trigger] ord.contains(p as usize)
    &&& forall|i: int, j: int|
        0 <= i < j < ord.len() ==> {
            let a = metas[d[#[trigger] ord[i] as int].lead() as int];
            let b = metas[d[#[trigger] ord[j] as int].lead() as int];
            taken_before(a, b) || (!taken_before(b, a) && ord[i] < ord[j])
        }
}

proof fn lemma_by_date(metas: Seq<FileMeta>, images: Seq<LogicalImage>, dated: bool, k: int)
    requires
        valid_images(images, metas.len() as int),
        0 <= k <= images.len(),
    ensures
        forall|i: int|
            0 <= i < by_date(metas, images, dated, k).len() ==> (#[trigger] by_date(
                metas,
                images,
                dated,
                k,
            )[i]).wf() && by_date(metas, images, dated, k)[i].lead() < metas.len() && (metas[by_date(
                metas,
                images,
                dated,
                k,
            )[i].lead() as int].ts is Some) == dated,
    decreases k,
{
    if k > 0 {
        lemma_by_date(metas, images, dated, k - 1);
    }
}

/// Whether a new burst starts between two pictures.
fn starts_new(a: &FileMeta, b: &FileMeta, max_gap: i64) -> (r: bool)
    requires
        a.ts is Some,
        b.ts is Some,
    ensures
        r == breaks(*a, *b, max_gap as int),
{
    let same = match (&a.serial, &b.serial) {
        (Some(x), Some(y)) => text::str_eq(x.as_str(), y.as_str()),
        (None, None) => true,
        _ => false,
    };
    let gap: i128 = b.ts.unwrap().unix_centis as i128 - a.ts.unwrap().unix_centis as i128;
    !same || gap > max_gap as i128
}

/// Group logical images into bursts. Sorts by (camera serial, timestamp,
/// file number) and starts a new burst when the gap exceeds `max_gap_centis`
/// (default suggestion: 60 = 0.6 s) or the camera changes. Images without a
/// timestamp each become singletons at the end.
pub fn group(metas: &Vec<FileMeta>, images: Vec<LogicalImage>, max_gap_centis: i64) -> (r: Vec<
    Burst,
>)
    requires
        valid_images(images@, metas@.len() as int),
    ensures
        exists|ord: Seq<usize>| #[trigger]
            is_timeline(metas@, images@, ord) && burst_views(r@) == grouped(
                metas@,
                images@,
                max_gap_centis as int,
                ord,
            ),
{
    let mut dated: Vec<LogicalImage> = Vec::new();
    let mut undated: Vec<LogicalImage> = Vec::new();
    let mut i: usize = 0;
    while i < images.len()
        invariant
            i <= images@.len(),
            valid_images(images@, metas@.len() as int),
            dated@ == by_date(metas@, images@, true, i as int),
            undated@ == by_date(metas@, images@, false, i as int),
        decreases images@.len() - i,
    {
        let li = images[i];
        if metas[li.primary()].ts.is_some() {
            dated.push(li);
        } else {
            undated.push(li);
        }
        i += 1;
    }
    proof {
        lemma_by_date(metas@, images@, true, images@.len() as int);
        lemma_by_date(metas@, images@, false, images@.len() as int);
    }
    let rank = ByTime { metas, dated: &dated };
    let ord = sort::sorted_positions(&rank, 0, dated.len());
    assert(is_timeline(metas@, images@, ord@)) by {
        assert forall|i: int, j: int| 0 <= i < j < ord@.len() implies ({
            let a = metas@[dated@[#[trigger] ord@[i] as int].lead() as int];
            let b = metas@[dated@[#[trigger] ord@[j] as int].lead() as int];
            taken_before(a, b) || (!taken_before(b, a) && ord@[i] < ord@[j])
        }) by {
            assert(sort::precedes(&rank, ord@[i] as int, ord@[j] as int));
        }
    }
    let ghost line = reordered(dated@, ord@);
    let mut bursts: Vec<Burst> = Vec::new();
    let mut k: usize = 0;
    while k < ord.len()
        invariant
            k <= ord@.len(),
            line == reordered(dated@, ord@),
            forall|i: int| 0 <= i < ord@.len() ==> 0 <= #[trigger] ord@[i] < dated@.len(),
            forall|i: int|
                0 <= i < dated@.len() ==> (#[trigger] dated@[i]).wf() && dated@[i].lead()
                    < metas@.len() && metas@[dated@[i].lead() as int].ts is Some,
            burst_views(bursts@) == cut(metas@, line, max_gap_centis as int, k as int),
            k > 0 ==> bursts@.len() > 0,
        decreases ord@.len() - k,
    {
        let li = dated[ord[k]];
        assert(line[k as int] == li);
        let fresh = if k == 0 {
            true
        } else {
            let prev = dated[ord[k - 1]];
            assert(line[k - 1] == prev);
            starts_new(&metas[prev.primary()], &metas[li.primary()], max_gap_centis)
        };
        let ghost before = burst_views(bursts@);
        let ghost bursts0 = bursts@;
        if fresh {
            let mut first: Vec<LogicalImage> = Vec::new();
            first.push(li);
            assert(first@ =~= seq![li]);
            bursts.push(Burst { images: first });
            assert(burst_views(bursts@) =~= before.push(seq![li]));
        } else {
            let mut last = bursts.pop().unwrap();
            last.images.push(li);
            bursts.push(last);
            assert(burst_views(bursts@) =~= before.update(
                before.len() - 1,
                before.last().push(li),
            ));
        }
        k += 1;
    }
    let ghost cutted = burst_views(bursts@);
    let ghost singles = Seq::new(undated@.len(), |i: int| seq![undated@[i]]);
    assert(singles.take(0) =~= Seq::<Seq<LogicalImage>>::empty());
    assert(burst_views(bursts@) =~= cutted + singles.take(0));
    let mut u: usize = 0;
    while u < undated.len()
        invariant
            u <= undated@.len(),
            singles == Seq::new(undated@.len(), |i: int| seq![undated@[i]]),
            burst_views(bursts@) == cutted + singles.take(u as int),
        decreases undated@.len() - u,
    {
        let ghost before = burst_views(bursts@);
        let mut one: Vec<LogicalImage> = Vec::new();
        one.push(undated[u]);
        assert(one@ =~= singles[u as int]);
        bursts.push(Burst { images: one });
        assert(burst_views(bursts@) =~= before.push(singles[u as int]));
        assert(singles.take(u + 1) =~= singles.take(u as int).push(singles[u as int]));
        u += 1;
    }
    assert(singles.take(undated@.len() as int) =~= singles);
    bursts
}

/// The pictures of all bursts, one burst after the other.
pub open spec fn all_pictures(b: Seq<Seq<LogicalImage>>) -> Seq<LogicalImage>
    decreases b.len(),
{
    if b.len() == 0 {
        Seq::empty()
    } else {
        all_pictures(b.drop_last()) + b.last()
    }
}

/// Cutting the timeline loses no picture and repeats none: the bursts one
/// after the other are the timeline, and none is empty.
pub proof fn bursts_hold_the_timeline(
    metas: Seq<FileMeta>,
    line: Seq<LogicalImage>,
    max_gap: int,
    k: int,
)
    requires
        0 <= k <= line.len(),
    ensures
        all_pictures(cut(metas, line, max_gap, k)) == line.take(k),
        k > 0 ==> cut(metas, line, max_gap, k).len() > 0,
        forall|i: int|
            0 <= i < cut(metas, line, max_gap, k).len() ==> (#[trigger] cut(
                metas,
                line,
                max_gap,
                k,
            )[i]).len() > 0,
    decreases k,
{
    let b = cut(metas, line, max_gap, k);
    if k > 0 {
        bursts_hold_the_timeline(metas, line, max_gap, k - 1);
        let rest = cut(metas, line, max_gap, k - 1);
        let x = line[k - 1];
        assert(line.take(k) =~= line.take(k - 1).push(x));
        if b == rest.push(seq![x]) {
            assert(b.drop_last() =~= rest);
            assert(all_pictures(rest) + seq![x] =~= all_pictures(rest).push(x));
        } else {
            assert(b.drop_last() =~= rest.drop_last());
            assert(all_pictures(rest.drop_last()) + rest.last().push(x) =~= (all_pictures(
                rest.drop_last(),
            ) + rest.last()).push(x));
        }
        assert forall|i: int| 0 <= i < b.len() implies (#[trigger] b[i]).len() > 0 by {
            if i < rest.len() - 1 {
                assert(b[i] == rest[i]);
            } else if i < rest.len() && b == rest.push(seq![x]) {
                assert(b[i] == rest[i]);
            }
        }
    } else {
        assert(line.take(0) =~= Seq::<LogicalImage>::empty());
    }
}

/// Pictures of one burst that follow each other come from one camera and lie
/// no further apart than the gap.
pub proof fn bursts_have_no_gaps(
    metas: Seq<FileMeta>,
    line: Seq<LogicalImage>,
    max_gap: int,
    k: int,
    b: int,
    i: int,
)
    requires
        0 <= k <= line.len(),
        0 <= b < cut(metas, line, max_gap, k).len(),
        0 < i < cut(metas, line, max_gap, k)[b].len(),
    ensures
        ({
            let burst = cut(metas, line, max_gap, k)[b];
            !breaks(
                metas[burst[i - 1].lead() as int],
                metas[burst[i].lead() as int],
                max_gap,
            )
        }),
    decreases k,
{
    if k > 0 {
        let all = cut(metas, line, max_gap, k);
        let rest = cut(metas, line, max_gap, k - 1);
        lemma_last_picture(metas, line, max_gap, k - 1);
        if b < rest.len() && i < rest[b].len() {
            bursts_have_no_gaps(metas, line, max_gap, k - 1, b, i);
        }
    }
}

proof fn lemma_last_picture(
    metas: Seq<FileMeta>,
    line: Seq<LogicalImage>,
    max_gap: int,
    k: int,
)
    requires
        0 <= k <= line.len(),
    ensures
        k > 0 ==> {
            let b = cut(metas, line, max_gap, k);
            b.len() > 0 && b.last().len() > 0 && b.last().last() == line[k - 1]
        },
    decreases k,
{
    if k > 0 {
        lemma_last_picture(metas, line, max_gap, k - 1);
    }
}

proof fn lemma_from_images(
    metas: Seq<FileMeta>,
    images: Seq<LogicalImage>,
    dated: bool,
    k: int,
)
    requires
        0 <= k <= images.len(),
    ensures
        forall|i: int|
            0 <= i < by_date(metas, images, dated, k).len() ==> images.contains(
                #[trigger] by_date(metas, images, dated, k)[i],
            ),
    decreases k,
{
    if k > 0 {
        lemma_from_images(metas, images, dated, k - 1);
        let rest = by_date(metas, images, dated, k - 1);
        let all = by_date(metas, images, dated, k);
        assert forall|i: int| 0 <= i < all.len() implies images.contains(#[trigger] all[i]) by {
            if i < rest.len() {
                assert(all[i] == rest[i]);
            } else {
                assert(all[i] == images[k - 1]);
            }
        }
    }
}

proof fn lemma_from_line(metas: Seq<FileMeta>, line: Seq<LogicalImage>, max_gap: int, k: int)
    requires
        0 <= k <= line.len(),
    ensures
        forall|b: int, i: int|
            0 <= b < cut(metas, line, max_gap, k).len() && 0 <= i < cut(
                metas,
                line,
                max_gap,
                k,
            )[b].len() ==> line.contains(#[trigger] cut(metas, line, max_gap, k)[b][i]),
    decreases k,
{
    if k > 0 {
        lemma_from_line(metas, line, max_gap, k - 1);
        bursts_hold_the_timeline(metas, line, max_gap, k - 1);
        let all = cut(metas, line, max_gap, k);
        let rest = cut(metas, line, max_gap, k - 1);
        assert(line.contains(line[k - 1]));
        assert forall|b: int, i: int| 0 <= b < all.len() && 0 <= i < all[b].len() implies line.contains(
            #[trigger] all[b][i],
        ) by {
            if b < rest.len() && i < rest[b].len() {
                assert(all[b][i] == rest[b][i]);
            } else {
                assert(all[b][i] == line[k - 1]);
            }
        }
    }
}

proof fn lemma_dates_apart(
    metas: Seq<FileMeta>,
    images: Seq<LogicalImage>,
    dated: bool,
    k: int,
)
    requires
        told_apart(images),
        0 <= k <= images.len(),
    ensures
        told_apart(by_date(metas, images, dated, k)),
        forall|i: int|
            0 <= i < by_date(metas, images, dated, k).len() ==> images.take(k).contains(
                #[trigger] by_date(metas, images, dated, k)[i],
            ),
    decreases k,
{
    if k > 0 {
        lemma_dates_apart(metas, images, dated, k - 1);
        let rest = by_date(metas, images, dated, k - 1);
        let all = by_date(metas, images, dated, k);
        let (before, now) = (images.take(k - 1), images.take(k));
        assert(now[k - 1] == images[k - 1]);
        assert forall|i: int| 0 <= i < all.len() implies now.contains(#[trigger] all[i]) by {
            if i < rest.len() {
                assert(before.contains(rest[i]));
                let q = choose|q: int| 0 <= q < before.len() && before[q] == rest[i];
                assert(now[q] == rest[i]);
            }
        }
        assert forall|i: int, j: int| 0 <= i < j < all.len() implies (#[trigger] all[i]).lead() != (
        #[trigger] all[j]).lead() by {
            if j < rest.len() {
                assert(rest[i].lead() != rest[j].lead());
            } else {
                assert(before.contains(rest[i]));
                let q = choose|q: int| 0 <= q < before.len() && before[q] == rest[i];
                assert(images[q] == rest[i]);
            }
        }
    }
}

proof fn lemma_cut_apart(metas: Seq<FileMeta>, line: Seq<LogicalImage>, max_gap: int, k: int)
    requires
        told_apart(line),
        0 <= k <= line.len(),
    ensures
        forall|b: int|
            0 <= b < cut(metas, line, max_gap, k).len() ==> told_apart(
                #[trigger] cut(metas, line, max_gap, k)[b],
            ),
        forall|b: int, i: int|
            0 <= b < cut(metas, line, max_gap, k).len() && 0 <= i < cut(
                metas,
                line,
                max_gap,
                k,
            )[b].len() ==> line.take(k).contains(#[trigger] cut(metas, line, max_gap, k)[b][i]),
    decreases k,
{
    if k > 0 {
        lemma_cut_apart(metas, line, max_gap, k - 1);
        bursts_hold_the_timeline(metas, line, max_gap, k - 1);
        let all = cut(metas, line, max_gap, k);
        let rest = cut(metas, line, max_gap, k - 1);
        let (before, now) = (line.take(k - 1), line.take(k));
        assert(now[k - 1] == line[k - 1]);
        assert forall|b: int, i: int| 0 <= b < all.len() && 0 <= i < all[b].len() implies now.contains(
            #[trigger] all[b][i],
        ) by {
            if b < rest.len() && i < rest[b].len() {
                assert(all[b][i] == rest[b][i]);
                let q = choose|q: int| 0 <= q < before.len() && before[q] == rest[b][i];
                assert(now[q] == rest[b][i]);
            } else {
                assert(all[b][i] == line[k - 1]);
            }
        }
        assert forall|b: int| 0 <= b < all.len() implies told_apart(#[trigger] all[b]) by {
            assert forall|i: int, j: int| 0 <= i < j < all[b].len() implies (
            #[trigger] all[b][i]).lead() != (#[trigger] all[b][j]).lead() by {
                assert(b < rest.len() && i < rest[b].len());
                assert(all[b][i] == rest[b][i]);
                if j < rest[b].len() {
                    assert(told_apart(rest[b]));
                    assert(all[b][j] == rest[b][j]);
                } else {
                    assert(all[b][j] == line[k - 1]);
                    let q = choose|q: int| 0 <= q < before.len() && before[q] == rest[b][i];
                    assert(line[q] == rest[b][i]);
                }
            }
        }
    }
}

/// No burst has a picture twice.
pub proof fn bursts_repeat_no_picture(
    metas: Seq<FileMeta>,
    images: Seq<LogicalImage>,
    max_gap: int,
    ord: Seq<usize>,
    b: int,
)
    requires
        is_timeline(metas, images, ord),
        told_apart(images),
        0 <= b < grouped(metas, images, max_gap, ord).len(),
    ensures
        told_apart(grouped(metas, images, max_gap, ord)[b]),
{
    let n = images.len() as int;
    let dated = by_date(metas, images, true, n);
    let line = reordered(dated, ord);
    lemma_dates_apart(metas, images, true, n);
    assert(told_apart(line)) by {
        assert forall|i: int, j: int| 0 <= i < j < line.len() implies (#[trigger] line[i]).lead()
            != (#[trigger] line[j]).lead() by {
            assert(ord[i] != ord[j]) by {
                if ord[i] == ord[j] {
                    let c = camera(metas[dated[ord[i] as int].lead() as int]);
                    text::strings_are_ordered(c, c, c);
                }
            }
            let (x, y) = (dated[ord[i] as int], dated[ord[j] as int]);
            if ord[i] < ord[j] {
                assert(x.lead() != y.lead());
            } else {
                assert(y.lead() != x.lead());
            }
        }
    }
    lemma_cut_apart(metas, line, max_gap, line.len() as int);
    let c = cut(metas, line, max_gap, line.len() as int);
    if b < c.len() {
        assert(grouped(metas, images, max_gap, ord)[b] == c[b]);
    }
}

/// Every burst has a picture, and its pictures are among those grouped.
pub proof fn bursts_are_of_pictures(
    metas: Seq<FileMeta>,
    images: Seq<LogicalImage>,
    max_gap: int,
    ord: Seq<usize>,
    b: int,
)
    requires
        is_timeline(metas, images, ord),
        0 <= b < grouped(metas, images, max_gap, ord).len(),
    ensures
        grouped(metas, images, max_gap, ord)[b].len() > 0,
        forall|i: int|
            0 <= i < grouped(metas, images, max_gap, ord)[b].len() ==> images.contains(
                #[trigger] grouped(metas, images, max_gap, ord)[b][i],
            ),
{
    let n = images.len() as int;
    let dated = by_date(metas, images, true, n);
    let undated = by_date(metas, images, false, n);
    let line = reordered(dated, ord);
    let m = line.len() as int;
    let g = grouped(metas, images, max_gap, ord);
    let c = cut(metas, line, max_gap, m);
    lemma_from_images(metas, images, true, n);
    lemma_from_images(metas, images, false, n);
    lemma_from_line(metas, line, max_gap, m);
    bursts_hold_the_timeline(metas, line, max_gap, m);
    assert forall|i: int| 0 <= i < g[b].len() implies images.contains(#[trigger] g[b][i]) by {
        if b < c.len() {
            assert(g[b] == c[b]);
            assert(line.contains(c[b][i]));
            let k = choose|k: int| 0 <= k < line.len() && line[k] == c[b][i];
            assert(line[k] == dated[ord[k] as int]);
        } else {
            assert(g[b][i] == undated[b - c.len()]);
        }
    }
}

proof fn lemma_boundary(
    metas: Seq<FileMeta>,
    line: Seq<LogicalImage>,
    max_gap: int,
    k: int,
    b: int,
)
    requires
        0 <= k <= line.len(),
        0 <= b < cut(metas, line, max_gap, k).len() - 1,
    ensures
        ({
            let c = cut(metas, line, max_gap, k);
            exists|m: int|
                0 < m < k && c[b].len() > 0 && c[b + 1].len() > 0 && c[b].last() == line[m - 1]
                    && c[b + 1][0] == #[trigger] line[m] && breaks(
                    metas[line[m - 1].lead() as int],
                    metas[line[m].lead() as int],
                    max_gap,
                )
        }),
    decreases k,
{
    let c = cut(metas, line, max_gap, k);
    if k > 0 {
        let rest = cut(metas, line, max_gap, k - 1);
        lemma_last_picture(metas, line, max_gap, k - 1);
        bursts_hold_the_timeline(metas, line, max_gap, k - 1);
        if b + 1 < rest.len() {
            lemma_boundary(metas, line, max_gap, k - 1, b);
            let m = choose|m: int|
                0 < m < k - 1 && rest[b].len() > 0 && rest[b + 1].len() > 0 && rest[b].last()
                    == line[m - 1] && rest[b + 1][0] == #[trigger] line[m] && breaks(
                    metas[line[m - 1].lead() as int],
                    metas[line[m].lead() as int],
                    max_gap,
                );
            assert(c[b] == rest[b]);
            assert(c[b + 1][0] == rest[b + 1][0]);
            assert(line[m] == c[b + 1][0]);
        } else {
            assert(c[b] == rest.last());
            assert(c[b + 1][0] == line[k - 1]);
        }
    }
}

proof fn lemma_neighbours(
    metas: Seq<FileMeta>,
    line: Seq<LogicalImage>,
    max_gap: int,
    k: int,
    b: int,
    i: int,
)
    requires
        0 <= k <= line.len(),
        0 <= b < cut(metas, line, max_gap, k).len(),
        0 < i < cut(metas, line, max_gap, k)[b].len(),
    ensures
        ({
            let c = cut(metas, line, max_gap, k)[b];
            exists|m: int|
                0 < m < k && c[i - 1] == line[m - 1] && c[i] == #[trigger] line[m] && !breaks(
                    metas[line[m - 1].lead() as int],
                    metas[line[m].lead() as int],
                    max_gap,
                )
        }),
    decreases k,
{
    if k > 0 {
        let all = cut(metas, line, max_gap, k);
        let rest = cut(metas, line, max_gap, k - 1);
        lemma_last_picture(metas, line, max_gap, k - 1);
        if b < rest.len() && i < rest[b].len() {
            lemma_neighbours(metas, line, max_gap, k - 1, b, i);
            let m = choose|m: int|
                0 < m < k - 1 && rest[b][i - 1] == line[m - 1] && rest[b][i] == #[trigger] line[m]
                    && !breaks(
                    metas[line[m - 1].lead() as int],
                    metas[line[m].lead() as int],
                    max_gap,
                );
            assert(all[b][i - 1] == rest[b][i - 1] && all[b][i] == rest[b][i]);
            assert(all[b][i] == line[m]);
        } else {
            assert(all[b][i] == line[k - 1]);
            assert(all[b][i - 1] == line[k - 2]);
        }
    }
}

/// The pictures of one kind are some of all, in the same order.
proof fn lemma_scan_order(
    metas: Seq<FileMeta>,
    images: Seq<LogicalImage>,
    dated: bool,
    k: int,
    i: int,
    j: int,
)
    requires
        0 <= k <= images.len(),
        0 <= i < j < by_date(metas, images, dated, k).len(),
    ensures
        exists|x: int, y: int|
            0 <= x < y < k && #[trigger] images[x] == by_date(metas, images, dated, k)[i]
                && #[trigger] images[y] == by_date(metas, images, dated, k)[j],
    decreases k,
{
    if k > 0 {
        let rest = by_date(metas, images, dated, k - 1);
        let all = by_date(metas, images, dated, k);
        if j < rest.len() {
            lemma_scan_order(metas, images, dated, k - 1, i, j);
            let (x, y) = choose|x: int, y: int|
                0 <= x < y < k - 1 && #[trigger] images[x] == rest[i] && #[trigger] images[y]
                    == rest[j];
            assert(images[x] == all[i] && images[y] == all[j]);
        } else {
            lemma_dated_place(metas, images, dated, k - 1, i);
            let x = choose|x: int| 0 <= x < k - 1 && #[trigger] images[x] == rest[i];
            assert(images[x] == all[i] && images[k - 1] == all[j]);
        }
    }
}

proof fn lemma_dated_place(
    metas: Seq<FileMeta>,
    images: Seq<LogicalImage>,
    dated: bool,
    k: int,
    i: int,
)
    requires
        0 <= k <= images.len(),
        0 <= i < by_date(metas, images, dated, k).len(),
    ensures
        exists|x: int| 0 <= x < k && #[trigger] images[x] == by_date(metas, images, dated, k)[i],
    decreases k,
{
    if k > 0 {
        let rest = by_date(metas, images, dated, k - 1);
        let all = by_date(metas, images, dated, k);
        if i < rest.len() {
            lemma_dated_place(metas, images, dated, k - 1, i);
            let x = choose|x: int| 0 <= x < k - 1 && #[trigger] images[x] == rest[i];
            assert(images[x] == all[i]);
        } else {
            assert(images[k - 1] == all[i]);
        }
    }
}

/// Whether a picture of file `b` may follow one of file `a`: both have a time;
/// the camera of the first comes first, where it is another; and where it is
/// the same, the first was not taken later, nor has it the larger number where
/// it was taken at the same time.
pub open spec fn may_follow(a: meta::MetaView, b: meta::MetaView) -> bool {
    let none = Seq::<char>::empty();
    let (ca, cb) = (
        if a.serial is Some {
            a.serial->0
        } else {
            none
        },
        if b.serial is Some {
            b.serial->0
        } else {
            none
        },
    );
    let (na, nb) = (
        if a.file_number is Some {
            a.file_number->0
        } else {
            0
        },
        if b.file_number is Some {
            b.file_number->0
        } else {
            0
        },
    );
    &&& a.ts is Some && b.ts is Some
    &&& ca == cb ==> a.ts->0.unix_centis <= b.ts->0.unix_centis
    &&& ca == cb && a.ts->0.unix_centis == b.ts->0.unix_centis ==> na <= nb
    &&& ca != cb ==> text::spelled_before(ca, cb)
}

/// The pictures of the timeline follow each other as they were taken.
proof fn lemma_line_follows(
    metas: Seq<FileMeta>,
    images: Seq<LogicalImage>,
    ord: Seq<usize>,
    i: int,
    j: int,
)
    requires
        is_timeline(metas, images, ord),
        valid_images(images, metas.len() as int),
        0 <= i < j < ord.len(),
    ensures
        ({
            let line = reordered(by_date(metas, images, true, images.len() as int), ord);
            may_follow(metas[line[i].lead() as int]@, metas[line[j].lead() as int]@)
        }),
{
    let n = images.len() as int;
    let d = by_date(metas, images, true, n);
    lemma_by_date(metas, images, true, n);
    let a = metas[d[ord[i] as int].lead() as int];
    let b = metas[d[ord[j] as int].lead() as int];
    assert(taken_before(a, b) || (!taken_before(b, a) && ord[i] < ord[j]));
    text::strings_are_ordered(camera(a), camera(b), camera(a));
    text::first_difference_decides(camera(a), camera(b));
    assert(d[ord[i] as int].wf() && d[ord[j] as int].wf());
}

/// Bursts are as long as they can be. Where one ends and another begins, the
/// two pictures come from different cameras or lie further apart than the gap;
/// the pictures without a time come last, each by itself, as they were
/// scanned.
pub proof fn bursts_end_only_at_gaps(
    metas: Seq<FileMeta>,
    images: Seq<LogicalImage>,
    max_gap: int,
    ord: Seq<usize>,
    b: int,
)
    requires
        is_timeline(metas, images, ord),
        valid_images(images, metas.len() as int),
        0 <= b < grouped(metas, images, max_gap, ord).len() - 1,
    ensures
        ({
            let g = grouped(metas, images, max_gap, ord);
            let (p, q) = (metas[g[b].last().lead() as int]@, metas[g[b + 1][0].lead() as int]@);
            &&& q.ts is Some ==> may_follow(p, q) && (p.serial != q.serial
                || q.ts->0.unix_centis - p.ts->0.unix_centis > max_gap)
            &&& q.ts is None ==> g[b + 1].len() == 1
            &&& p.ts is None ==> q.ts is None && g[b].len() == 1 && exists|x: int, y: int|
                0 <= x < y < images.len() && #[trigger] images[x] == g[b][0] && #[trigger] images[y]
                    == g[b + 1][0]
        }),
{
    let n = images.len() as int;
    let dated = by_date(metas, images, true, n);
    let undated = by_date(metas, images, false, n);
    let line = reordered(dated, ord);
    let m = line.len() as int;
    let g = grouped(metas, images, max_gap, ord);
    let c = cut(metas, line, max_gap, m);
    lemma_by_date(metas, images, true, n);
    lemma_by_date(metas, images, false, n);
    lemma_last_picture(metas, line, max_gap, m);
    bursts_hold_the_timeline(metas, line, max_gap, m);
    if b + 1 < c.len() {
        lemma_boundary(metas, line, max_gap, m, b);
        let k = choose|k: int|
            0 < k < m && c[b].len() > 0 && c[b + 1].len() > 0 && c[b].last() == line[k - 1]
                && c[b + 1][0] == #[trigger] line[k] && breaks(
                metas[line[k - 1].lead() as int],
                metas[line[k].lead() as int],
                max_gap,
            );
        lemma_line_follows(metas, images, ord, k - 1, k);
        assert(g[b] == c[b] && g[b + 1] == c[b + 1]);
    } else {
        let u = b + 1 - c.len();
        assert(g[b + 1] == seq![undated[u]]);
        if b < c.len() {
            assert(g[b] == c[b]);
            assert(line[m - 1] == dated[ord[m - 1] as int]);
        } else {
            assert(g[b] == seq![undated[u - 1]]);
            lemma_scan_order(metas, images, false, n, u - 1, u);
        }
    }
}

/// Pictures that follow each other in a burst are from one camera, in the
/// order in which they were taken, and no further apart than the gap; those
/// that nothing tells apart stay as they were scanned.
pub proof fn bursts_hold_together(
    metas: Seq<FileMeta>,
    images: Seq<LogicalImage>,
    max_gap: int,
    ord: Seq<usize>,
    b: int,
    i: int,
)
    requires
        is_timeline(metas, images, ord),
        valid_images(images, metas.len() as int),
        0 <= b < grouped(metas, images, max_gap, ord).len(),
        0 < i < grouped(metas, images, max_gap, ord)[b].len(),
    ensures
        ({
            let g = grouped(metas, images, max_gap, ord)[b];
            let (p, q) = (metas[g[i - 1].lead() as int]@, metas[g[i].lead() as int]@);
            &&& may_follow(p, q)
            &&& p.serial == q.serial
            &&& q.ts->0.unix_centis - p.ts->0.unix_centis <= max_gap
            &&& p.ts == q.ts && p.file_number == q.file_number ==> exists|x: int, y: int|
                0 <= x < y < images.len() && #[trigger] images[x] == g[i - 1]
                    && #[trigger] images[y] == g[i]
        }),
{
    let n = images.len() as int;
    let dated = by_date(metas, images, true, n);
    let undated = by_date(metas, images, false, n);
    let line = reordered(dated, ord);
    let m = line.len() as int;
    let g = grouped(metas, images, max_gap, ord);
    let c = cut(metas, line, max_gap, m);
    if b >= c.len() {
        assert(g[b] == seq![undated[b - c.len()]]);
    }
    assert(g[b] == c[b]);
    lemma_neighbours(metas, line, max_gap, m, b, i);
    let k = choose|k: int|
        0 < k < m && c[b][i - 1] == line[k - 1] && c[b][i] == #[trigger] line[k] && !breaks(
            metas[line[k - 1].lead() as int],
            metas[line[k].lead() as int],
            max_gap,
        );
    lemma_line_follows(metas, images, ord, k - 1, k);
    let (x, y) = (metas[dated[ord[k - 1] as int].lead() as int], metas[dated[ord[k] as int].lead() as int]);
    assert(taken_before(x, y) || (!taken_before(y, x) && ord[k - 1] < ord[k]));
    if x@.ts == y@.ts && x@.file_number == y@.file_number {
        lemma_scan_order(metas, images, true, n, ord[k - 1] as int, ord[k] as int);
    }
}

proof fn lemma_in_a_burst(g: Seq<Seq<LogicalImage>>, x: LogicalImage)
    requires
        all_pictures(g).contains(x),
    ensures
        exists|b: int| 0 <= b < g.len() && (#[trigger] g[b]).contains(x),
    decreases g.len(),
{
    if g.len() > 0 {
        let rest = all_pictures(g.drop_last());
        let i = choose|i: int| 0 <= i < all_pictures(g).len() && all_pictures(g)[i] == x;
        if i < rest.len() {
            assert(rest[i] == x);
            lemma_in_a_burst(g.drop_last(), x);
            let b = choose|b: int|
                0 <= b < g.drop_last().len() && (#[trigger] g.drop_last()[b]).contains(x);
            assert(g[b].contains(x));
        } else {
            assert(g.last()[i - rest.len()] == x);
            assert(g[g.len() - 1].contains(x));
        }
    }
}

proof fn lemma_each_by_date(metas: Seq<FileMeta>, images: Seq<LogicalImage>, k: int, i: int)
    requires
        0 <= i < k <= images.len(),
    ensures
        by_date(metas, images, metas[images[i].lead() as int].ts is Some, k).contains(images[i]),
    decreases k,
{
    let dated = metas[images[i].lead() as int].ts is Some;
    let rest = by_date(metas, images, dated, k - 1);
    let all = by_date(metas, images, dated, k);
    if i < k - 1 {
        lemma_each_by_date(metas, images, k - 1, i);
        let x = choose|x: int| 0 <= x < rest.len() && rest[x] == images[i];
        assert(all[x] == images[i]);
    } else {
        assert(all[rest.len() as int] == images[i]);
    }
}

proof fn lemma_split_len(metas: Seq<FileMeta>, images: Seq<LogicalImage>, k: int)
    requires
        0 <= k <= images.len(),
    ensures
        by_date(metas, images, true, k).len() + by_date(metas, images, false, k).len() == k,
    decreases k,
{
    if k > 0 {
        lemma_split_len(metas, images, k - 1);
    }
}

proof fn lemma_singles(c: Seq<Seq<LogicalImage>>, u: Seq<LogicalImage>, k: int)
    requires
        0 <= k <= u.len(),
    ensures
        all_pictures(c + Seq::new(k as nat, |i: int| seq![u[i]])) == all_pictures(c) + u.take(k),
    decreases k,
{
    let g = c + Seq::new(k as nat, |i: int| seq![u[i]]);
    if k > 0 {
        lemma_singles(c, u, k - 1);
        assert(g.drop_last() =~= c + Seq::new((k - 1) as nat, |i: int| seq![u[i]]));
        assert(g.last() == seq![u[k - 1]]);
        assert(all_pictures(c) + u.take(k - 1) + seq![u[k - 1]] =~= all_pictures(c) + u.take(k));
    } else {
        assert(g =~= c);
        assert(all_pictures(c) + u.take(0) =~= all_pictures(c));
    }
}

/// Grouping loses no picture and adds none: every picture is in a burst, and
/// the bursts have as many pictures as there are.
pub proof fn bursts_hold_every_picture(
    metas: Seq<FileMeta>,
    images: Seq<LogicalImage>,
    max_gap: int,
    ord: Seq<usize>,
)
    requires
        is_timeline(metas, images, ord),
        images.len() <= usize::MAX,
    ensures
        all_pictures(grouped(metas, images, max_gap, ord)).len() == images.len(),
        forall|i: int|
            0 <= i < images.len() ==> exists|b: int|
                0 <= b < grouped(metas, images, max_gap, ord).len() && (#[trigger] grouped(
                    metas,
                    images,
                    max_gap,
                    ord,
                )[b]).contains(#[trigger] images[i]),
{
    let n = images.len() as int;
    let dated = by_date(metas, images, true, n);
    let undated = by_date(metas, images, false, n);
    let line = reordered(dated, ord);
    let m = line.len() as int;
    let c = cut(metas, line, max_gap, m);
    let g = grouped(metas, images, max_gap, ord);
    bursts_hold_the_timeline(metas, line, max_gap, m);
    assert(line.take(m) =~= line);
    lemma_split_len(metas, images, n);
    lemma_singles(c, undated, undated.len() as int);
    assert(undated.take(undated.len() as int) =~= undated);
    let all = all_pictures(g);
    assert(all == line + undated);
    assert forall|i: int| 0 <= i < n implies exists|b: int|
        0 <= b < g.len() && (#[trigger] g[b]).contains(#[trigger] images[i]) by {
        lemma_each_by_date(metas, images, n, i);
        if metas[images[i].lead() as int].ts is Some {
            let x = choose|x: int| 0 <= x < dated.len() && dated[x] == images[i];
            assert(ord.contains(x as usize));
            let k = choose|k: int| 0 <= k < ord.len() && ord[k] == x as usize;
            assert(line[k] == images[i]);
            assert(all[k] == images[i]);
        } else {
            let x = choose|x: int| 0 <= x < undated.len() && undated[x] == images[i];
            assert(all[m + x] == images[i]);
        }
        assert(all.contains(images[i]));
        lemma_in_a_burst(g, images[i]);
    }
}

proof fn lemma_first_of_kind(
    keys: Seq<PairKey>,
    kinds: Seq<FileKind>,
    key: PairKey,
    jpeg: bool,
    n: int,
)
    requires
        0 <= n <= keys.len() <= usize::MAX,
    ensures
        match first_file(keys, kinds, key, jpeg, n) {
            Some(f) => {
                &&& f < n && keys[f as int] == key && (kinds[f as int] == FileKind::Jpeg) == jpeg
                &&& forall|i: int|
                    0 <= i < f && #[trigger] keys[i] == key ==> (kinds[i] == FileKind::Jpeg)
                        != jpeg
            },
            None => forall|i: int|
                0 <= i < n && #[trigger] keys[i] == key ==> (kinds[i] == FileKind::Jpeg) != jpeg,
        },
    decreases n,
{
    if n > 0 {
        lemma_first_of_kind(keys, kinds, key, jpeg, n - 1);
    }
}

/// The place of the key of file `i` among those that first occur.
proof fn lemma_place_of_key(keys: Seq<PairKey>, n: int, i: int) -> (k: int)
    requires
        0 <= i < n <= keys.len(),
    ensures
        0 <= k < first_positions(keys, n).len(),
        keys[first_positions(keys, n)[k]] == keys[i],
{
    lemma_first_positions(keys, n);
    choose|k: int|
        0 <= k < first_positions(keys, n).len() && keys[#[trigger] first_positions(keys, n)[k]]
            == keys[i]
}

/// The picture of the files with the key of file `i`: of these the first that
/// is no JPEG is its RAW and the first JPEG its JPEG.
pub open spec fn is_picture_of(
    keys: Seq<PairKey>,
    kinds: Seq<FileKind>,
    i: int,
    m: LogicalImage,
) -> bool {
    &&& m.raw matches Some(r) ==> r < keys.len() && keys[r as int] == keys[i] && kinds[r as int]
        != FileKind::Jpeg
    &&& m.jpeg matches Some(j) ==> j < keys.len() && keys[j as int] == keys[i] && kinds[j as int]
        == FileKind::Jpeg
    &&& kinds[i] != FileKind::Jpeg ==> m.raw is Some && m.raw->0 <= i
    &&& kinds[i] == FileKind::Jpeg ==> m.jpeg is Some && m.jpeg->0 <= i
}

proof fn lemma_picture_of(keys: Seq<PairKey>, kinds: Seq<FileKind>, i: int, k: int)
    requires
        keys.len() <= usize::MAX,
        0 <= i < keys.len(),
        0 <= k < first_positions(keys, keys.len() as int).len(),
        keys[first_positions(keys, keys.len() as int)[k]] == keys[i],
    ensures
        k < pictures(keys, kinds).len(),
        is_picture_of(keys, kinds, i, pictures(keys, kinds)[k]),
{
    let n = keys.len() as int;
    lemma_first_of_kind(keys, kinds, keys[i], false, n);
    lemma_first_of_kind(keys, kinds, keys[i], true, n);
    assert(pictures(keys, kinds)[k] == picture(keys, kinds, keys[i], n));
}

/// Every file belongs to a picture, that of the files with its key, so that a
/// RAW and a JPEG with one key are one picture.
pub proof fn files_pair_by_their_keys(keys: Seq<PairKey>, kinds: Seq<FileKind>, i: int)
    requires
        keys.len() <= usize::MAX,
        0 <= i < keys.len(),
    ensures
        exists|k: int|
            0 <= k < pictures(keys, kinds).len() && is_picture_of(
                keys,
                kinds,
                i,
                #[trigger] pictures(keys, kinds)[k],
            ),
{
    let k = lemma_place_of_key(keys, keys.len() as int, i);
    lemma_picture_of(keys, kinds, i, k);
}

/// No two pictures have files with the same key.
pub proof fn pictures_differ_in_their_keys(
    keys: Seq<PairKey>,
    kinds: Seq<FileKind>,
    k: int,
    l: int,
)
    requires
        keys.len() <= usize::MAX,
        0 <= k < l < pictures(keys, kinds).len(),
    ensures
        pictures(keys, kinds)[k].wf(),
        pictures(keys, kinds)[k].exists_in(keys.len() as int),
        keys[pictures(keys, kinds)[k].lead() as int] != keys[pictures(
            keys,
            kinds,
        )[l].lead() as int],
{
    let n = keys.len() as int;
    let firsts = first_positions(keys, n);
    lemma_firsts_rise(keys, n);
    let (x, y) = (firsts[k], firsts[l]);
    lemma_picture_of(keys, kinds, x, k);
    lemma_picture_of(keys, kinds, y, l);
    assert(is_first(keys, y));
    assert(x < y);
    assert(keys[x] != keys[y]);
}

proof fn lemma_firsts_rise(keys: Seq<PairKey>, n: int)
    requires
        0 <= n <= keys.len(),
    ensures
        forall|k: int, l: int|
            0 <= k < l < first_positions(keys, n).len() ==> #[trigger] first_positions(keys, n)[k]
                < #[trigger] first_positions(keys, n)[l],
        forall|k: int|
            0 <= k < first_positions(keys, n).len() ==> is_first(
                keys,
                #[trigger] first_positions(keys, n)[k],
            ) && 0 <= first_positions(keys, n)[k] < n,
    decreases n,
{
    if n > 0 {
        lemma_firsts_rise(keys, n - 1);
        let (rest, all) = (first_positions(keys, n - 1), first_positions(keys, n));
        assert forall|k: int, l: int| 0 <= k < l < all.len() implies #[trigger] all[k]
            < #[trigger] all[l] by {
            assert(all[k] == rest[k]);
            if l < rest.len() {
                assert(all[l] == rest[l]);
            }
        }
        assert forall|k: int| 0 <= k < all.len() implies is_first(keys, #[trigger] all[k]) && 0
            <= all[k] < n by {
            if k < rest.len() {
                assert(all[k] == rest[k]);
            }
        }
    }
}

/// Pictures stay as they were scanned: the first file of each comes before all
/// files of those after it.
pub proof fn pictures_keep_scan_order(keys: Seq<PairKey>, kinds: Seq<FileKind>, k: int, l: int)
    requires
        keys.len() <= usize::MAX,
        0 <= k < l < pictures(keys, kinds).len(),
    ensures
        ({
            let (a, b) = (pictures(keys, kinds)[k], pictures(keys, kinds)[l]);
            let before = |i: usize|
                (b.raw is Some ==> i < b.raw->0) && (b.jpeg is Some ==> i < b.jpeg->0);
            (a.raw is Some && before(a.raw->0)) || (a.jpeg is Some && before(a.jpeg->0))
        }),
{
    let n = keys.len() as int;
    let firsts = first_positions(keys, n);
    lemma_firsts_rise(keys, n);
    let (x, y) = (firsts[k], firsts[l]);
    let (a, b) = (pictures(keys, kinds)[k], pictures(keys, kinds)[l]);
    lemma_picture_of(keys, kinds, x, k);
    lemma_picture_of(keys, kinds, y, l);
    assert(x < y && is_first(keys, x) && is_first(keys, y));
    if b.raw is Some && b.raw->0 < y {
        assert(keys[b.raw->0 as int] != keys[y]);
    }
    if b.jpeg is Some && b.jpeg->0 < y {
        assert(keys[b.jpeg->0 as int] != keys[y]);
    }
}

/// Files pair exactly where they have the same stem, but for the case of its
/// letters, and were taken in the same second: between a whole number of
/// seconds and the next. Files without a time pair with each other alone.
/// Stated of plain paths.
pub proof fn one_stem_in_one_second_pairs(metas: Seq<FileMeta>, ks: Seq<PairKey>, i: int, j: int)
    requires
        are_keys(metas, ks),
        0 <= i < metas.len(),
        0 <= j < metas.len(),
        path::plain_path(metas[i].path@),
        path::plain_path(metas[j].path@),
    ensures
        ({
            let (a, b) = (path::stem_of(metas[i].path@), path::stem_of(metas[j].path@));
            let one_stem = a.len() == b.len() && forall|c: int|
                0 <= c < a.len() ==> text::same_letter(#[trigger] a[c], b[c]);
            let one_second = match (metas[i].ts, metas[j].ts) {
                (Some(s), Some(t)) => exists|q: int|
                    #![trigger in_second(s.unix_centis as int, q)]
                    in_second(s.unix_centis as int, q) && in_second(t.unix_centis as int, q),
                (None, None) => true,
                _ => false,
            };
            ks[i] == ks[j] <==> one_stem && one_second
        }),
{
    let (a, b) = (path::stem_of(metas[i].path@), path::stem_of(metas[j].path@));
    text::case_is_all_that_is_lost(a, b);
    assert(ks[i] == pairing_keys(metas)[i] && ks[j] == pairing_keys(metas)[j]);
    if let (Some(s), Some(t)) = (metas[i].ts, metas[j].ts) {
        let (x, y) = (s.unix_centis as int, t.unix_centis as int);
        assert(in_second(x, x / 100) && in_second(y, y / 100));
        if exists|q: int| #![trigger in_second(x, q)] in_second(x, q) && in_second(y, q) {
            let q = choose|q: int| #![trigger in_second(x, q)] in_second(x, q) && in_second(y, q);
            assert(x / 100 == q && y / 100 == q);
        }
    }
}

/// Whether a time in hundredths of a second lies in second `q`.
pub open spec fn in_second(centis: int, q: int) -> bool {
    100 * q <= centis < 100 * q + 100
}

/// The time from the first to the last of some times: no two of them are
/// further apart, and two (the result) are as far.
pub proof fn spans_reach_from_first_to_last(s: Seq<i64>) -> (ends: (int, int))
    requires
        s.len() > 0,
    ensures
        0 <= ends.0 < s.len(),
        0 <= ends.1 < s.len(),
        span(s) == s[ends.1] - s[ends.0],
        forall|i: int, j: int|
            0 <= i < s.len() && 0 <= j < s.len() ==> #[trigger] s[j] - #[trigger] s[i] <= span(s),
{
    let lo = lemma_first_time(s);
    let hi = lemma_last_time(s);
    (lo, hi)
}

proof fn lemma_first_time(s: Seq<i64>) -> (k: int)
    requires
        s.len() > 0,
    ensures
        0 <= k < s.len(),
        least(s) == s[k],
        forall|i: int| 0 <= i < s.len() ==> least(s) <= #[trigger] s[i],
    decreases s.len(),
{
    if s.len() <= 1 {
        0
    } else {
        let init = s.drop_last();
        let k = lemma_first_time(init);
        assert forall|i: int| 0 <= i < s.len() implies least(s) <= #[trigger] s[i] by {
            if i < init.len() {
                assert(s[i] == init[i]);
            }
        }
        if s.last() < least(init) {
            s.len() - 1
        } else {
            k
        }
    }
}

proof fn lemma_last_time(s: Seq<i64>) -> (k: int)
    requires
        s.len() > 0,
    ensures
        0 <= k < s.len(),
        greatest(s) == s[k],
        forall|i: int| 0 <= i < s.len() ==> greatest(s) >= #[trigger] s[i],
    decreases s.len(),
{
    if s.len() <= 1 {
        0
    } else {
        let init = s.drop_last();
        let k = lemma_last_time(init);
        assert forall|i: int| 0 <= i < s.len() implies greatest(s) >= #[trigger] s[i] by {
            if i < init.len() {
                assert(s[i] == init[i]);
            }
        }
        if s.last() > greatest(init) {
            s.len() - 1
        } else {
            k
        }
    }
}

/// The times of pictures are those of their leading files, as far as these
/// have one.
pub proof fn times_are_of_the_pictures(
    metas: Seq<FileMeta>,
    images: Seq<LogicalImage>,
    k: int,
    t: i64,
)
    requires
        0 <= k <= images.len(),
    ensures
        times(metas, images, k).contains(t) <==> exists|i: int|
            0 <= i < k && (metas[(#[trigger] images[i]).lead() as int].ts matches Some(ts)
                && ts.unix_centis == t),
    decreases k,
{
    if k > 0 {
        times_are_of_the_pictures(metas, images, k - 1, t);
        let (rest, all) = (times(metas, images, k - 1), times(metas, images, k));
        let last = metas[images[k - 1].lead() as int].ts;
        if rest.contains(t) {
            let j = choose|j: int| 0 <= j < rest.len() && rest[j] == t;
            assert(all[j] == t);
        }
        if last is Some {
            assert(all[all.len() - 1] == last->0.unix_centis);
            if all.contains(t) {
                let j = choose|j: int| 0 <= j < all.len() && all[j] == t;
                if j < rest.len() {
                    assert(rest[j] == t);
                    assert(rest.contains(t));
                }
            }
        }
    }
}

/// A picture is led by its RAW file where it has one, else by its JPEG.
pub proof fn raws_lead_their_pictures(m: LogicalImage)
    requires
        m.wf(),
    ensures
        m.raw is Some ==> m.lead() == m.raw->0,
        m.raw is None ==> m.jpeg is Some && m.lead() == m.jpeg->0,
{
}

/// The files of a picture are its RAW and its JPEG, as far as it has them, the
/// RAW first.
pub proof fn pictures_have_their_files(m: LogicalImage, i: usize)
    ensures
        m.files().contains(i) <==> m.raw == Some(i) || m.jpeg == Some(i),
        m.wf() ==> m.files().len() > 0 && m.files()[0] == m.lead(),
        m.raw is Some && m.jpeg is Some ==> m.files().len() == 2,
{
    let f = m.files();
    if let Some(a) = m.raw {
        assert(f[0] == a);
    }
    if let Some(b) = m.jpeg {
        assert(f[f.len() - 1] == b);
    }
}

} // verus!
