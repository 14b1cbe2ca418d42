//! Which JPEG streams the decoder can be handed. The decoder trusts the
//! layout of a frame and its scans further than it tests them, so what it
//! relies on is tested here first: that the samples of each component fill the
//! rows that are taken from them, that scans name tables that are there, and
//! that a progressive stream comes to an end.

use vstd::prelude::*;
use crate::bytes;
use crate::decode::Pixels;

verus! {

/// Whether a marker stands at `p`: 0xFF and a byte that is neither stuffing
/// nor fill.
pub open spec fn marker_at(h: Seq<u8>, p: int) -> bool {
    0 <= p && p + 1 < h.len() && h[p] == 0xFF && h[p + 1] != 0 && h[p + 1] != 0xFF
}

/// Where the first marker from `pos` on stands; where fewer than two bytes are
/// left, if there is none.
pub open spec fn marker_from(h: Seq<u8>, pos: int) -> int
    decreases h.len() - pos,
{
    if pos + 1 >= h.len() || marker_at(h, pos) {
        pos
    } else {
        marker_from(h, pos + 1)
    }
}

/// The start-of-frame markers of the kinds that are decoded: baseline,
/// extended sequential and progressive.
pub open spec fn starts_frame(marker: u8) -> bool {
    0xC0 <= marker <= 0xC2
}

/// Whether a segment ends the header without a scan: the end of the image, a
/// definition that is not supported, or a length too small.
pub open spec fn breaks_off(marker: u8, len: int) -> bool {
    marker == 0xD9 || marker == 0xCC || marker == 0xDC || len < 2
}

/// Where the segment at `p` ends. Of an APP0 segment five bytes are read where
/// its length is six or more, one too many where it is six.
pub open spec fn segment_end(h: Seq<u8>, p: int) -> int {
    let len = bytes::be16_at(h, p + 2);
    if h[p + 1] == 0xE0 && len == 6 && p + 9 <= h.len() {
        p + 9
    } else {
        p + 2 + len
    }
}

/// The colour transform that the APP14 segment at `p` speaks of.
pub open spec fn transform_at(h: Seq<u8>, p: int) -> Option<u8> {
    if h[p + 1] == 0xEE && bytes::be16_at(h, p + 2) >= 14 && bytes::matches_at(
        h,
        p + 4,
        seq![0x41u8, 0x64, 0x6F, 0x62, 0x65],
    ) {
        Some(h[p + 15])
    } else {
        None
    }
}

/// The header of a stream: where its frame and its first scan stand, and what
/// the last APP14 segment between them says.
pub struct Opening {
    pub frame: int,
    pub scan: int,
    pub transform: Option<u8>,
}

/// The header whose rest starts at `pos`, after a frame at `frame`. Nothing
/// where no scan is reached, not exactly one frame stands before it, or a
/// segment is cut off; the decoder fails on such a stream.
pub open spec fn opening(
    h: Seq<u8>,
    pos: int,
    frame: Option<int>,
    transform: Option<u8>,
) -> Option<Opening>
    decreases h.len() - pos,
    via opening_moves_on
{
    let p = marker_from(h, pos);
    if p + 4 > h.len() || breaks_off(h[p + 1], bytes::be16_at(h, p + 2)) || segment_end(h, p)
        > h.len() {
        None
    } else if h[p + 1] == 0xDA {
        match frame {
            Some(f) => Some(Opening { frame: f, scan: p, transform }),
            None => None,
        }
    } else if starts_frame(h[p + 1]) {
        if frame is Some {
            None
        } else {
            opening(h, segment_end(h, p), Some(p), None)
        }
    } else {
        let said = transform_at(h, p);
        opening(
            h,
            segment_end(h, p),
            frame,
            if said is Some {
                said
            } else {
                transform
            },
        )
    }
}

#[via_fn]
proof fn opening_moves_on(h: Seq<u8>, pos: int, frame: Option<int>, transform: Option<u8>) {
    lemma_marker_from(h, pos);
}

proof fn lemma_marker_from(h: Seq<u8>, pos: int)
    ensures
        marker_from(h, pos) >= pos,
        marker_from(h, pos) + 1 < h.len() ==> marker_at(h, marker_from(h, pos)),
    decreases h.len() - pos,
{
    if !(pos + 1 >= h.len() || marker_at(h, pos)) {
        lemma_marker_from(h, pos + 1);
    }
}

/// How a frame is laid out: its size, and how often each component is sampled
/// across and down.
#[verifier::ext_equal]
pub struct Layout {
    pub width: int,
    pub height: int,
    pub sampling: Seq<(int, int)>,
}

/// The layout of the frame at `f`.
pub open spec fn layout_at(h: Seq<u8>, f: int) -> Layout {
    Layout {
        width: bytes::be16_at(h, f + 7),
        height: bytes::be16_at(h, f + 5),
        sampling: Seq::new(
            h[f + 9] as nat,
            |i: int| (h[f + 11 + 3 * i] as int / 16, h[f + 11 + 3 * i] as int % 16),
        ),
    }
}

/// How often the first `k` components are sampled at most, across and down.
pub open spec fn most(s: Seq<(int, int)>, k: int) -> (int, int)
    decreases k,
{
    if k <= 0 {
        (1, 1)
    } else {
        let (a, b) = most(s, k - 1);
        let (x, y) = s[k - 1];
        (
            if x > a {
                x
            } else {
                a
            },
            if y > b {
                y
            } else {
                b
            },
        )
    }
}

/// `a / b`, rounded up.
pub open spec fn over(a: int, b: int) -> int {
    (a + b - 1) / b
}

/// Whether a component can be sampled `x` times.
pub open spec fn is_factor(x: int) -> bool {
    x == 1 || x == 2 || x == 4 || x == 8
}

impl Layout {
    /// Whether the decoder takes up a frame of this size with these factors.
    pub open spec fn wf(self) -> bool {
        &&& 1 <= self.width <= 16384
        &&& 1 <= self.height <= 16384
        &&& 1 <= self.sampling.len() <= 4
        &&& forall|i: int|
            0 <= i < self.sampling.len() ==> is_factor((#[trigger] self.sampling[i]).0)
                && is_factor(self.sampling[i].1)
    }

    /// The most that a component is sampled across, and down.
    pub open spec fn top(self) -> (int, int) {
        most(self.sampling, self.sampling.len() as int)
    }

    /// How many units of all components lie side by side.
    pub open spec fn units_across(self) -> int {
        over(self.width, 8 * self.top().0)
    }

    /// How many units of all components lie one below the other.
    pub open spec fn units_down(self) -> int {
        over(self.height, 8 * self.top().1)
    }

    /// Samples in a row of component `i`, as the decoder reckons: by the most
    /// that a component up to this one is sampled.
    pub open spec fn stride(self, i: int) -> int {
        self.sampling[i].0 * 8 * over(self.width, 8 * most(self.sampling, i + 1).0)
    }

    /// Samples in a row of the image with its padding.
    pub open spec fn padded(self) -> int {
        8 * self.top().0 * self.units_across()
    }

    /// Rows of the image that a row of units gives at most.
    pub open spec fn rows(self) -> int {
        if 8 * self.top().1 <= self.height {
            8 * self.top().1
        } else {
            self.height
        }
    }

    /// Whether the samples of the first component fill the rows of luma.
    pub open spec fn fills_luma(self) -> bool {
        self.rows() * self.padded() <= 8 * self.sampling[0].1 * self.stride(0)
    }

    /// How component `i` is spread to the size of the image, across and down.
    pub open spec fn spread(self, i: int) -> (int, int) {
        (self.top().0 / self.sampling[i].0, self.top().1 / self.sampling[i].1)
    }

    /// How many times the usual room a component is spread into.
    pub open spec fn room(self, i: int) -> int {
        if i > 0 && self.sampling[i] != (1int, 1int) && (self.sampling[0].0 == 2
            || self.sampling[0].1 == 2) {
            2
        } else {
            1
        }
    }

    /// Whether component `i` is spread down by two, and not more than that
    /// across: it is then averaged over rows of neighbouring units.
    pub open spec fn averaged(self, i: int) -> bool {
        self.spread(i).1 == 2 && self.spread(i).0 <= 2
    }

    /// Whether component `i` can be spread.
    pub open spec fn spreads(self, i: int) -> bool {
        let (x, y) = self.spread(i);
        let down = self.sampling[i].1;
        if x == 1 && y == 1 {
            true
        } else if x == 2 && y == 1 {
            down == self.room(i)
        } else if self.averaged(i) {
            down == 1 && (x == 2 ==> 2 * self.stride(i) == self.stride(0))
        } else {
            self.rows() * self.padded() <= 8 * self.stride(i) * (x * y * self.room(i))
        }
    }

    /// Whether a row of component `i` can be kept for the next row of units.
    pub open spec fn keeps(self, i: int) -> bool {
        let (x, y) = self.spread(i);
        (x == 2 && y == 1) || x * y <= 8
    }

    /// Whether the samples of all components fill the rows of colour.
    pub open spec fn fills_colour(self) -> bool {
        &&& self.top().0 <= 2 || self.width >= 16
        &&& forall|i: int| 0 <= i < self.sampling.len() ==> #[trigger] self.spreads(i)
        &&& forall|i: int, j: int|
            0 <= i < self.sampling.len() && 0 <= j < self.sampling.len() && #[trigger] self.averaged(
                i,
            ) ==> #[trigger] self.keeps(j)
    }

    /// Whether only rows are sampled twice, which doubles the rows of units
    /// where luma alone is wanted.
    pub open spec fn tall(self) -> bool {
        self.top() == (1int, 2int)
    }

    /// Whether component `i` is laid out in units that are side by side.
    pub open spec fn aligned(self, i: int) -> bool {
        self.stride(i) == 8 * self.sampling[i].0 * self.units_across()
    }

    /// Whether the blocks of component `i` hold a scan of it alone: of all
    /// blocks of the image where it is the first and sampled, of one block per
    /// unit otherwise.
    pub open spec fn holds_scan(self, i: int, to: Pixels) -> bool {
        let whole = i == 0 && self.sampling[0] != (1int, 1int);
        let (across, down) = if whole {
            (over(self.width, 8), over(self.height, 8))
        } else {
            (self.units_across(), self.units_down())
        };
        let times: int = if to is Luma && self.tall() {
            2
        } else {
            1
        };
        (down - 1) * (self.stride(i) / 8) + across <= self.units_across() * self.sampling[i].0
            * self.sampling[i].1 * self.units_down() * times
    }

    /// Whether what a scan or a row gives fills what is taken from it.
    pub open spec fn fills(self, to: Pixels) -> bool {
        self.sampling.len() == 1 || (if to is Luma {
            self.fills_luma()
        } else {
            self.fills_colour()
        })
    }
}

/// Whether a restart marker stands at `p`.
pub open spec fn restart_at(h: Seq<u8>, p: int) -> bool {
    marker_at(h, p) && 0xD0 <= h[p + 1] <= 0xD7
}

/// Whether a marker that the decoder knows stands at `p`, other than a restart
/// marker.
pub open spec fn other_marker_at(h: Seq<u8>, p: int) -> bool {
    marker_at(h, p) && is_other(h[p + 1])
}

/// Whether the decoder knows a marker, and it is no restart marker.
pub open spec fn is_other(m: u8) -> bool {
    starts_frame(m) || m == 0xC4 || m == 0xCC || 0xD8 <= m <= 0xDD || 0xE0 <= m <= 0xE2 || m == 0xED
        || m == 0xEE || m == 0xFE
}

/// Whether a marker that is no restart marker stands somewhere from `pos` on.
pub open spec fn goes_on_from(h: Seq<u8>, pos: int) -> bool {
    exists|q: int| pos <= q && #[trigger] other_marker_at(h, q)
}

/// Whether each restart marker from `pos` on is followed by another marker.
/// The decoder does not return where the last that it finds is one.
pub open spec fn restarts_end(h: Seq<u8>, pos: int) -> bool {
    forall|p: int| pos <= p && #[trigger] restart_at(h, p) ==> goes_on_from(h, p)
}

/// How many codes the first `k` lengths of a Huffman table at `at` have.
pub open spec fn codes(h: Seq<u8>, at: int, k: int) -> int
    decreases k,
{
    if k <= 0 {
        0
    } else {
        codes(h, at, k - 1) + h[at + k - 1]
    }
}

/// Whether Huffman table `t` is among those that stand in `pos..end`.
pub open spec fn body_defines(h: Seq<u8>, pos: int, end: int, t: u8) -> bool
    decreases end - pos,
    via body_moves_on
{
    let next = pos + 17 + codes(h, pos + 1, 16);
    if pos < 0 || end > h.len() || end - pos <= 16 || next > end {
        false
    } else {
        h[pos] == t || body_defines(h, next, end, t)
    }
}

#[via_fn]
proof fn body_moves_on(h: Seq<u8>, pos: int, end: int, t: u8) {
    lemma_codes(h, pos + 1, 16);
}

proof fn lemma_codes(h: Seq<u8>, at: int, k: int)
    ensures
        0 <= codes(h, at, k),
    decreases k,
{
    if k > 0 {
        lemma_codes(h, at, k - 1);
    }
}

/// Whether the APP0 segment at `p` says that the stream is a frame of motion
/// JPEG, which has the usual tables without defining them.
pub open spec fn is_motion(h: Seq<u8>, p: int) -> bool {
    h[p + 1] == 0xE0 && bytes::be16_at(h, p + 2) > 5 && bytes::matches_at(
        h,
        p + 4,
        seq![0x41u8, 0x56, 0x49, 0x31, 0],
    )
}

/// Whether Huffman table `t` is one of the usual ones.
pub open spec fn is_usual(t: u8) -> bool {
    t == 0 || t == 1 || t == 16 || t == 17
}

/// Whether the segment at `p`, which ends at `end`, defines Huffman table `t`.
pub open spec fn segment_defines(h: Seq<u8>, p: int, end: int, t: u8) -> bool {
    ||| h[p + 1] == 0xC4 && body_defines(h, p + 4, end, t)
    ||| is_motion(h, p) && is_usual(t)
}

/// Whether a segment from `pos` on defines Huffman table `t` before the scan
/// at `scan`.
pub open spec fn header_defines(h: Seq<u8>, pos: int, scan: int, t: u8) -> bool
    decreases h.len() - pos,
    via header_moves_on
{
    let p = marker_from(h, pos);
    let end = segment_end(h, p);
    if p >= scan || p + 4 > h.len() || end < p + 4 || end > h.len() {
        false
    } else {
        segment_defines(h, p, end, t) || header_defines(h, end, scan, t)
    }
}

#[via_fn]
proof fn header_moves_on(h: Seq<u8>, pos: int, scan: int, t: u8) {
    lemma_marker_from(h, pos);
}

/// Whether a scan that names a component's tables by `y` finds them defined
/// before the scan at `first`.
pub open spec fn tables_defined(h: Seq<u8>, first: int, y: u8) -> bool {
    header_defines(h, 2, first, y / 16 % 4) && header_defines(h, 2, first, (16 + y % 16 % 4) as u8)
}

/// Whether a scan marker stands at `p`.
pub open spec fn scan_at(h: Seq<u8>, p: int) -> bool {
    marker_at(h, p) && h[p + 1] == 0xDA
}

/// Whether the scan at `p` names only tables that are defined before the scan
/// at `first`.
pub open spec fn scan_fits(h: Seq<u8>, first: int, p: int) -> bool {
    &&& p + 5 <= h.len() && p + 5 + 2 * h[p + 4] <= h.len()
    &&& forall|i: int|
        0 <= i < h[p + 4] ==> #[trigger] tables_defined(h, first, h[p + 6 + 2 * i])
}

/// Whether each scan from `first` on names only tables of the header.
pub open spec fn scans_fit(h: Seq<u8>, first: int) -> bool {
    forall|p: int| first <= p && #[trigger] scan_at(h, p) ==> scan_fits(h, first, p)
}

/// Whether a progressive stream with this layout can be decoded: the transform
/// said last does not ask for components that are not there or leave one out,
/// a scan of each component finds room, and the scans come to an end.
pub open spec fn progresses(h: Seq<u8>, o: Opening, l: Layout, to: Pixels) -> bool {
    let n = l.sampling.len();
    &&& n == 1 ==> o.transform != Some(2u8)
    &&& n != 2
    &&& n == 4 ==> o.transform != Some(1u8)
    &&& n > 1 ==> forall|i: int| 0 <= i < n ==> #[trigger] l.holds_scan(i, to)
    &&& restarts_end(h, o.scan)
}

/// Whether any other stream with this layout can be decoded: its first scan
/// names all components, or the units of each are aligned and each scan names
/// only tables of the header.
pub open spec fn runs_through(h: Seq<u8>, o: Opening, l: Layout, to: Pixels) -> bool {
    ||| o.scan + 4 < h.len() && h[o.scan + 4] == l.sampling.len()
    ||| {
        &&& !(to is Luma && l.tall())
        &&& forall|i: int| 0 <= i < l.sampling.len() ==> #[trigger] l.aligned(i)
        &&& scans_fit(h, o.scan)
    }
}

/// Whether the decoder can be handed the stream: it has a frame that the
/// decoder takes up and a scan, and neither the layout nor the scans make it
/// read past what is there, miss a table, or go on for ever.
pub open spec fn decodable(h: Seq<u8>, to: Pixels) -> bool {
    match opening(h, 2, None, None) {
        Some(o) => {
            let l = layout_at(h, o.frame);
            &&& o.frame + 10 + 3 * h[o.frame + 9] <= h.len()
            &&& l.wf()
            &&& l.fills(to)
            &&& if h[o.frame + 1] == 0xC2 {
                progresses(h, o, l, to)
            } else {
                runs_through(h, o, l, to)
            }
        },
        None => false,
    }
}

/// Where the first marker from `pos` on stands.
fn find_marker(h: &[u8], pos: usize) -> (r: usize)
    requires
        pos <= h.len(),
    ensures
        r == marker_from(h@, pos as int),
        pos <= r <= h.len(),
{
    let mut p: usize = pos;
    while p < h.len() && h.len() - p > 1 && !(h[p] == 0xFF && h[p + 1] != 0 && h[p + 1] != 0xFF)
        invariant
            pos <= p <= h.len(),
            marker_from(h@, pos as int) == marker_from(h@, p as int),
        decreases h.len() - p,
    {
        p += 1;
    }
    p
}

/// Where the segment at `p` ends; nothing where it is cut off or too short.
fn find_segment_end(h: &[u8], p: usize) -> (r: Option<usize>)
    requires
        p + 4 <= h.len(),
    ensures
        r is Some <==> bytes::be16_at(h@, p + 2) >= 2 && segment_end(h@, p as int) <= h@.len(),
        r is Some ==> r->0 == segment_end(h@, p as int) && r->0 >= p + 4,
{
    let len: usize = h[p + 2] as usize * 0x100 + h[p + 3] as usize;
    if len < 2 {
        return None;
    }
    if h[p + 1] == 0xE0 && len == 6 && h.len() - p >= 9 {
        return Some(p + 9);
    }
    if len > h.len() - p - 2 {
        return None;
    }
    Some(p + 2 + len)
}

/// The colour transform that the APP14 segment at `p` speaks of.
fn find_transform(h: &[u8], p: usize, end: usize) -> (r: Option<u8>)
    requires
        p + 4 <= end <= h.len(),
        end == segment_end(h@, p as int),
    ensures
        r == transform_at(h@, p as int),
{
    let id: [u8; 5] = [0x41, 0x64, 0x6F, 0x62, 0x65];
    proof {
        assert(id@ =~= seq![0x41u8, 0x64, 0x6F, 0x62, 0x65]);
    }
    if h[p + 1] == 0xEE && end - p >= 16 && bytes::has_at(h, p + 4, id.as_slice()) {
        Some(h[p + 15])
    } else {
        None
    }
}

/// Where the frame and the first scan stand, and what is said of the colour
/// transform between them.
fn find_opening(h: &[u8]) -> (r: Option<(usize, usize, Option<u8>)>)
    ensures
        match (r, opening(h@, 2, None, None)) {
            (Some(v), Some(o)) => (v.0 as int, v.1 as int, v.2) == (o.frame, o.scan, o.transform)
                && v.0 + 4 <= h@.len() && v.1 + 4 <= h@.len(),
            (None, None) => true,
            _ => false,
        },
{
    if h.len() < 2 {
        proof {
            lemma_marker_from(h@, 2);
        }
        return None;
    }
    let mut pos: usize = 2;
    let mut frame: Option<usize> = None;
    let mut transform: Option<u8> = None;
    loop
        invariant
            2 <= pos <= h.len(),
            frame matches Some(f) ==> f + 4 <= h@.len(),
            opening(h@, 2, None, None) == opening(
                h@,
                pos as int,
                match frame {
                    Some(f) => Some(f as int),
                    None => None,
                },
                transform,
            ),
        decreases h.len() - pos,
    {
        let p: usize = find_marker(h, pos);
        if h.len() - p < 4 {
            return None;
        }
        let m: u8 = h[p + 1];
        if m == 0xD9 || m == 0xCC || m == 0xDC {
            return None;
        }
        let end: usize = match find_segment_end(h, p) {
            Some(e) => e,
            None => return None,
        };
        if m == 0xDA {
            return match frame {
                Some(f) => Some((f, p, transform)),
                None => None,
            };
        }
        if 0xC0 <= m && m <= 0xC2 {
            if frame.is_some() {
                return None;
            }
            frame = Some(p);
            transform = None;
        } else {
            let said = find_transform(h, p, end);
            if said.is_some() {
                transform = said;
            }
        }
        pos = end;
    }
}

/// How a frame is laid out.
struct Frame {
    width: u64,
    height: u64,
    sampling: Vec<(u64, u64)>,
}

impl View for Frame {
    type V = Layout;

    closed spec fn view(&self) -> Layout {
        Layout {
            width: self.width as int,
            height: self.height as int,
            sampling: Seq::new(
                self.sampling@.len(),
                |i: int| (self.sampling@[i].0 as int, self.sampling@[i].1 as int),
            ),
        }
    }
}

/// `a / b`, rounded up.
fn div_up(a: u64, b: u64) -> (r: u64)
    requires
        1 <= a <= 16384,
        1 <= b <= 64,
    ensures
        r == over(a as int, b as int),
        1 <= r <= a,
{
    proof {
        let (x, y) = (a as int, b as int);
        assert(1 <= (x + y - 1) / y <= x) by (nonlinear_arith)
            requires
                x >= 1,
                y >= 1,
        ;
    }
    (a + b - 1) / b
}

/// A product of small numbers.
fn product(a: u64, b: u64, limit_a: u64, limit_b: u64) -> (r: u64)
    requires
        a <= limit_a,
        b <= limit_b,
        limit_a * limit_b <= u64::MAX,
    ensures
        r == a * b,
        r <= limit_a * limit_b,
{
    proof {
        assert(a * b <= limit_a * limit_b) by (nonlinear_arith)
            requires
                a <= limit_a,
                b <= limit_b,
        ;
    }
    a * b
}

proof fn lemma_most(s: Seq<(int, int)>, k: int)
    requires
        0 <= k <= s.len(),
        forall|i: int| 0 <= i < s.len() ==> is_factor((#[trigger] s[i]).0) && is_factor(s[i].1),
    ensures
        is_factor(most(s, k).0),
        is_factor(most(s, k).1),
        forall|i: int|
            0 <= i < k ==> (#[trigger] s[i]).0 <= most(s, k).0 && s[i].1 <= most(s, k).1,
    decreases k,
{
    if k > 0 {
        lemma_most(s, k - 1);
    }
}

impl Frame {
    /// How often the first `k` components are sampled at most.
    fn most(&self, k: usize) -> (r: (u64, u64))
        requires
            self@.wf(),
            k <= self@.sampling.len(),
        ensures
            (r.0 as int, r.1 as int) == most(self@.sampling, k as int),
            1 <= r.0 <= 8,
            1 <= r.1 <= 8,
    {
        let mut top: (u64, u64) = (1, 1);
        let mut i: usize = 0;
        while i < k
            invariant
                self@.wf(),
                i <= k <= self@.sampling.len(),
                (top.0 as int, top.1 as int) == most(self@.sampling, i as int),
            decreases k - i,
        {
            let (x, y): (u64, u64) = self.sampling[i];
            assert(self@.sampling[i as int] == (x as int, y as int));
            if x > top.0 {
                top.0 = x;
            }
            if y > top.1 {
                top.1 = y;
            }
            i += 1;
        }
        proof {
            lemma_most(self@.sampling, k as int);
        }
        top
    }

    /// The most that a component is sampled across, and down.
    fn top(&self) -> (r: (u64, u64))
        requires
            self@.wf(),
        ensures
            (r.0 as int, r.1 as int) == self@.top(),
            1 <= r.0 <= 8,
            1 <= r.1 <= 8,
    {
        self.most(self.sampling.len())
    }

    /// How often component `i` is sampled.
    fn at(&self, i: usize) -> (r: (u64, u64))
        requires
            self@.wf(),
            i < self@.sampling.len(),
        ensures
            (r.0 as int, r.1 as int) == self@.sampling[i as int],
            1 <= r.0 <= 8,
            1 <= r.1 <= 8,
    {
        assert(is_factor(self@.sampling[i as int].0) && is_factor(self@.sampling[i as int].1));
        self.sampling[i]
    }

    /// Units side by side, and one below the other.
    fn units(&self) -> (r: (u64, u64))
        requires
            self@.wf(),
        ensures
            r.0 == self@.units_across(),
            r.1 == self@.units_down(),
            1 <= r.0 <= 16384,
            1 <= r.1 <= 16384,
    {
        let t = self.top();
        (div_up(self.width, 8 * t.0), div_up(self.height, 8 * t.1))
    }

    /// Samples in a row of component `i`.
    fn stride(&self, i: usize) -> (r: u64)
        requires
            self@.wf(),
            i < self@.sampling.len(),
        ensures
            r == self@.stride(i as int),
            r <= 1_048_576,
    {
        let u: u64 = div_up(self.width, 8 * self.most(i + 1).0);
        let x: u64 = self.at(i).0 * 8;
        product(x, u, 64, 16384)
    }

    /// Samples that a row of units gives to the image at most.
    fn needed(&self) -> (r: u64)
        requires
            self@.wf(),
        ensures
            r == self@.rows() * self@.padded(),
            r <= 67_108_864,
    {
        let t = self.top();
        let rows: u64 = if 8 * t.1 <= self.height {
            8 * t.1
        } else {
            self.height
        };
        let padded: u64 = product(8 * t.0, self.units().0, 64, 16384);
        product(rows, padded, 64, 1_048_576)
    }

    /// Whether the samples of the first component fill the rows of luma.
    fn fills_luma(&self) -> (r: bool)
        requires
            self@.wf(),
        ensures
            r == self@.fills_luma(),
    {
        let room: u64 = product(8 * self.at(0).1, self.stride(0), 64, 1_048_576);
        self.needed() <= room
    }

    /// How component `i` is spread to the size of the image.
    fn spread(&self, i: usize) -> (r: (u64, u64))
        requires
            self@.wf(),
            i < self@.sampling.len(),
        ensures
            (r.0 as int, r.1 as int) == self@.spread(i as int),
            r.0 <= 8,
            r.1 <= 8,
    {
        let (t, s) = (self.top(), self.at(i));
        proof {
            lemma_quotient(t.0 as int, s.0 as int);
            lemma_quotient(t.1 as int, s.1 as int);
        }
        (t.0 / s.0, t.1 / s.1)
    }

    /// How many times the usual room a component is spread into.
    fn room(&self, i: usize) -> (r: u64)
        requires
            self@.wf(),
            i < self@.sampling.len(),
        ensures
            r == self@.room(i as int),
            1 <= r <= 2,
    {
        let (f, s) = (self.at(0), self.at(i));
        if i > 0 && !(s.0 == 1 && s.1 == 1) && (f.0 == 2 || f.1 == 2) {
            2
        } else {
            1
        }
    }

    /// Whether component `i` is averaged over rows of neighbouring units.
    fn averaged(&self, i: usize) -> (r: bool)
        requires
            self@.wf(),
            i < self@.sampling.len(),
        ensures
            r == self@.averaged(i as int),
    {
        let (x, y): (u64, u64) = self.spread(i);
        y == 2 && x <= 2
    }

    /// Whether component `i` can be spread.
    fn spreads(&self, i: usize) -> (r: bool)
        requires
            self@.wf(),
            i < self@.sampling.len(),
        ensures
            r == self@.spreads(i as int),
    {
        let (x, y): (u64, u64) = self.spread(i);
        let down: u64 = self.at(i).1;
        if x == 1 && y == 1 {
            true
        } else if x == 2 && y == 1 {
            down == self.room(i)
        } else if self.averaged(i) {
            down == 1 && (x != 2 || 2 * self.stride(i) == self.stride(0))
        } else {
            let parts: u64 = product(product(x, y, 8, 8), self.room(i), 64, 2);
            let room: u64 = product(8 * self.stride(i), parts, 8_388_608, 128);
            self.needed() <= room
        }
    }

    /// Whether a row of component `i` can be kept for the next row of units.
    fn keeps(&self, i: usize) -> (r: bool)
        requires
            self@.wf(),
            i < self@.sampling.len(),
        ensures
            r == self@.keeps(i as int),
    {
        let (x, y): (u64, u64) = self.spread(i);
        (x == 2 && y == 1) || product(x, y, 8, 8) <= 8
    }

    /// Whether the samples of all components fill the rows of colour.
    fn fills_colour(&self) -> (r: bool)
        requires
            self@.wf(),
        ensures
            r == self@.fills_colour(),
    {
        if self.top().0 > 2 && self.width < 16 {
            return false;
        }
        let n: usize = self.sampling.len();
        let mut any: Option<usize> = None;
        let mut fails: Option<usize> = None;
        let mut i: usize = 0;
        while i < n
            invariant
                self@.wf(),
                i <= n == self@.sampling.len(),
                forall|k: int| 0 <= k < i ==> #[trigger] self@.spreads(k),
                any matches Some(a) ==> a < n && self@.averaged(a as int),
                any is None ==> forall|k: int| 0 <= k < i ==> !#[trigger] self@.averaged(k),
                fails matches Some(a) ==> a < n && !self@.keeps(a as int),
                fails is None ==> forall|k: int| 0 <= k < i ==> #[trigger] self@.keeps(k),
            decreases n - i,
        {
            if !self.spreads(i) {
                assert(!self@.spreads(i as int));
                return false;
            }
            if self.averaged(i) {
                any = Some(i);
            }
            if !self.keeps(i) {
                fails = Some(i);
            }
            i += 1;
        }
        proof {
            if any is Some && fails is Some {
                assert(self@.averaged(any->0 as int) && !self@.keeps(fails->0 as int));
            }
        }
        !(any.is_some() && fails.is_some())
    }

    /// Whether only rows are sampled twice.
    fn tall(&self) -> (r: bool)
        requires
            self@.wf(),
        ensures
            r == self@.tall(),
    {
        let t = self.top();
        t.0 == 1 && t.1 == 2
    }

    /// Whether the units of all components are side by side.
    fn all_aligned(&self) -> (r: bool)
        requires
            self@.wf(),
        ensures
            r == (forall|i: int| 0 <= i < self@.sampling.len() ==> #[trigger] self@.aligned(i)),
    {
        let n: usize = self.sampling.len();
        let mut i: usize = 0;
        while i < n
            invariant
                self@.wf(),
                i <= n == self@.sampling.len(),
                forall|k: int| 0 <= k < i ==> #[trigger] self@.aligned(k),
            decreases n - i,
        {
            if self.stride(i) != product(8 * self.at(i).0, self.units().0, 64, 16384) {
                assert(!self@.aligned(i as int));
                return false;
            }
            assert(self@.aligned(i as int));
            i += 1;
        }
        true
    }

    /// Whether the blocks of component `i` hold a scan of it alone.
    fn holds_scan(&self, i: usize, to: Pixels) -> (r: bool)
        requires
            self@.wf(),
            i < self@.sampling.len(),
        ensures
            r == self@.holds_scan(i as int, to),
    {
        let s = self.at(i);
        let u = self.units();
        let (across, down): (u64, u64) = if i == 0 && !(s.0 == 1 && s.1 == 1) {
            (div_up(self.width, 8), div_up(self.height, 8))
        } else {
            u
        };
        let times: u64 = if to == Pixels::Luma && self.tall() {
            2
        } else {
            1
        };
        let taken: u64 = product(down - 1, self.stride(i) / 8, 16384, 1_048_576) + across;
        let wide: u64 = product(product(u.0, s.0, 16384, 8), s.1, 131_072, 8);
        let held: u64 = product(product(wide, u.1, 1_048_576, 16384), times, 17_179_869_184, 2);
        taken <= held
    }

    /// Whether the blocks of each component hold a scan of it alone.
    fn hold_scans(&self, to: Pixels) -> (r: bool)
        requires
            self@.wf(),
        ensures
            r == (forall|i: int|
                0 <= i < self@.sampling.len() ==> #[trigger] self@.holds_scan(i, to)),
    {
        let n: usize = self.sampling.len();
        let mut i: usize = 0;
        while i < n
            invariant
                self@.wf(),
                i <= n == self@.sampling.len(),
                forall|k: int| 0 <= k < i ==> #[trigger] self@.holds_scan(k, to),
            decreases n - i,
        {
            if !self.holds_scan(i, to) {
                return false;
            }
            i += 1;
        }
        true
    }
}

proof fn lemma_quotient(a: int, b: int)
    requires
        0 <= a <= 8,
        1 <= b,
    ensures
        0 <= a / b <= 8,
{
    assert(0 <= a / b <= a) by (nonlinear_arith)
        requires
            0 <= a,
            1 <= b,
    ;
}

fn has_factor(x: u64) -> (r: bool)
    ensures
        r == is_factor(x as int),
{
    x == 1 || x == 2 || x == 4 || x == 8
}

/// The layout of the frame at `f`, where the decoder takes it up.
fn read_layout(h: &[u8], f: usize) -> (r: Option<Frame>)
    requires
        f + 4 <= h.len(),
    ensures
        r is Some <==> f + 10 <= h@.len() && f + 10 + 3 * h@[f + 9] <= h@.len() && layout_at(
            h@,
            f as int,
        ).wf(),
        r matches Some(l) ==> l@ == layout_at(h@, f as int),
{
    if h.len() - f < 10 {
        return None;
    }
    let n: usize = h[f + 9] as usize;
    if h.len() - f - 10 < 3 * n || n < 1 || n > 4 {
        return None;
    }
    let height: u64 = h[f + 5] as u64 * 0x100 + h[f + 6] as u64;
    let width: u64 = h[f + 7] as u64 * 0x100 + h[f + 8] as u64;
    if width < 1 || width > 16384 || height < 1 || height > 16384 {
        return None;
    }
    let first: usize = f + 10;
    let mut sampling: Vec<(u64, u64)> = Vec::new();
    let mut i: usize = 0;
    let ghost want = layout_at(h@, f as int);
    while i < n
        invariant
            i <= n <= 4,
            n == h@[f + 9],
            first == f + 10,
            first + 3 * n <= h.len(),
            want == layout_at(h@, f as int),
            sampling@.len() == i,
            forall|k: int|
                0 <= k < i ==> want.sampling[k] == (
                    (#[trigger] sampling@[k]).0 as int,
                    sampling@[k].1 as int,
                ) && is_factor(want.sampling[k].0) && is_factor(want.sampling[k].1),
        decreases n - i,
    {
        let s: u8 = h[first + (3 * i + 1)];
        let (x, y): (u64, u64) = ((s / 16) as u64, (s % 16) as u64);
        assert(want.sampling[i as int] == (x as int, y as int));
        if !has_factor(x) || !has_factor(y) {
            return None;
        }
        sampling.push((x, y));
        i += 1;
    }
    let r = Frame { width, height, sampling };
    proof {
        assert(r@.sampling =~= want.sampling);
        assert forall|k: int| 0 <= k < want.sampling.len() implies is_factor(
            (#[trigger] want.sampling[k]).0,
        ) && is_factor(want.sampling[k].1) by {
            assert(sampling@[k].0 == want.sampling[k].0);
        }
    }
    Some(r)
}

/// Whether each restart marker from `pos` on is followed by another marker.
fn restarts_all_end(h: &[u8], pos: usize) -> (r: bool)
    requires
        pos <= h@.len(),
    ensures
        r == restarts_end(h@, pos as int),
{
    let mut i: usize = h.len();
    let mut on: bool = false;
    while i > pos
        invariant
            pos <= i <= h@.len(),
            on == goes_on_from(h@, i as int),
            restarts_end(h@, i as int),
        decreases i,
    {
        i -= 1;
        if h.len() - i > 1 && h[i] == 0xFF {
            let m: u8 = h[i + 1];
            if (0xC0 <= m && m <= 0xC2) || m == 0xC4 || m == 0xCC || (0xD8 <= m && m <= 0xDD) || (0xE0
                <= m && m <= 0xE2) || m == 0xED || m == 0xEE || m == 0xFE {
                assert(other_marker_at(h@, i as int));
                on = true;
            } else if 0xD0 <= m && m <= 0xD7 && !on {
                assert(restart_at(h@, i as int));
                assert(!goes_on_from(h@, i as int)) by {
                    if goes_on_from(h@, i as int) {
                        let q = choose|q: int| i <= q && #[trigger] other_marker_at(h@, q);
                        assert(q >= i + 1);
                        assert(goes_on_from(h@, i + 1));
                    }
                }
                return false;
            }
        }
        assert(on == goes_on_from(h@, i as int)) by {
            if on && !other_marker_at(h@, i as int) {
                let q = choose|q: int| i + 1 <= q && #[trigger] other_marker_at(h@, q);
                assert(i <= q && other_marker_at(h@, q));
            }
            if !on && goes_on_from(h@, i as int) {
                let q = choose|q: int| i <= q && #[trigger] other_marker_at(h@, q);
                assert(i + 1 <= q && other_marker_at(h@, q));
            }
        }
    }
    true
}

/// Whether Huffman table `t` is among those that stand in `pos..end`.
fn defined_in(h: &[u8], pos: usize, end: usize, t: u8) -> (r: bool)
    requires
        pos <= end <= h.len(),
    ensures
        r == body_defines(h@, pos as int, end as int, t),
{
    let mut p: usize = pos;
    while end - p > 16
        invariant
            pos <= p <= end <= h.len(),
            body_defines(h@, pos as int, end as int, t) == body_defines(
                h@,
                p as int,
                end as int,
                t,
            ),
        decreases end - p,
    {
        let mut sum: usize = 0;
        let mut k: usize = 0;
        while k < 16
            invariant
                k <= 16,
                p + 17 <= end <= h.len(),
                sum == codes(h@, p + 1, k as int),
                sum <= 255 * k,
            decreases 16 - k,
        {
            sum += h[p + 1 + k] as usize;
            k += 1;
        }
        if sum > end - p - 17 {
            return false;
        }
        if h[p] == t {
            return true;
        }
        p += 17 + sum;
    }
    false
}

/// Whether the APP0 segment at `p` says that the stream is a frame of motion
/// JPEG.
fn has_motion(h: &[u8], p: usize) -> (r: bool)
    requires
        p + 4 <= h.len(),
    ensures
        r == is_motion(h@, p as int),
{
    let id: [u8; 5] = [0x41, 0x56, 0x49, 0x31, 0];
    proof {
        assert(id@ =~= seq![0x41u8, 0x56, 0x49, 0x31, 0]);
    }
    let len: usize = h[p + 2] as usize * 0x100 + h[p + 3] as usize;
    h[p + 1] == 0xE0 && len > 5 && bytes::has_at(h, p + 4, id.as_slice())
}

/// Whether the header defines Huffman table `t` before the scan at `scan`.
fn defined_before(h: &[u8], scan: usize, t: u8) -> (r: bool)
    requires
        scan <= h.len(),
    ensures
        r == header_defines(h@, 2, scan as int, t),
{
    if h.len() < 2 {
        proof {
            lemma_marker_from(h@, 2);
        }
        return false;
    }
    let mut pos: usize = 2;
    loop
        invariant
            2 <= pos <= h.len(),
            header_defines(h@, 2, scan as int, t) == header_defines(
                h@,
                pos as int,
                scan as int,
                t,
            ),
        decreases h.len() - pos,
    {
        let p: usize = find_marker(h, pos);
        if p >= scan || h.len() - p < 4 {
            return false;
        }
        let end: usize = match find_segment_end(h, p) {
            Some(e) => e,
            None => return false,
        };
        if (h[p + 1] == 0xC4 && defined_in(h, p + 4, end, t)) || (has_motion(h, p) && (t == 0 || t
            == 1 || t == 16 || t == 17)) {
            return true;
        }
        pos = end;
    }
}

/// Whether the scan at `p` names only tables of the header.
fn fit_scan(h: &[u8], first: usize, p: usize) -> (r: bool)
    requires
        first <= h.len(),
        p <= h.len(),
    ensures
        r == scan_fits(h@, first as int, p as int),
{
    if h.len() - p < 5 {
        return false;
    }
    let n: usize = h[p + 4] as usize;
    if h.len() - p - 5 < 2 * n {
        return false;
    }
    let specs: usize = p + 5;
    let mut i: usize = 0;
    while i < n
        invariant
            i <= n,
            n == h@[p + 4],
            specs == p + 5,
            first <= h.len(),
            specs + 2 * n <= h.len(),
            forall|k: int|
                0 <= k < i ==> #[trigger] tables_defined(h@, first as int, h@[p + 6 + 2 * k]),
        decreases n - i,
    {
        let y: u8 = h[specs + (2 * i + 1)];
        if !defined_before(h, first, y / 16 % 4) || !defined_before(h, first, 16 + y % 16 % 4) {
            assert(!tables_defined(h@, first as int, h@[p + 6 + 2 * i]));
            return false;
        }
        assert(tables_defined(h@, first as int, h@[p + 6 + 2 * i]));
        i += 1;
    }
    true
}

/// Whether each scan from `first` on names only tables of the header.
fn fit_scans(h: &[u8], first: usize) -> (r: bool)
    requires
        first <= h.len(),
    ensures
        r == scans_fit(h@, first as int),
{
    let mut p: usize = first;
    while p < h.len()
        invariant
            first <= p <= h.len(),
            forall|q: int|
                first <= q < p && #[trigger] scan_at(h@, q) ==> scan_fits(h@, first as int, q),
        decreases h.len() - p,
    {
        if h.len() - p > 1 && h[p] == 0xFF && h[p + 1] == 0xDA {
            assert(scan_at(h@, p as int));
            if !fit_scan(h, first, p) {
                return false;
            }
        }
        p += 1;
    }
    true
}

/// Whether the decoder can be handed the stream.
pub fn is_decodable(h: &[u8], to: Pixels) -> (r: bool)
    ensures
        r == decodable(h@, to),
{
    let (f, s, transform) = match find_opening(h) {
        Some(o) => o,
        None => return false,
    };
    let l = match read_layout(h, f) {
        Some(l) => l,
        None => return false,
    };
    assert(f + 10 <= h.len());
    let n: usize = l.sampling.len();
    if n > 1 {
        let fills = match to {
            Pixels::Luma => l.fills_luma(),
            Pixels::Rgba => l.fills_colour(),
        };
        if !fills {
            return false;
        }
    }
    if h[f + 1] == 0xC2 {
        let said: u8 = match transform {
            Some(t) => t,
            None => 0,
        };
        if (n == 1 && said == 2) || n == 2 || (n == 4 && said == 1) {
            return false;
        }
        (n == 1 || l.hold_scans(to)) && restarts_all_end(h, s)
    } else {
        (h.len() - s > 4 && h[s + 4] as usize == n) || (!(to == Pixels::Luma && l.tall())
            && l.all_aligned() && fit_scans(h, s))
    }
}

} // verus!
