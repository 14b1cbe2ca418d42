//! Preview JPEG decoding to luma (grayscale) planes for scoring and to RGBA
//! for display, and what is done to such images: turning them upright,
//! cropping, brightening, focus peaking.

use vstd::prelude::*;
use vstd::arithmetic::div_mod::*;
use vstd::arithmetic::mul::*;
use crate::eye;
use crate::stream;

verus! {

/// A grayscale image, row by row.
pub struct Luma {
    pub pixels: Vec<u8>,
    pub width: usize,
    pub height: usize,
}

/// A colour image with 4 bytes per pixel, row by row.
pub struct Rgba {
    pub pixels: Vec<u8>,
    pub width: usize,
    pub height: usize,
}

impl Luma {
    /// There is a byte for every pixel.
    pub open spec fn wf(self) -> bool {
        self.pixels@.len() == self.width * self.height
    }
}

impl Rgba {
    /// There are 4 bytes for every pixel.
    pub open spec fn wf(self) -> bool {
        self.pixels@.len() == self.width * self.height * 4
    }
}

/// Why a JPEG could not be decoded.
#[derive(Debug)]
pub struct DecodeError(pub String);

impl DecodeError {
    /// What the error says.
    pub fn message(&self) -> (r: String)
        ensures
            r@ == "jpeg decode failed: "@ + self.0@,
    {
        crate::text::joined("jpeg decode failed: ", self.0.as_str())
    }
}

/// The orientation that undoes `o` (6 and 8 swap, the rest are their own
/// inverse).
pub open spec fn undoing(o: u16) -> u16 {
    if o == 6 {
        8
    } else if o == 8 {
        6
    } else {
        o
    }
}

/// The orientation that undoes `o`: turning an image by one and then by the
/// other gives it back.
pub fn inverse_orientation(o: u16) -> (r: u16)
    ensures
        r == undoing(o),
{
    match o {
        6 => 8,
        8 => 6,
        o => o,
    }
}

/// Whether EXIF orientation `o` moves pixels at all.
pub open spec fn turns(o: u16) -> bool {
    2 <= o <= 8
}

/// Width and height of a `w` by `h` image once it is upright.
pub open spec fn turned_dims(o: u16, w: int, h: int) -> (int, int) {
    if 5 <= o <= 8 {
        (h, w)
    } else {
        (w, h)
    }
}

/// The stored pixel of a `w` by `h` image that is displayed at `(x, y)`, from
/// the EXIF definition of each orientation.
pub open spec fn stored_at(o: u16, w: int, h: int, x: int, y: int) -> (int, int) {
    if o == 2 {
        (w - 1 - x, y)
    } else if o == 3 {
        (w - 1 - x, h - 1 - y)
    } else if o == 4 {
        (x, h - 1 - y)
    } else if o == 5 {
        (y, x)
    } else if o == 6 {
        (y, h - 1 - x)
    } else if o == 7 {
        (w - 1 - y, h - 1 - x)
    } else if o == 8 {
        (w - 1 - y, x)
    } else {
        (x, y)
    }
}

/// How display coordinates come from stored ones: exchange of the axes
/// first, then reflection of each.
#[derive(Debug, Clone, Copy, PartialEq, Eq, Structural)]
pub struct PointMap {
    pub swap: bool,
    pub flip_x: bool,
    pub flip_y: bool,
}

/// How display coordinates come from stored ones under orientation `o`.
pub open spec fn point_mapping(o: u16) -> PointMap {
    PointMap {
        swap: 5 <= o <= 8,
        flip_x: o == 2 || o == 3 || o == 6 || o == 7,
        flip_y: o == 3 || o == 4 || o == 7 || o == 8,
    }
}

/// How display coordinates come from stored ones under EXIF orientation `o`;
/// the point-wise counterpart of turning an image upright.
pub fn point_map(o: u16) -> (r: PointMap)
    ensures
        r == point_mapping(o),
{
    PointMap {
        swap: 5 <= o && o <= 8,
        flip_x: o == 2 || o == 3 || o == 6 || o == 7,
        flip_y: o == 3 || o == 4 || o == 7 || o == 8,
    }
}

/// Where the stored pixel `(x, y)` of a `w` by `h` image is displayed.
pub open spec fn displayed_at(m: PointMap, w: int, h: int, x: int, y: int) -> (int, int) {
    let (a, b, aw, bh) = if m.swap {
        (y, x, h, w)
    } else {
        (x, y, w, h)
    };
    (
        if m.flip_x {
            aw - 1 - a
        } else {
            a
        },
        if m.flip_y {
            bh - 1 - b
        } else {
            b
        },
    )
}

/// Mapping a point to display coordinates agrees with turning the image: the
/// pixel shown where a stored pixel is mapped to is that stored pixel.
pub proof fn mapped_point_shows_its_pixel(o: u16, w: int, h: int, x: int, y: int)
    ensures
        ({
            let (dx, dy) = displayed_at(point_mapping(o), w, h, x, y);
            stored_at(o, w, h, dx, dy) == (x, y)
        }),
{
}

/// Index of channel `c` of the pixel `(x, y)` in a buffer of `n` bytes per
/// pixel and `w` pixels per row.
pub open spec fn byte_index(w: int, n: int, x: int, y: int, c: int) -> int {
    (y * w + x) * n + c
}

/// The buffer `px` of a `w` by `h` image with `n` bytes per pixel, laid out
/// upright for EXIF orientation `o`. Bytes past the image are 0.
pub open spec fn oriented(px: Seq<u8>, n: int, w: int, h: int, o: u16) -> Seq<u8> {
    if turns(o) {
        let ow = turned_dims(o, w, h).0;
        Seq::new(
            px.len(),
            |i: int|
                if i < w * h * n {
                    let (x, y) = stored_at(o, w, h, (i / n) % ow, (i / n) / ow);
                    px[byte_index(w, n, x, y, i % n)]
                } else {
                    0
                },
        )
    } else {
        px
    }
}

/// A byte index lies inside the image, and its pixel and channel can be read
/// off it.
proof fn lemma_index(w: int, h: int, n: int, x: int, y: int, c: int)
    requires
        0 <= x < w,
        0 <= y < h,
        0 <= c < n,
    ensures
        0 <= byte_index(w, n, x, y, c) < w * h * n,
        byte_index(w, n, x, y, c) / n == y * w + x,
        byte_index(w, n, x, y, c) % n == c,
        (y * w + x) / w == y,
        (y * w + x) % w == x,
        0 <= y * w + x < w * h,
{
    let p = y * w + x;
    assert(0 <= y * w) by (nonlinear_arith)
        requires
            0 <= y,
            0 <= w,
    ;
    assert(p < w * h) by (nonlinear_arith)
        requires
            p == y * w + x,
            x < w,
            y <= h - 1,
            w > 0,
    ;
    assert(0 <= p * n) by (nonlinear_arith)
        requires
            0 <= p,
            0 <= n,
    ;
    assert(p * n + c < w * h * n) by (nonlinear_arith)
        requires
            p <= w * h - 1,
            c < n,
            n > 0,
    ;
    lemma_fundamental_div_mod_converse(p * n + c, n, p, c);
    lemma_fundamental_div_mod_converse(p, w, y, x);
}

/// Pixel and channel of a byte index.
proof fn lemma_unindex(w: int, h: int, n: int, i: int)
    requires
        0 <= i < w * h * n,
        w >= 0,
        h >= 0,
        n > 0,
    ensures
        0 <= (i / n) % w < w,
        0 <= (i / n) / w < h,
        0 <= i % n < n,
        i == byte_index(w, n, (i / n) % w, (i / n) / w, i % n),
        w > 0 && h > 0,
{
    assert(w > 0 && h > 0) by (nonlinear_arith)
        requires
            0 < w * h * n,
            w >= 0,
            h >= 0,
            n > 0,
    ;
    let p = i / n;
    lemma_fundamental_div_mod(i, n);
    lemma_mod_bound(i, n);
    lemma_div_pos_is_pos(i, n);
    assert(p < w * h) by (nonlinear_arith)
        requires
            n * p <= i,
            i < w * h * n,
            n > 0,
    ;
    lemma_fundamental_div_mod(p, w);
    lemma_mod_bound(p, w);
    lemma_div_pos_is_pos(p, w);
    assert(p / w < h) by (nonlinear_arith)
        requires
            w * (p / w) <= p,
            p < w * h,
            w > 0,
    ;
    assert(p * n == n * p) by (nonlinear_arith);
    assert((p / w) * w == w * (p / w)) by (nonlinear_arith);
}

/// Turning an image and then undoing it gives the image back.
pub proof fn turning_back_restores(px: Seq<u8>, n: int, w: int, h: int, o: u16)
    requires
        n > 0,
        w >= 0,
        h >= 0,
        px.len() == w * h * n,
    ensures
        ({
            let (ow, oh) = turned_dims(o, w, h);
            &&& oriented(oriented(px, n, w, h, o), n, ow, oh, undoing(o)) == px
            &&& turned_dims(undoing(o), ow, oh) == (w, h)
        }),
{
    let (ow, oh) = turned_dims(o, w, h);
    let once = oriented(px, n, w, h, o);
    let back = oriented(once, n, ow, oh, undoing(o));
    if turns(o) {
        assert(ow * oh * n == w * h * n) by (nonlinear_arith)
            requires
                (ow == w && oh == h) || (ow == h && oh == w),
        ;
        assert forall|i: int| 0 <= i < px.len() implies back[i] == px[i] by {
            lemma_unindex(w, h, n, i);
            let (x, y, c) = ((i / n) % w, (i / n) / w, i % n);
            // Where that pixel is once turned.
            let (tx, ty) = stored_at(undoing(o), ow, oh, x, y);
            assert(0 <= tx < ow && 0 <= ty < oh);
            lemma_index(ow, oh, n, tx, ty, c);
            assert(stored_at(o, w, h, tx, ty) == (x, y));
            assert(back[i] == once[byte_index(ow, n, tx, ty, c)]);
            assert(once[byte_index(ow, n, tx, ty, c)] == px[byte_index(w, n, x, y, c)]);
        }
        assert(back =~= px);
    }
}

/// Side of the tiles in which an image is turned.
pub const TILE: usize = 128;

/// The stored pixel that is displayed at `(x, y)`.
fn stored_pixel(o: u16, w: usize, h: usize, x: usize, y: usize) -> (r: (usize, usize))
    requires
        turns(o),
        x < turned_dims(o, w as int, h as int).0,
        y < turned_dims(o, w as int, h as int).1,
    ensures
        (r.0 as int, r.1 as int) == stored_at(o, w as int, h as int, x as int, y as int),
        r.0 < w,
        r.1 < h,
{
    match o {
        2 => (w - 1 - x, y),
        3 => (w - 1 - x, h - 1 - y),
        4 => (x, h - 1 - y),
        5 => (y, x),
        6 => (y, h - 1 - x),
        7 => (w - 1 - y, h - 1 - x),
        _ => (w - 1 - y, x),
    }
}

/// Whether byte `i` of a turned image belongs to a displayed pixel of the
/// rectangle `x0 <= x < x1`, `y0 <= y < y1`.
pub open spec fn in_tile(
    ow: int,
    n: int,
    i: int,
    x0: int,
    x1: int,
    y0: int,
    y1: int,
) -> bool {
    x0 <= (i / n) % ow < x1 && y0 <= (i / n) / ow < y1
}

/// Copies the displayed pixel `(x, y)`.
fn turn_pixel<const N: usize>(
    px: &Vec<u8>,
    out: &mut Vec<u8>,
    w: usize,
    h: usize,
    o: u16,
    x: usize,
    y: usize,
)
    requires
        N > 0,
        turns(o),
        w * h * N <= px.len(),
        old(out).len() == px.len(),
        x < turned_dims(o, w as int, h as int).0,
        y < turned_dims(o, w as int, h as int).1,
    ensures
        final(out).len() == px.len(),
        forall|i: int|
            0 <= i < px.len() ==> #[trigger] final(out)@[i] == (if i < w * h * N && in_tile(
                turned_dims(o, w as int, h as int).0,
                N as int,
                i,
                x as int,
                x + 1,
                y as int,
                y + 1,
            ) {
                oriented(px@, N as int, w as int, h as int, o)[i]
            } else {
                old(out)@[i]
            }),
{
    let (sx, sy) = stored_pixel(o, w, h, x, y);
    let ghost (ow, oh) = turned_dims(o, w as int, h as int);
    let ow_e: usize = if o >= 5 {
        h
    } else {
        w
    };
    proof {
        lemma_index(w as int, h as int, N as int, sx as int, sy as int, N - 1);
        lemma_index(ow, oh, N as int, x as int, y as int, N - 1);
        assert(ow * oh * N == w * h * N) by (nonlinear_arith)
            requires
                (ow == w && oh == h) || (ow == h && oh == w),
        ;
        assert(sy * w + sx <= (sy * w + sx) * N && sy * w <= sy * w + sx) by (nonlinear_arith)
            requires
                N >= 1,
                sx >= 0,
                0 <= sy * w + sx,
        ;
        assert(y * ow + x <= (y * ow + x) * N && y * ow <= y * ow + x) by (nonlinear_arith)
            requires
                N >= 1,
                x >= 0,
                0 <= y * ow + x,
        ;
    }
    let si: usize = (sy * w + sx) * N;
    let oi: usize = (y * ow_e + x) * N;
    let ghost out0 = out@;
    let mut c: usize = 0;
    while c < N
        invariant
            c <= N,
            N > 0,
            w * h * N <= px.len(),
            out.len() == px.len(),
            si == byte_index(w as int, N as int, sx as int, sy as int, 0),
            oi == byte_index(ow, N as int, x as int, y as int, 0),
            si + N <= w * h * N,
            oi + N <= w * h * N,
            forall|i: int|
                0 <= i < px.len() ==> #[trigger] out@[i] == (if oi <= i < oi + c {
                    px@[si + (i - oi)]
                } else {
                    out0[i]
                }),
        decreases N - c,
    {
        out.set(oi + c, px[si + c]);
        c += 1;
    }
    proof {
        let n = N as int;
        let full = oriented(px@, n, w as int, h as int, o);
        assert forall|i: int| 0 <= i < px.len() implies #[trigger] out@[i] == (if i < w * h * N
            && in_tile(ow, n, i, x as int, x + 1, y as int, y + 1) {
            full[i]
        } else {
            out0[i]
        }) by {
            if oi <= i < oi + N {
                lemma_index(ow, oh, n, x as int, y as int, i - oi);
                assert(i == byte_index(ow, n, x as int, y as int, i - oi));
            } else if i < w * h * N {
                lemma_unindex(ow, oh, n, i);
                if in_tile(ow, n, i, x as int, x + 1, y as int, y + 1) {
                    assert(i == byte_index(ow, n, x as int, y as int, i % n));
                }
            }
        }
    }
}

/// Copies the displayed pixels of the rectangle `x0 <= x < x1`,
/// `y0 <= y < y1`.
fn turn_tile<const N: usize>(
    px: &Vec<u8>,
    out: &mut Vec<u8>,
    w: usize,
    h: usize,
    o: u16,
    x0: usize,
    x1: usize,
    y0: usize,
    y1: usize,
)
    requires
        N > 0,
        turns(o),
        w * h * N <= px.len(),
        old(out).len() == px.len(),
        x0 <= x1 <= turned_dims(o, w as int, h as int).0,
        y0 <= y1 <= turned_dims(o, w as int, h as int).1,
    ensures
        final(out).len() == px.len(),
        forall|i: int|
            0 <= i < px.len() ==> #[trigger] final(out)@[i] == (if i < w * h * N && in_tile(
                turned_dims(o, w as int, h as int).0,
                N as int,
                i,
                x0 as int,
                x1 as int,
                y0 as int,
                y1 as int,
            ) {
                oriented(px@, N as int, w as int, h as int, o)[i]
            } else {
                old(out)@[i]
            }),
{
    let ghost ow = turned_dims(o, w as int, h as int).0;
    let ghost full = oriented(px@, N as int, w as int, h as int, o);
    let ghost out0 = out@;
    let mut y: usize = y0;
    while y < y1
        invariant
            N > 0,
            turns(o),
            w * h * N <= px.len(),
            out.len() == px.len(),
            x0 <= x1 <= ow,
            y0 <= y <= y1,
            y1 <= turned_dims(o, w as int, h as int).1,
            ow == turned_dims(o, w as int, h as int).0,
            full == oriented(px@, N as int, w as int, h as int, o),
            forall|i: int|
                0 <= i < px.len() ==> #[trigger] out@[i] == (if i < w * h * N && in_tile(
                    ow,
                    N as int,
                    i,
                    x0 as int,
                    x1 as int,
                    y0 as int,
                    y as int,
                ) {
                    full[i]
                } else {
                    out0[i]
                }),
        decreases y1 - y,
    {
        let mut x: usize = x0;
        while x < x1
            invariant
                N > 0,
                turns(o),
                w * h * N <= px.len(),
                out.len() == px.len(),
                x0 <= x <= x1,
                x1 <= ow,
                y0 <= y < y1,
                y1 <= turned_dims(o, w as int, h as int).1,
                ow == turned_dims(o, w as int, h as int).0,
                full == oriented(px@, N as int, w as int, h as int, o),
                forall|i: int|
                    0 <= i < px.len() ==> #[trigger] out@[i] == (if i < w * h * N && (in_tile(
                        ow,
                        N as int,
                        i,
                        x0 as int,
                        x1 as int,
                        y0 as int,
                        y as int,
                    ) || in_tile(
                        ow,
                        N as int,
                        i,
                        x0 as int,
                        x as int,
                        y as int,
                        y + 1,
                    )) {
                        full[i]
                    } else {
                        out0[i]
                    }),
            decreases x1 - x,
        {
            turn_pixel::<N>(px, out, w, h, o, x, y);
            x += 1;
        }
        y += 1;
    }
}

/// Re-lay-out an `N`-bytes-per-pixel buffer so it displays upright for EXIF
/// `orientation`. 1 (and anything outside 2..=8) returns the input as is;
/// 5..=8 are the 90-degree cases, so width and height swap.
fn orient<const N: usize>(px: Vec<u8>, w: usize, h: usize, orientation: u16) -> (r: (
    Vec<u8>,
    usize,
    usize,
))
    requires
        N > 0,
        w * h * N <= px.len(),
    ensures
        r.0@ == oriented(px@, N as int, w as int, h as int, orientation),
        (r.1 as int, r.2 as int) == turned_dims(orientation, w as int, h as int),
{
    if !(2 <= orientation && orientation <= 8) {
        return (px, w, h);
    }
    let (ow, oh): (usize, usize) = if orientation >= 5 {
        (h, w)
    } else {
        (w, h)
    };
    let mut out: Vec<u8> = vec![0u8; px.len()];
    let ghost full = oriented(px@, N as int, w as int, h as int, orientation);
    // The 90-degree cases read the source column-wise (one cache line per
    // pixel), so work in tiles to keep those lines hot.
    let mut ty: usize = 0;
    while ty < oh
        invariant
            N > 0,
            turns(orientation),
            w * h * N <= px.len(),
            out.len() == px.len(),
            ty <= oh,
            (ow as int, oh as int) == turned_dims(orientation, w as int, h as int),
            full == oriented(px@, N as int, w as int, h as int, orientation),
            forall|i: int|
                0 <= i < px.len() ==> #[trigger] out@[i] == (if i < w * h * N && in_tile(
                    ow as int,
                    N as int,
                    i,
                    0,
                    ow as int,
                    0,
                    ty as int,
                ) {
                    full[i]
                } else {
                    0
                }),
        decreases oh - ty,
    {
        let y1: usize = if oh - ty <= TILE {
            oh
        } else {
            ty + TILE
        };
        let mut tx: usize = 0;
        while tx < ow
            invariant
                N > 0,
                turns(orientation),
                w * h * N <= px.len(),
                out.len() == px.len(),
                tx <= ow,
                ty < y1 <= oh,
                (ow as int, oh as int) == turned_dims(orientation, w as int, h as int),
                full == oriented(px@, N as int, w as int, h as int, orientation),
                forall|i: int|
                    0 <= i < px.len() ==> #[trigger] out@[i] == (if i < w * h * N && (in_tile(
                        ow as int,
                        N as int,
                        i,
                        0,
                        ow as int,
                        0,
                        ty as int,
                    ) || in_tile(
                        ow as int,
                        N as int,
                        i,
                        0,
                        tx as int,
                        ty as int,
                        y1 as int,
                    )) {
                        full[i]
                    } else {
                        0
                    }),
            decreases ow - tx,
        {
            let x1: usize = if ow - tx <= TILE {
                ow
            } else {
                tx + TILE
            };
            turn_tile::<N>(&px, &mut out, w, h, orientation, tx, x1, ty, y1);
            tx = x1;
        }
        ty = y1;
    }
    proof {
        assert(ow * oh * N == w * h * N) by (nonlinear_arith)
            requires
                (ow == w && oh == h) || (ow == h && oh == w),
        ;
        assert forall|i: int| 0 <= i < px.len() implies out@[i] == full[i] by {
            if i < w * h * N {
                lemma_unindex(ow as int, oh as int, N as int, i);
            }
        }
        assert(out@ =~= full);
    }
    (out, ow, oh)
}

impl Luma {
    /// Rotate/flip into display orientation (EXIF `orientation`, 1 = as is).
    pub fn upright(self, orientation: u16) -> (r: Luma)
        requires
            self.width * self.height <= self.pixels@.len(),
        ensures
            r.pixels@ == oriented(
                self.pixels@,
                1,
                self.width as int,
                self.height as int,
                orientation,
            ),
            (r.width as int, r.height as int) == turned_dims(
                orientation,
                self.width as int,
                self.height as int,
            ),
    {
        let (pixels, width, height) = orient::<1>(
            self.pixels,
            self.width,
            self.height,
            orientation,
        );
        Luma { pixels, width, height }
    }
}

impl Rgba {
    /// Rotate/flip into display orientation (EXIF `orientation`, 1 = as is).
    pub fn upright(self, orientation: u16) -> (r: Rgba)
        requires
            self.width * self.height * 4 <= self.pixels@.len(),
        ensures
            r.pixels@ == oriented(
                self.pixels@,
                4,
                self.width as int,
                self.height as int,
                orientation,
            ),
            (r.width as int, r.height as int) == turned_dims(
                orientation,
                self.width as int,
                self.height as int,
            ),
    {
        let (pixels, width, height) = orient::<4>(
            self.pixels,
            self.width,
            self.height,
            orientation,
        );
        Rgba { pixels, width, height }
    }
}

/// What a JPEG is decoded to.
#[derive(Debug, Clone, Copy, PartialEq, Eq, Structural)]
pub enum Pixels {
    /// One byte per pixel: its luma.
    Luma,
    /// Red, green, blue and alpha.
    Rgba,
}

/// The image that `zune_jpeg::JpegDecoder::decode` makes of a JPEG, with its
/// width and height; nothing where it fails.
pub uninterp spec fn zune_image(jpeg: Seq<u8>, to: Pixels) -> Option<(Seq<u8>, usize, usize)>;

/// The image in the result of a decoding.
pub open spec fn image_in(r: Result<(Vec<u8>, usize, usize), String>) -> Option<
    (Seq<u8>, usize, usize),
> {
    match r {
        Ok(v) => Some((v.0@, v.1, v.2)),
        Err(_) => None,
    }
}

/// `zune_jpeg::JpegDecoder::decode` with `ColorSpace::Luma` or
/// `ColorSpace::RGBA` as output, and the image's dimensions. It depends on the
/// bytes alone: the code that it picks by the processor gives the same bits.
/// Luma comes as one byte per pixel; colour as four, but as one where the JPEG
/// has a single component. Which JPEGs decode, and to what pixels, is left to
/// the name `zune_image`; the text of an error is left unsaid. Only streams of
/// a layout that the decoder does not panic or loop on are handed to it; on
/// damaged coefficients of such a stream its arithmetic may wrap around, so it
/// is to be built without overflow checks and debug assertions, as a release
/// is.
#[verifier::external_body]
fn zune_decode(jpeg: &[u8], to: Pixels) -> (r: Result<(Vec<u8>, usize, usize), String>)
    requires
        stream::decodable(jpeg@, to),
    ensures
        image_in(r) == zune_image(jpeg@, to),
        r matches Ok(v) ==> v.0@.len() == v.1 * v.2 || (to is Rgba && v.0@.len() == v.1 * v.2 * 4),
{
    let space = match to {
        Pixels::Luma => zune_core::colorspace::ColorSpace::Luma,
        Pixels::Rgba => zune_core::colorspace::ColorSpace::RGBA,
    };
    let opts = zune_core::options::DecoderOptions::default().jpeg_set_out_colorspace(space);
    let mut dec = zune_jpeg::JpegDecoder::new_with_options(jpeg, opts);
    let pixels = dec.decode().map_err(|e| e.to_string())?;
    let (w, h) = dec.dimensions().ok_or_else(|| String::from("no dimensions"))?;
    Ok((pixels, w, h))
}

/// The image that a JPEG is decoded to: nothing where it has a layout that the
/// decoder cannot be handed, or where decoding fails.
pub open spec fn image_of(jpeg: Seq<u8>, to: Pixels) -> Option<(Seq<u8>, usize, usize)> {
    if stream::decodable(jpeg, to) {
        zune_image(jpeg, to)
    } else {
        None
    }
}

/// Decodes a JPEG of a layout that the decoder can be handed.
fn decode(jpeg: &[u8], to: Pixels) -> (r: Result<(Vec<u8>, usize, usize), DecodeError>)
    ensures
        image_of(jpeg@, to) == (match r {
            Ok(v) => Some((v.0@, v.1, v.2)),
            Err(_) => None,
        }),
        r matches Ok(v) ==> v.0@.len() == v.1 * v.2 || (to is Rgba && v.0@.len() == v.1 * v.2 * 4),
{
    if !stream::is_decodable(jpeg, to) {
        return Err(DecodeError(crate::text::copy_of("unsupported JPEG layout")));
    }
    match zune_decode(jpeg, to) {
        Ok(v) => Ok(v),
        Err(e) => Err(DecodeError(e)),
    }
}

/// Whether `r` is the luma image that a JPEG decodes to.
pub open spec fn is_luma_of(jpeg: Seq<u8>, r: Result<Luma, DecodeError>) -> bool {
    image_of(jpeg, Pixels::Luma) == (match r {
        Ok(l) => Some((l.pixels@, l.width, l.height)),
        Err(_) => None,
    })
}

/// Decodes a JPEG to luma at full resolution.
pub fn decode_luma(jpeg: &[u8]) -> (r: Result<Luma, DecodeError>)
    ensures
        is_luma_of(jpeg@, r),
        r matches Ok(l) ==> l.wf(),
{
    match decode(jpeg, Pixels::Luma) {
        Ok((pixels, width, height)) => Ok(Luma { pixels, width, height }),
        Err(e) => Err(e),
    }
}

/// Decode to luma with a long edge of at least `min_long_edge`, or at full
/// resolution where the image is smaller. This decoder has no reduced scale,
/// so the result is always at full resolution.
pub fn decode_luma_scaled(jpeg: &[u8], _min_long_edge: usize) -> (r: Result<Luma, DecodeError>)
    ensures
        is_luma_of(jpeg@, r),
        r matches Ok(l) ==> l.wf(),
{
    decode_luma(jpeg)
}

/// Decode to RGBA with a long edge of at least `min_long_edge`, or at full
/// resolution where the image is smaller. This decoder has no reduced scale,
/// so the result is always at full resolution. The decoder may give a gray
/// image as one byte per pixel.
pub fn decode_rgba_scaled(jpeg: &[u8], _min_long_edge: usize) -> (r: Result<Rgba, DecodeError>)
    ensures
        image_of(jpeg@, Pixels::Rgba) == (match r {
            Ok(c) => Some((c.pixels@, c.width, c.height)),
            Err(_) => None,
        }),
        r matches Ok(c) ==> c.wf() || c.pixels@.len() == c.width * c.height,
{
    match decode(jpeg, Pixels::Rgba) {
        Ok((pixels, width, height)) => Ok(Rgba { pixels, width, height }),
        Err(e) => Err(e),
    }
}

/// A dimension at scale 1 / `denom`, rounded up.
pub open spec fn scaled(d: int, denom: int) -> int {
    (d + denom - 1) / denom
}

/// The denominator of the smallest DCT scale (1/1, 1/2, 1/4, 1/8) that keeps
/// a long edge of `long` pixels at `min_long_edge` or more; 1 where none does.
pub open spec fn scale_denom(long: int, min_long_edge: int) -> int {
    if scaled(long, 8) >= min_long_edge {
        8
    } else if scaled(long, 4) >= min_long_edge {
        4
    } else if scaled(long, 2) >= min_long_edge {
        2
    } else {
        1
    }
}

/// How a `width` by `height` JPEG is decoded at reduced scale: the
/// denominator, and the dimensions of the result. An 8192px JPEG with min
/// 1620 decodes at 1/4 (2048px) for ~1/16 the work.
pub fn plan_scale(width: usize, height: usize, min_long_edge: usize) -> (r: (usize, usize, usize))
    requires
        width <= 0xffff_ffff - 8,
        height <= 0xffff_ffff - 8,
    ensures
        ({
            let long = if width >= height {
                width
            } else {
                height
            };
            let d = scale_denom(long as int, min_long_edge as int);
            r.0 == d && r.1 == scaled(width as int, d) && r.2 == scaled(height as int, d)
        }),
{
    let long: usize = if width >= height {
        width
    } else {
        height
    };
    let d: usize = if (long + 7) / 8 >= min_long_edge {
        8
    } else if (long + 3) / 4 >= min_long_edge {
        4
    } else if (long + 1) / 2 >= min_long_edge {
        2
    } else {
        1
    };
    (d, (width + (d - 1)) / d, (height + (d - 1)) / d)
}

/// The scale that is picked is the smallest that does: the long edge stays at
/// the minimum or above, and at each smaller scale that there is it would not.
pub proof fn picked_scale_is_smallest(long: int, min_long_edge: int, denom: int)
    requires
        0 <= min_long_edge <= long,
        denom == 1 || denom == 2 || denom == 4 || denom == 8,
    ensures
        ({
            let d = scale_denom(long, min_long_edge);
            &&& d == 1 || d == 2 || d == 4 || d == 8
            &&& scaled(long, d) >= min_long_edge
            &&& denom > d ==> scaled(long, denom) < min_long_edge
        }),
{
    assert(scaled(long, 8) <= scaled(long, 4) <= scaled(long, 2) <= scaled(long, 1));
}

/// A window of an image.
#[derive(Debug, Clone, Copy, PartialEq, Eq, Structural)]
pub struct Window {
    pub x: usize,
    pub y: usize,
    pub w: usize,
    pub h: usize,
}

pub open spec fn min_of(a: int, b: int) -> int {
    if a <= b {
        a
    } else {
        b
    }
}

/// The end of a range of `n` from `x` on, at most `limit`.
fn range_end(x: usize, n: usize, limit: usize) -> (r: usize)
    ensures
        r == min_of(x + n, limit as int),
{
    match x.checked_add(n) {
        Some(e) => if e <= limit {
            e
        } else {
            limit
        },
        None => limit,
    }
}

/// The window that a lossless crop of an image takes, whose minimum coded
/// units are `mcu_w` by `mcu_h` pixels: `x` and `y` round down to that grid,
/// the far edges stay where they are, cut off at the image. Nothing where the
/// window starts outside the image.
pub fn lossless_window(
    width: usize,
    height: usize,
    mcu_w: usize,
    mcu_h: usize,
    want: Window,
) -> (r: Option<Window>)
    requires
        mcu_w > 0,
        mcu_h > 0,
    ensures
        ({
            let x0 = (want.x as int / mcu_w as int) * mcu_w;
            let y0 = (want.y as int / mcu_h as int) * mcu_h;
            &&& r is Some <==> x0 < width && y0 < height
            &&& r matches Some(c) ==> {
                &&& c.x == x0 && c.y == y0
                &&& c.w == min_of(want.x + want.w, width as int) - x0
                &&& c.h == min_of(want.y + want.h, height as int) - y0
            }
        }),
        r matches Some(c) ==> c.x <= want.x < c.x + mcu_w && c.y <= want.y < c.y + mcu_h,
{
    proof {
        lemma_fundamental_div_mod(want.x as int, mcu_w as int);
        lemma_fundamental_div_mod(want.y as int, mcu_h as int);
        lemma_mod_bound(want.x as int, mcu_w as int);
        lemma_mod_bound(want.y as int, mcu_h as int);
        lemma_div_pos_is_pos(want.x as int, mcu_w as int);
        lemma_div_pos_is_pos(want.y as int, mcu_h as int);
        lemma_mul_is_commutative(mcu_w as int, want.x as int / mcu_w as int);
        lemma_mul_is_commutative(mcu_h as int, want.y as int / mcu_h as int);
        lemma_mul_nonnegative(want.x as int / mcu_w as int, mcu_w as int);
        lemma_mul_nonnegative(want.y as int / mcu_h as int, mcu_h as int);
    }
    let x0: usize = (want.x / mcu_w) * mcu_w;
    let y0: usize = (want.y / mcu_h) * mcu_h;
    if x0 >= width || y0 >= height {
        return None;
    }
    let x1: usize = range_end(want.x, want.w, width);
    let y1: usize = range_end(want.y, want.h, height);
    Some(Window { x: x0, y: y0, w: x1 - x0, h: y1 - y0 })
}

/// The pixels of the window `c` of a `w` pixels wide image.
pub open spec fn window_pixels(px: Seq<u8>, w: int, c: Window) -> Seq<u8> {
    Seq::new(
        (c.w * c.h) as nat,
        |i: int| px[(c.y + i / c.w as int) * w + c.x + i % c.w as int],
    )
}

/// The window of an image that starts at the given place, or at the last
/// column or row where that lies outside, cut off at the image.
pub open spec fn crop_window(width: int, height: int, want: Window) -> (int, int, int, int) {
    let x0 = min_of(want.x as int, width - 1);
    let y0 = min_of(want.y as int, height - 1);
    (x0, y0, min_of(want.x + want.w, width) - x0, min_of(want.y + want.h, height) - y0)
}

/// Whether `r` is the window `want` of a `width` by `height` image, with the
/// place where it starts.
pub open spec fn is_crop(
    px: Seq<u8>,
    width: int,
    height: int,
    want: Window,
    r: (Luma, usize, usize),
) -> bool {
    let (x0, y0, cw, ch) = crop_window(width, height, want);
    &&& r.1 == x0 && r.2 == y0 && r.0.width == cw && r.0.height == ch
    &&& r.0.pixels@ == window_pixels(
        px,
        width,
        Window { x: r.1, y: r.2, w: r.0.width, h: r.0.height },
    )
    &&& r.0.wf()
}

/// Cuts a window out of an image; the second and third value are where it
/// really starts.
pub fn crop(full: &Luma, want: Window) -> (r: (Luma, usize, usize))
    requires
        full.wf(),
        full.width > 0,
        full.height > 0,
    ensures
        is_crop(full.pixels@, full.width as int, full.height as int, want, r),
{
    let total: usize = full.pixels.len();
    let x0: usize = if want.x < full.width {
        want.x
    } else {
        full.width - 1
    };
    let y0: usize = if want.y < full.height {
        want.y
    } else {
        full.height - 1
    };
    let cw: usize = range_end(want.x, want.w, full.width) - x0;
    let ch: usize = range_end(want.y, want.h, full.height) - y0;
    let ghost c = Window { x: x0, y: y0, w: cw, h: ch };
    let ghost whole = window_pixels(full.pixels@, full.width as int, c);
    let mut pixels: Vec<u8> = Vec::new();
    let mut row: usize = 0;
    while row < ch
        invariant
            full.wf(),
            full.pixels@.len() == total,
            row <= ch,
            x0 + cw <= full.width,
            y0 + ch <= full.height,
            c == (Window { x: x0, y: y0, w: cw, h: ch }),
            whole == window_pixels(full.pixels@, full.width as int, c),
            pixels@.len() == row * cw,
            forall|i: int| 0 <= i < row * cw ==> #[trigger] pixels@[i] == whole[i],
        decreases ch - row,
    {
        proof {
            assert(row * cw + cw <= ch * cw) by (nonlinear_arith)
                requires
                    row + 1 <= ch,
                    cw >= 0,
            ;
            assert(ch * cw == cw * ch) by (nonlinear_arith);
        }
        let mut col: usize = 0;
        while col < cw
            invariant
                full.wf(),
                full.pixels@.len() == total,
                row < ch,
                col <= cw,
                x0 + cw <= full.width,
                y0 + ch <= full.height,
                c == (Window { x: x0, y: y0, w: cw, h: ch }),
                whole == window_pixels(full.pixels@, full.width as int, c),
                row * cw + cw <= cw * ch,
                pixels@.len() == row * cw + col,
                forall|i: int| 0 <= i < row * cw + col ==> #[trigger] pixels@[i] == whole[i],
            decreases cw - col,
        {
            proof {
                lemma_index(
                    full.width as int,
                    full.height as int,
                    1,
                    x0 + col,
                    y0 + row,
                    0,
                );
                assert((y0 + row) * full.width <= (y0 + row) * full.width + (x0 + col));
                lemma_fundamental_div_mod_converse(row * cw + col, cw as int, row as int, col as int);
            }
            let at: usize = (y0 + row) * full.width + (x0 + col);
            assert(whole[row * cw + col] == full.pixels@[at as int]);
            pixels.push(full.pixels[at]);
            col += 1;
        }
        assert((row + 1) * cw == row * cw + cw) by (nonlinear_arith);
        row += 1;
    }
    assert(ch * cw == cw * ch) by (nonlinear_arith);
    assert(pixels@ =~= whole);
    (Luma { pixels, width: cw, height: ch }, x0, y0)
}

/// Decode only a window of a large JPEG at full resolution. The second and
/// third value are where the window really starts.
pub fn decode_luma_crop(jpeg: &[u8], x: usize, y: usize, w: usize, h: usize) -> (r: Result<
    (Luma, usize, usize),
    DecodeError,
>)
    ensures
        match image_of(jpeg@, Pixels::Luma) {
            Some(full) if full.1 > 0 && full.2 > 0 => r matches Ok(c) && is_crop(
                full.0,
                full.1 as int,
                full.2 as int,
                (Window { x, y, w, h }),
                c,
            ),
            _ => r is Err,
        },
{
    match decode_luma(jpeg) {
        Ok(full) => {
            if full.width == 0 || full.height == 0 {
                return Err(DecodeError(crate::text::copy_of("empty image")));
            }
            let want = Window { x, y, w, h };
            Ok(crop(&full, want))
        },
        Err(e) => Err(e),
    }
}

/// The nearest integer to `a` / `b`, the even one of two.
pub open spec fn nearest(a: int, b: int) -> int {
    let q = a / b;
    let r = a % b;
    if 2 * r > b || (2 * r == b && q % 2 == 1) {
        q + 1
    } else {
        q
    }
}

/// The unit in the last place of a single-precision number of value `m`: the
/// power of two that leaves it 24 significant bits.
pub open spec fn last_place(m: int) -> int
    decreases m,
{
    if m < 0x100_0000 {
        1
    } else {
        2 * last_place(m / 2)
    }
}

/// `m` rounded to single precision.
pub open spec fn to_single(m: int) -> int {
    nearest(m, last_place(m)) * last_place(m)
}

/// The highlight level that brightening aims at.
pub const TARGET: u64 = 235;

/// Fractional bits of a gain.
pub const GAIN_ONE: u64 = 0x80_0000;

/// The highest level below the target; frames whose highlights lie above it
/// are left alone.
pub const BRIGHT: u64 = 234;

/// The gain that takes the level `p` to the target, in units of one part in
/// `GAIN_ONE`: at most 4, and rounded to single precision.
pub open spec fn gain_for(p: int) -> int {
    if p < 59 {
        4 * GAIN_ONE
    } else if p < 118 {
        2 * nearest((TARGET * GAIN_ONE) / 2, p)
    } else {
        nearest((TARGET * GAIN_ONE) as int, p)
    }
}

/// A channel value after brightening: the product in single precision,
/// clipped to 255, without its fraction.
pub open spec fn brightened(v: int, gain: int) -> int {
    min_of(to_single(v * gain) / GAIN_ONE as int, 255)
}

/// Luma of pixel `i`.
pub open spec fn luma_at(px: Seq<u8>, i: int) -> int {
    (px[4 * i] * 54 + px[4 * i + 1] * 183 + px[4 * i + 2] * 19) / 256
}

/// How many of the first `n` pixels have luma `v` or less.
pub open spec fn count_upto(px: Seq<u8>, n: int, v: int) -> int
    decreases n,
{
    if n <= 0 {
        0
    } else {
        count_upto(px, n - 1, v) + if luma_at(px, n - 1) <= v {
            1int
        } else {
            0
        }
    }
}

/// The first luma level from `v` on that at least `cutoff` of `n` pixels do
/// not exceed.
pub open spec fn level_from(px: Seq<u8>, n: int, cutoff: int, v: int) -> int
    decreases 255 - v,
{
    if v >= 255 || count_upto(px, n, v) >= cutoff {
        v
    } else {
        level_from(px, n, cutoff, v + 1)
    }
}

/// The highlight level of an image: the 99.5th percentile of its luma.
pub open spec fn highlight(px: Seq<u8>) -> int {
    let n = px.len() as int / 4;
    level_from(px, n, n - n / 200, 0)
}

/// The highlight level that the gain is computed from; black counts as 1.
pub open spec fn gain_level(px: Seq<u8>) -> int {
    if highlight(px) < 1 {
        1
    } else {
        highlight(px)
    }
}

/// The image after brightening: colour channels of dark frames are scaled,
/// alpha and bright frames stay.
pub open spec fn brightened_pixels(px: Seq<u8>) -> Seq<u8> {
    let p = gain_level(px);
    Seq::new(
        px.len(),
        |i: int|
            if p <= BRIGHT && i % 4 != 3 && i < 4 * (px.len() as int / 4) {
                brightened(px[i] as int, gain_for(p)) as u8
            } else {
                px[i]
            },
    )
}

proof fn lemma_nearest(a: int, b: int)
    requires
        a >= 0,
        b > 0,
    ensures
        nearest(a, b) >= 0,
        2 * nearest(a, b) * b <= 2 * a + b,
        2 * nearest(a, b) * b >= 2 * a - b,
{
    lemma_fundamental_div_mod(a, b);
    lemma_mod_bound(a, b);
    lemma_div_pos_is_pos(a, b);
    let q = a / b;
    let r = a % b;
    assert(b * q == q * b) by (nonlinear_arith);
    assert((q + 1) * b == q * b + b) by (nonlinear_arith);
    assert(2 * q * b == 2 * (q * b)) by (nonlinear_arith);
    assert(2 * (q + 1) * b == 2 * ((q + 1) * b)) by (nonlinear_arith);
}

proof fn lemma_last_place(m: int)
    requires
        0 <= m < 0x4_0000_0000,
    ensures
        1 <= last_place(m) <= 1024,
{
    reveal_with_fuel(last_place, 12);
}

/// Rounding to single precision moves a number by less than it takes to
/// matter here.
proof fn lemma_to_single(m: int)
    requires
        0 <= m < 0x4_0000_0000,
    ensures
        m - 512 <= to_single(m) <= m + 512,
        0 <= to_single(m),
{
    let u = last_place(m);
    lemma_last_place(m);
    lemma_nearest(m, u);
    let k = nearest(m, u);
    assert(2 * k * u == 2 * (k * u)) by (nonlinear_arith);
    assert(k * u >= 0) by (nonlinear_arith)
        requires
            k >= 0,
            u >= 0,
    ;
}

proof fn lemma_gain(p: int)
    requires
        1 <= p <= BRIGHT,
    ensures
        GAIN_ONE + 30_000 <= gain_for(p) <= 4 * GAIN_ONE,
        p >= 59 ==> TARGET * GAIN_ONE - p <= p * gain_for(p) <= TARGET * GAIN_ONE + p,
{
    let t = (TARGET * GAIN_ONE) as int;
    if p >= 118 {
        lemma_nearest(t, p);
        let k = nearest(t, p);
        assert(2 * k * p == 2 * (k * p)) by (nonlinear_arith);
        assert(k * p == p * k) by (nonlinear_arith);
        assert(k >= GAIN_ONE + 30_000) by (nonlinear_arith)
            requires
                2 * (p * k) >= 2 * t - p,
                118 <= p <= 234,
                t == 235 * 0x80_0000,
        ;
        assert(k <= 4 * GAIN_ONE) by (nonlinear_arith)
            requires
                2 * (p * k) <= 2 * t + p,
                118 <= p <= 234,
                t == 235 * 0x80_0000,
        ;
    } else if p >= 59 {
        lemma_nearest(t / 2, p);
        let k = nearest(t / 2, p);
        assert(2 * k * p == 2 * (k * p)) by (nonlinear_arith);
        assert(k * p == p * k) by (nonlinear_arith);
        assert(p * (2 * k) == 2 * (p * k)) by (nonlinear_arith);
        assert(t / 2 * 2 == t);
        assert(2 * k >= GAIN_ONE + 30_000) by (nonlinear_arith)
            requires
                2 * (p * k) >= t - p,
                59 <= p <= 117,
                t == 235 * 0x80_0000,
        ;
        assert(2 * k <= 4 * GAIN_ONE) by (nonlinear_arith)
            requires
                2 * (p * k) <= t + p,
                59 <= p <= 117,
                t == 235 * 0x80_0000,
        ;
    }
}

proof fn lemma_product(v: int, gain: int)
    requires
        0 <= v <= 255,
        0 <= gain <= 4 * GAIN_ONE,
    ensures
        0 <= v * gain < 0x4_0000_0000,
{
    assert(0 <= v * gain <= 255 * (4 * 0x80_0000)) by (nonlinear_arith)
        requires
            0 <= v <= 255,
            0 <= gain <= 4 * 0x80_0000,
    ;
}

/// Brightening makes no channel darker, and none more than four times as
/// bright.
pub proof fn brightening_only_lifts(v: int, p: int)
    requires
        0 <= v <= 255,
        1 <= p <= BRIGHT,
    ensures
        v <= brightened(v, gain_for(p)) <= 4 * v,
{
    let g = gain_for(p);
    lemma_gain(p);
    lemma_product(v, g);
    let m = v * g;
    lemma_to_single(m);
    if v == 0 {
        assert(m == 0) by (nonlinear_arith)
            requires
                m == v * g,
                v == 0,
        ;
        assert(to_single(0) == 0) by {
            assert(last_place(0) == 1);
        }
    } else {
        assert(m >= v * 0x80_0000 + 30_000) by (nonlinear_arith)
            requires
                m == v * g,
                v >= 1,
                g >= 0x80_0000 + 30_000,
        ;
        assert(m <= 4 * v * 0x80_0000) by (nonlinear_arith)
            requires
                m == v * g,
                v >= 1,
                g <= 4 * 0x80_0000,
        ;
        assert(to_single(m) < (4 * v + 1) * 0x80_0000);
    }
}

/// Brightening takes the highlights of a dark frame to the target, give or
/// take one level, unless that takes more than a fourfold gain.
pub proof fn highlights_reach_the_target(p: int)
    requires
        59 <= p <= BRIGHT,
    ensures
        TARGET - 1 <= brightened(p, gain_for(p)) <= TARGET + 1,
{
    lemma_gain(p);
    lemma_product(p, gain_for(p));
    lemma_to_single(p * gain_for(p));
}

/// The nearest integer to `a` / `b`, the even one of two.
fn nearest_of(a: u64, b: u64) -> (r: u64)
    requires
        0 < b <= 0x1_0000_0000,
        a <= 0x1_0000_0000_0000,
    ensures
        r == nearest(a as int, b as int),
        r <= a + 1,
{
    let q: u64 = a / b;
    let r: u64 = a % b;
    proof {
        lemma_fundamental_div_mod(a as int, b as int);
        lemma_mod_bound(a as int, b as int);
        assert(q <= a) by (nonlinear_arith)
            requires
                b * q <= a,
                b >= 1,
                q >= 0,
        ;
    }
    if 2 * r > b || (2 * r == b && q % 2 == 1) {
        q + 1
    } else {
        q
    }
}

/// The unit in the last place of `m` in single precision.
fn unit_of(m: u64) -> (r: u64)
    requires
        m < 0x4_0000_0000,
    ensures
        r == last_place(m as int),
        1 <= r <= 1024,
    decreases m,
{
    proof {
        lemma_last_place(m as int);
    }
    if m < 0x100_0000 {
        1
    } else {
        proof {
            lemma_last_place(m as int / 2);
        }
        2 * unit_of(m / 2)
    }
}

/// A channel value after brightening.
fn lifted(v: u8, gain: u64) -> (r: u8)
    requires
        gain <= 4 * GAIN_ONE,
    ensures
        r == brightened(v as int, gain as int),
{
    proof {
        lemma_product(v as int, gain as int);
        lemma_to_single(v * gain);
    }
    let m: u64 = v as u64 * gain;
    let u: u64 = unit_of(m);
    let k: u64 = nearest_of(m, u);
    assert(k * u == to_single(m as int));
    let level: u64 = k * u / GAIN_ONE;
    if level <= 255 {
        level as u8
    } else {
        255
    }
}

/// The gain for the highlight level `p`.
fn gain_of(p: u64) -> (r: u64)
    requires
        1 <= p <= BRIGHT,
    ensures
        r == gain_for(p as int),
{
    if p < 59 {
        4 * GAIN_ONE
    } else if p < 118 {
        proof {
            lemma_gain(p as int);
        }
        2 * nearest_of(TARGET * GAIN_ONE / 2, p)
    } else {
        nearest_of(TARGET * GAIN_ONE, p)
    }
}

/// How many of the first `n` pixels have luma `v`.
pub open spec fn count_at(px: Seq<u8>, n: int, v: int) -> int
    decreases n,
{
    if n <= 0 {
        0
    } else {
        count_at(px, n - 1, v) + if luma_at(px, n - 1) == v {
            1int
        } else {
            0
        }
    }
}

proof fn lemma_counts(px: Seq<u8>, n: int, v: int)
    requires
        0 <= n,
        4 * n <= px.len(),
    ensures
        count_upto(px, n, v) == count_upto(px, n, v - 1) + count_at(px, n, v),
        0 <= count_upto(px, n, v) <= n,
        0 <= count_at(px, n, v) <= n,
        count_upto(px, n, -1) == 0,
    decreases n,
{
    if n > 0 {
        lemma_counts(px, n - 1, v);
    }
}

/// Luma of pixel `i`.
fn luma_of(px: &Vec<u8>, i: usize) -> (r: u8)
    requires
        4 * i + 3 < px.len(),
    ensures
        r == luma_at(px@, i as int),
{
    let y: u32 = (px[4 * i] as u32 * 54 + px[4 * i + 1] as u32 * 183 + px[4 * i + 2] as u32 * 19)
        / 256;
    y as u8
}

/// The highlight level of an image.
fn highlight_of(px: &Vec<u8>) -> (r: u64)
    ensures
        r == highlight(px@),
        r <= 255,
{
    let n: usize = px.len() / 4;
    let mut hist: Vec<u64> = vec![0u64; 256];
    let mut i: usize = 0;
    while i < n
        invariant
            i <= n,
            4 * n <= px.len(),
            hist.len() == 256,
            forall|v: int| 0 <= v < 256 ==> #[trigger] hist@[v] == count_at(px@, i as int, v),
        decreases n - i,
    {
        let y: usize = luma_of(px, i) as usize;
        proof {
            lemma_counts(px@, i as int, y as int);
        }
        let c: u64 = hist[y];
        hist.set(y, c + 1);
        i += 1;
    }
    let cutoff: u64 = (n - n / 200) as u64;
    let mut acc: u64 = 0;
    let mut v: usize = 0;
    proof {
        lemma_counts(px@, n as int, -1);
    }
    while v < 256
        invariant
            v <= 256,
            4 * n <= px.len(),
            hist.len() == 256,
            cutoff == n - n / 200,
            forall|w: int| 0 <= w < 256 ==> #[trigger] hist@[w] == count_at(px@, n as int, w),
            acc == count_upto(px@, n as int, v - 1),
            v <= 255 ==> highlight(px@) == level_from(px@, n as int, cutoff as int, v as int),
            v == 256 ==> highlight(px@) == 255,
            n == px@.len() / 4,
        decreases 256 - v,
    {
        proof {
            lemma_counts(px@, n as int, v as int);
        }
        acc += hist[v];
        if acc >= cutoff {
            return v as u64;
        }
        v += 1;
    }
    255
}

/// Display-only auto brighten for browsing dark frames: if the 99.5th
/// percentile of luma is below `TARGET`, scale all channels linearly so it
/// lands there (gain capped at 4x, clipped). Bright images are left alone.
/// Never applied to the lumas that are scored or tracked.
pub fn auto_brighten(img: &mut Rgba)
    ensures
        final(img).pixels@ == brightened_pixels(old(img).pixels@),
        final(img).width == old(img).width,
        final(img).height == old(img).height,
{
    let h: u64 = highlight_of(&img.pixels);
    let p: u64 = if h < 1 {
        1
    } else {
        h
    };
    let ghost px0 = img.pixels@;
    if p > BRIGHT {
        assert(img.pixels@ =~= brightened_pixels(px0));
        return;
    }
    let gain: u64 = gain_of(p);
    proof {
        lemma_gain(p as int);
    }
    let mut lut: Vec<u8> = Vec::new();
    let mut v: usize = 0;
    while v < 256
        invariant
            v <= 256,
            gain <= 4 * GAIN_ONE,
            lut.len() == v,
            forall|w: int| 0 <= w < v ==> #[trigger] lut@[w] == brightened(w, gain as int),
        decreases 256 - v,
    {
        lut.push(lifted(v as u8, gain));
        v += 1;
    }
    let end: usize = img.pixels.len() / 4 * 4;
    let mut i: usize = 0;
    while i < end
        invariant
            i <= end,
            end == 4 * (px0.len() / 4),
            lut.len() == 256,
            gain == gain_for(p as int),
            p == gain_level(px0),
            p <= BRIGHT,
            forall|w: int| 0 <= w < 256 ==> #[trigger] lut@[w] == brightened(w, gain as int),
            img.width == old(img).width,
            img.height == old(img).height,
            img.pixels@.len() == px0.len(),
            forall|j: int|
                0 <= j < px0.len() ==> #[trigger] img.pixels@[j] == (if j < i {
                    brightened_pixels(px0)[j]
                } else {
                    px0[j]
                }),
        decreases end - i,
    {
        if i % 4 != 3 {
            let c: usize = img.pixels[i] as usize;
            img.pixels.set(i, lut[c]);
        }
        i += 1;
    }
    assert(img.pixels@ =~= brightened_pixels(px0));
}

/// Luma of every pixel of an RGBA buffer.
pub open spec fn lumas(px: Seq<u8>) -> Seq<u8> {
    Seq::new((px.len() as int / 4) as nat, |i: int| luma_at(px, i) as u8)
}

/// The colour of focus peaking.
pub open spec fn peak_color(c: int) -> u8 {
    if c == 0 {
        255
    } else {
        48
    }
}

/// The image with the pixels that pass the peaking test painted.
pub open spec fn peaked_pixels(px: Seq<u8>, w: int, h: int) -> Seq<u8> {
    Seq::new(
        px.len(),
        |i: int|
            if i % 4 != 3 && eye::peaks(lumas(px), w, h, (i / 4) % w, (i / 4) / w) {
                peak_color(i % 4)
            } else {
                px[i]
            },
    )
}

/// Display-only focus peaking, like a camera's MF peaking: pixels whose
/// high-frequency contrast passes `eye::PEAK_THRESHOLD` are painted red.
/// The same test drives the coverage score, so what lights up is what counts.
pub fn peaking_overlay(img: &mut Rgba)
    requires
        old(img).wf(),
    ensures
        final(img).pixels@ == peaked_pixels(
            old(img).pixels@,
            old(img).width as int,
            old(img).height as int,
        ),
        final(img).width == old(img).width,
        final(img).height == old(img).height,
{
    let total: usize = img.pixels.len();
    let n: usize = total / 4;
    let (w, h): (usize, usize) = (img.width, img.height);
    let ghost px0 = img.pixels@;
    let mut luma: Vec<u8> = Vec::new();
    let mut i: usize = 0;
    while i < n
        invariant
            i <= n,
            n == total / 4,
            total == img.pixels@.len(),
            img.pixels@ == px0,
            img.width == w,
            img.height == h,
            luma@ == lumas(px0).take(i as int),
        decreases n - i,
    {
        luma.push(luma_of(&img.pixels, i));
        assert(luma@ =~= lumas(px0).take(i + 1));
        i += 1;
    }
    assert(luma@ =~= lumas(px0));
    let all = crate::score::Rect { x: 0, y: 0, w, h };
    let mask = eye::peaking_mask(&luma, w, h, all);
    let mut k: usize = 0;
    while k < n
        invariant
            k <= n,
            n == total / 4,
            total == px0.len(),
            n == w * h,
            total == 4 * n,
            img.width == w,
            img.height == h,
            all == (crate::score::Rect { x: 0, y: 0, w, h }),
            mask@ == eye::peak_mask(lumas(px0), w as int, h as int, all),
            img.pixels@.len() == total,
            forall|j: int|
                0 <= j < total ==> #[trigger] img.pixels@[j] == (if j < 4 * k {
                    peaked_pixels(px0, w as int, h as int)[j]
                } else {
                    px0[j]
                }),
        decreases n - k,
    {
        let ghost before = img.pixels@;
        assert(mask@[k as int] == eye::peaks(
            lumas(px0),
            w as int,
            h as int,
            k as int % w as int,
            k as int / w as int,
        ));
        if mask[k] {
            img.pixels.set(4 * k, 255);
            img.pixels.set(4 * k + 1, 48);
            img.pixels.set(4 * k + 2, 48);
        }
        assert forall|j: int| 0 <= j < total implies #[trigger] img.pixels@[j] == (if j < 4 * (k
            + 1) {
            peaked_pixels(px0, w as int, h as int)[j]
        } else {
            px0[j]
        }) by {
            if 4 * k <= j < 4 * (k + 1) {
                assert(j / 4 == k);
            }
        }
        k += 1;
    }
    assert(img.pixels@ =~= peaked_pixels(px0, w as int, h as int));
}

/// Where EXIF says that the stored pixel `(x, y)` of a `w` by `h` image is
/// seen: 2 mirrors it left to right, 3 turns it by half, 4 mirrors it top to
/// bottom, 6 turns it by a quarter clockwise, 8 anticlockwise, and 5 and 7 are
/// 6 and 8 mirrored.
pub open spec fn seen_at(o: u16, w: int, h: int, x: int, y: int) -> (int, int) {
    match o {
        2 => (w - 1 - x, y),
        3 => (w - 1 - x, h - 1 - y),
        4 => (x, h - 1 - y),
        5 => (y, x),
        6 => (h - 1 - y, x),
        7 => (h - 1 - y, w - 1 - x),
        8 => (y, w - 1 - x),
        _ => (x, y),
    }
}

/// An image is turned as EXIF says: every stored pixel is found where it is to
/// be seen, and a point is mapped to the same place.
pub proof fn pictures_stand_upright(
    px: Seq<u8>,
    n: int,
    w: int,
    h: int,
    o: u16,
    x: int,
    y: int,
    c: int,
)
    requires
        px.len() == w * h * n,
        0 <= x < w,
        0 <= y < h,
        0 <= c < n,
    ensures
        ({
            let (p, q) = seen_at(o, w, h, x, y);
            let (ow, oh) = turned_dims(o, w, h);
            &&& 0 <= p < ow && 0 <= q < oh
            &&& (ow, oh) == if o == 5 || o == 6 || o == 7 || o == 8 {
                (h, w)
            } else {
                (w, h)
            }
            &&& oriented(px, n, w, h, o).len() == px.len()
            &&& oriented(px, n, w, h, o)[(q * ow + p) * n + c] == px[(y * w + x) * n + c]
            &&& displayed_at(point_mapping(o), w, h, x, y) == (p, q)
        }),
{
    let (p, q) = seen_at(o, w, h, x, y);
    let (ow, oh) = turned_dims(o, w, h);
    lemma_index(ow, oh, n, p, q, c);
    assert(ow * oh * n == w * h * n) by (nonlinear_arith)
        requires
            (ow == w && oh == h) || (ow == h && oh == w),
    ;
    assert(stored_at(o, w, h, p, q) == (x, y));
}

/// A window shows the pixels of the image that it lies over, and no others.
pub proof fn windows_show_what_lies_under_them(
    px: Seq<u8>,
    width: int,
    height: int,
    want: Window,
    r: (Luma, usize, usize),
    i: int,
    j: int,
)
    requires
        is_crop(px, width, height, want, r),
        want.x < width,
        want.y < height,
    ensures
        r.1 == want.x && r.2 == want.y,
        (0 <= i < r.0.width && 0 <= j < r.0.height) <==> (0 <= i < want.w && 0 <= j < want.h && want.x
            + i < width && want.y + j < height),
        0 <= i < r.0.width && 0 <= j < r.0.height ==> r.0.pixels@[j * r.0.width + i] == px[(want.y
            + j) * width + (want.x + i)],
{
    if 0 <= i < r.0.width && 0 <= j < r.0.height {
        lemma_index(r.0.width as int, r.0.height as int, 1, i, j, 0);
    }
}

/// A grey pixel's luma is its level, whatever its alpha; and luma lies between
/// the lowest and the highest channel.
pub proof fn luma_lies_between_the_channels(px: Seq<u8>, i: int, lo: int, hi: int)
    requires
        0 <= i,
        4 * i + 3 < px.len(),
        lo <= px[4 * i] <= hi,
        lo <= px[4 * i + 1] <= hi,
        lo <= px[4 * i + 2] <= hi,
    ensures
        lo <= luma_at(px, i) <= hi,
        lumas(px)[i] == luma_at(px, i),
        lumas(px).len() == px.len() / 4,
{
}

/// Green counts for more than red, and red for more than blue: 183, 54 and 19
/// parts in 256.
pub proof fn luma_weighs_the_channels(px: Seq<u8>, i: int)
    requires
        0 <= i,
        4 * i + 3 < px.len(),
    ensures
        px[4 * i + 1] == 0 && px[4 * i + 2] == 0 ==> 256 * luma_at(px, i) <= 54 * px[4 * i] < 256 * (
        luma_at(px, i) + 1),
        px[4 * i] == 0 && px[4 * i + 2] == 0 ==> 256 * luma_at(px, i) <= 183 * px[4 * i + 1] < 256 * (
        luma_at(px, i) + 1),
        px[4 * i] == 0 && px[4 * i + 1] == 0 ==> 256 * luma_at(px, i) <= 19 * px[4 * i + 2] < 256 * (
        luma_at(px, i) + 1),
{
}

/// The pixels whose luma is at most `v`.
pub open spec fn darker(px: Seq<u8>, n: int, v: int) -> Set<int> {
    Set::new(|i: int| 0 <= i < n && luma_at(px, i) <= v)
}

proof fn lemma_darker(px: Seq<u8>, n: int, v: int)
    requires
        0 <= n,
    ensures
        darker(px, n, v).finite(),
        count_upto(px, n, v) == darker(px, n, v).len(),
    decreases n,
{
    if n > 0 {
        lemma_darker(px, n - 1, v);
        if luma_at(px, n - 1) <= v {
            assert(darker(px, n, v) =~= darker(px, n - 1, v).insert(n - 1));
        } else {
            assert(darker(px, n, v) =~= darker(px, n - 1, v));
        }
    } else {
        assert(darker(px, n, v) =~= Set::empty());
    }
}

proof fn lemma_level(px: Seq<u8>, n: int, cutoff: int, v: int)
    requires
        0 <= v <= 255,
        v > 0 ==> count_upto(px, n, v - 1) < cutoff,
    ensures
        ({
            let p = level_from(px, n, cutoff, v);
            &&& v <= p <= 255
            &&& p > 0 ==> count_upto(px, n, p - 1) < cutoff
            &&& p < 255 ==> count_upto(px, n, p) >= cutoff
        }),
    decreases 255 - v,
{
    if v < 255 && count_upto(px, n, v) < cutoff {
        lemma_level(px, n, cutoff, v + 1);
    }
}

proof fn lemma_none_above_255(px: Seq<u8>, n: int)
    requires
        0 <= n,
    ensures
        count_upto(px, n, 255) == n,
    decreases n,
{
    if n > 0 {
        lemma_none_above_255(px, n - 1);
    }
}

/// The highlight level is the 99.5th percentile: the lowest luma that all but
/// one pixel in 200 do not exceed.
pub proof fn highlights_are_the_brightest_few(px: Seq<u8>)
    ensures
        ({
            let n = px.len() as int / 4;
            let p = highlight(px);
            &&& 0 <= p <= 255
            &&& darker(px, n, p).finite() && darker(px, n, p).len() >= n - n / 200
            &&& p > 0 ==> darker(px, n, p - 1).finite() && darker(px, n, p - 1).len() < n - n / 200
        }),
{
    let n = px.len() as int / 4;
    let p = highlight(px);
    lemma_level(px, n, n - n / 200, 0);
    lemma_darker(px, n, p);
    lemma_darker(px, n, p - 1);
    lemma_none_above_255(px, n);
}

/// An image is brightened only where its highlights lie below 235; its alpha
/// never changes; and no channel gets darker or more than four times as
/// bright.
pub proof fn brightening_spares_bright_frames(px: Seq<u8>, i: int)
    requires
        0 <= i < px.len(),
        px.len() % 4 == 0,
    ensures
        brightened_pixels(px).len() == px.len(),
        highlight(px) >= 235 ==> brightened_pixels(px)[i] == px[i],
        i % 4 == 3 ==> brightened_pixels(px)[i] == px[i],
        px[i] <= brightened_pixels(px)[i] <= 4 * px[i],
{
    let p = gain_level(px);
    lemma_level(px, px.len() as int / 4, px.len() as int / 4 - (px.len() as int / 4) / 200, 0);
    if p <= BRIGHT {
        brightening_only_lifts(px[i] as int, p);
    }
}

/// Brightening is in proportion: a channel of a frame whose highlights are at
/// `p` is lifted by 235 / p, give or take a level, or by 4 where `p` is below
/// 59, up to 255.
pub proof fn brightening_is_in_proportion(px: Seq<u8>, i: int)
    requires
        0 <= i < px.len(),
        px.len() % 4 == 0,
        i % 4 != 3,
        highlight(px) < 235,
    ensures
        ({
            let (p, v, b) = (highlight(px), px[i] as int, brightened_pixels(px)[i] as int);
            &&& p < 59 ==> b == if 4 * v < 255 {
                4 * v
            } else {
                255
            }
            &&& p >= 59 ==> b <= 255 && p * b <= 235 * v + 1 && (b < 255 ==> 235 * v - 1 < p * (b + 1))
            &&& p >= 59 && b == 255 ==> 235 * v >= 255 * p - 1
        }),
{
    let n = px.len() as int / 4;
    lemma_level(px, n, n - n / 200, 0);
    let p = gain_level(px);
    let v = px[i] as int;
    let g = gain_for(p);
    let m = v * g;
    lemma_gain(p);
    lemma_product(v, g);
    lemma_to_single(m);
    let t = to_single(m);
    let q = t / GAIN_ONE as int;
    assert(brightened_pixels(px)[i] == min_of(q, 255) as u8);
    assert(0 <= q);
    if p < 59 {
        assert(m == 4 * v * 0x80_0000) by (nonlinear_arith)
            requires
                m == v * g,
                g == 4 * 0x80_0000,
        ;
        lemma_whole_levels(4 * v);
        assert(m == (4 * v) * 0x80_0000);
    } else {
        assert(t <= m + 512 && m <= t + 512);
        assert(p * m <= v * (235 * 0x80_0000 + p) && p * m >= v * (235 * 0x80_0000 - p))
            by (nonlinear_arith)
            requires
                m == v * g,
                v >= 0,
                235 * 0x80_0000 - p <= p * g <= 235 * 0x80_0000 + p,
        ;
        assert(p * t <= p * m + 512 * p && p * t >= p * m - 512 * p) by (nonlinear_arith)
            requires
                m - 512 <= t <= m + 512,
                p >= 0,
        ;
        assert(v * (235 * 0x80_0000 + p) == (235 * v) * 0x80_0000 + v * p) by (nonlinear_arith);
        assert(v * (235 * 0x80_0000 - p) == (235 * v) * 0x80_0000 - v * p) by (nonlinear_arith);
        assert(0 <= v * p <= 255 * 234) by (nonlinear_arith)
            requires
                0 <= v <= 255,
                0 <= p <= 234,
        ;
        assert(q * 0x80_0000 <= t < (q + 1) * 0x80_0000);
        assert(p * (q * 0x80_0000) <= p * t && p * t < p * ((q + 1) * 0x80_0000)) by (nonlinear_arith)
            requires
                q * 0x80_0000 <= t < (q + 1) * 0x80_0000,
                p > 0,
        ;
        assert(p * (q * 0x80_0000) == (p * q) * 0x80_0000) by (nonlinear_arith);
        assert(p * ((q + 1) * 0x80_0000) == (p * (q + 1)) * 0x80_0000) by (nonlinear_arith);
        let b = min_of(q, 255);
        assert(p * b <= p * q) by (nonlinear_arith)
            requires
                b <= q,
                p > 0,
        ;
    }
}

proof fn lemma_whole_levels(k: int)
    requires
        0 <= k <= 1020,
    ensures
        to_single(k * 0x80_0000) == k * 0x80_0000,
{
    let m = k * 0x80_0000;
    lemma_last_place(m);
    let u = last_place(m);
    assert(u == 1 || u == 2 || u == 4 || u == 8 || u == 16 || u == 32 || u == 64 || u == 128 || u
        == 256 || u == 512 || u == 1024) by {
        reveal_with_fuel(last_place, 12);
    }
    assert(m % u == 0 && (m / u) * u == m);
}

proof fn lemma_painted(px: Seq<u8>, w: int, h: int, x: int, y: int, c: int)
    requires
        px.len() == w * h * 4,
        0 <= x < w,
        0 <= y < h,
        0 <= c < 4,
    ensures
        0 <= 4 * (y * w + x) + c < px.len(),
        peaked_pixels(px, w, h)[4 * (y * w + x) + c] == if c != 3 && eye::peaks(
            lumas(px),
            w,
            h,
            x,
            y,
        ) {
            peak_color(c)
        } else {
            px[4 * (y * w + x) + c]
        },
{
    lemma_index(w, h, 4, x, y, c);
    let i = byte_index(w, 4, x, y, c);
    assert(i == 4 * (y * w + x) + c);
    assert(i % 4 == c && i / 4 == y * w + x);
}

/// Focus peaking paints the pixels that are in focus, in red, and no others;
/// alpha stays.
pub proof fn overlays_paint_what_is_in_focus(px: Seq<u8>, w: usize, h: usize, x: int, y: int)
    requires
        px.len() == w * h * 4,
        0 <= x < w,
        0 <= y < h,
    ensures
        ({
            let out = peaked_pixels(px, w as int, h as int);
            let i = 4 * (y * w + x);
            &&& out.len() == px.len()
            &&& 0 <= i && i + 3 < px.len()
            &&& out[i + 3] == px[i + 3]
            &&& if eye::in_focus(lumas(px), w, h, x, y) {
                out[i] == 255 && out[i + 1] == 48 && out[i + 2] == 48
            } else {
                out[i] == px[i] && out[i + 1] == px[i + 1] && out[i + 2] == px[i + 2]
            }
        }),
{
    let l = lumas(px);
    assert(eye::in_focus(l, w, h, x, y) == eye::peaks(l, w as int, h as int, x, y)) by {
        eye::lemma_in_focus(l, w, h, x, y);
    }
    lemma_painted(px, w as int, h as int, x, y, 0);
    lemma_painted(px, w as int, h as int, x, y, 1);
    lemma_painted(px, w as int, h as int, x, y, 2);
    lemma_painted(px, w as int, h as int, x, y, 3);
}

/// A dimension at a reduced scale is rounded up: it covers all of the image,
/// and one pixel less would not.
pub proof fn scaled_dimensions_round_up(d: int, denom: int)
    requires
        denom > 0,
    ensures
        scaled(d, denom) * denom >= d,
        (scaled(d, denom) - 1) * denom < d,
{
    let n = d + denom - 1;
    lemma_fundamental_div_mod(n, denom);
    lemma_mod_bound(n, denom);
    let q = n / denom;
    assert(q * denom == denom * q && (q - 1) * denom == denom * q - denom) by (nonlinear_arith);
}

} // verus!
