//! The compositor: maps a destination viewport onto the captured
//! frame, picks a luminance-adaptive invert effect, fills the
//! destination surface and stamps a small animated overlay marker.
//!
//! The destination is a caller-owned surface of
//! `4 * target_width * target_height` bytes, four per pixel, whose
//! alpha channel is forced opaque once on (re)allocation and is never
//! touched by a draw.

use vstd::prelude::*;

use crate::record::Screenshot;

verus! {

/// The destination rectangle: its client size and its on-screen
/// position relative to the captured source's origin, read fresh from
/// the live window every redraw.
pub struct Viewport {
    pub target_width: usize,
    pub target_height: usize,
    pub offset_x: i32,
    pub offset_y: i32,
}

/// The source pixel sampled for destination pixel `(row, col)`: the
/// linear index `(row + oy) * w + col + ox`, clamped into
/// `[0, w * h - 1]`. Destination pixels outside the source repeat the
/// nearest boundary pixel instead of failing.
pub open spec fn clamped_source_index(row: int, col: int, ox: int, oy: int, w: int, h: int) -> int {
    let j = (row + oy) * w + col + ox;
    let max_j = w * h - 1;
    let m = if j < max_j {
        j
    } else {
        max_j
    };
    if m < 0 {
        0
    } else {
        m
    }
}

/// The clamp law: for any destination coordinate, even with offsets
/// far outside the source, the sampled index stays within the source
/// buffer's pixel range.
pub proof fn lemma_source_index_in_bounds(row: int, col: int, ox: int, oy: int, w: int, h: int)
    requires
        w * h >= 1,
    ensures
        0 <= clamped_source_index(row, col, ox, oy, w, h) <= w * h - 1,
{
}

/// The columns of the sampled region: `[ox, ox + tw)` clipped to
/// `[0, w)`, as a left edge ...
pub open spec fn sample_x0(ox: int, w: int) -> int {
    if ox < 0 {
        0
    } else if ox > w {
        w
    } else {
        ox
    }
}

/// ... and a right edge.
pub open spec fn sample_x1(ox: int, tw: int, w: int) -> int {
    sample_x0(ox + tw, w)
}

/// The first sampled source row: `[oy, oy + th)` clipped to `[0, h)`.
pub open spec fn sample_r0(oy: int) -> int {
    if oy < 0 {
        0
    } else {
        oy
    }
}

/// The row after the last sampled source row.
pub open spec fn sample_r1(oy: int, th: int, h: int) -> int {
    if oy + th > h {
        h
    } else {
        oy + th
    }
}

/// The sum of the bytes `data[lo .. hi)`.
pub open spec fn byte_sum(data: Seq<u8>, lo: int, hi: int) -> int
    decreases hi - lo,
{
    if hi <= lo {
        0
    } else {
        byte_sum(data, lo, hi - 1) + data[hi - 1]
    }
}

/// The sum of the sampled bytes of rows `[r0, r1)`: in each source row
/// `r` the bytes of columns `[x0, x1)`, four per pixel.
pub open spec fn region_sum(data: Seq<u8>, w: int, x0: int, x1: int, r0: int, r1: int) -> int
    decreases r1 - r0,
{
    if r1 <= r0 {
        0
    } else {
        region_sum(data, w, x0, x1, r0, r1 - 1) + byte_sum(
            data,
            (r1 - 1) * (4 * w) + 4 * x0,
            (r1 - 1) * (4 * w) + 4 * x1,
        )
    }
}

/// The byte sum of the viewport's sampled region within the source.
pub open spec fn luminance_sum(data: Seq<u8>, w: int, h: int, tw: int, th: int, ox: int, oy: int) -> int {
    region_sum(data, w, sample_x0(ox, w), sample_x1(ox, tw, w), sample_r0(oy), sample_r1(oy, th, h))
}

/// The effect decision: invert exactly when the mean sampled byte
/// value, taken over all `4 * tw * th` destination bytes, exceeds 150.
/// Stated without division: `sum / (4 * tw * th) > 150` exactly when
/// `sum > 150 * (4 * tw * th)`.
pub open spec fn invert_decision(data: Seq<u8>, w: int, h: int, tw: int, th: int, ox: int, oy: int) -> bool {
    luminance_sum(data, w, h, tw, th, ox, oy) > 150 * (4 * tw * th)
}

/// A byte sum is bounded by 255 per byte.
pub proof fn lemma_byte_sum_bounds(data: Seq<u8>, lo: int, hi: int)
    requires
        lo <= hi,
    ensures
        0 <= byte_sum(data, lo, hi) <= 255 * (hi - lo),
    decreases hi - lo,
{
    if hi > lo {
        lemma_byte_sum_bounds(data, lo, hi - 1);
    }
}

/// A region sum is bounded by 255 per sampled byte.
pub proof fn lemma_region_sum_bounds(data: Seq<u8>, w: int, x0: int, x1: int, r0: int, r1: int)
    requires
        r0 <= r1,
        x0 <= x1,
    ensures
        0 <= region_sum(data, w, x0, x1, r0, r1) <= 255 * (r1 - r0) * (4 * (x1 - x0)),
    decreases r1 - r0,
{
    if r1 > r0 {
        lemma_region_sum_bounds(data, w, x0, x1, r0, r1 - 1);
        lemma_byte_sum_bounds(data, (r1 - 1) * (4 * w) + 4 * x0, (r1 - 1) * (4 * w) + 4 * x1);
        assert(255 * (r1 - 1 - r0) * (4 * (x1 - x0)) + 255 * (4 * x1 - 4 * x0) == 255 * (r1 - r0)
            * (4 * (x1 - x0))) by (nonlinear_arith);
    }
}

/// Pointwise larger bytes never shrink a byte sum.
pub proof fn lemma_byte_sum_monotonic(d1: Seq<u8>, d2: Seq<u8>, lo: int, hi: int)
    requires
        lo <= hi,
        forall|k: int| lo <= k < hi ==> d1[k] <= d2[k],
    ensures
        byte_sum(d1, lo, hi) <= byte_sum(d2, lo, hi),
    decreases hi - lo,
{
    if hi > lo {
        lemma_byte_sum_monotonic(d1, d2, lo, hi - 1);
    }
}

/// Pointwise larger bytes never shrink a region sum.
pub proof fn lemma_region_sum_monotonic(d1: Seq<u8>, d2: Seq<u8>, w: int, x0: int, x1: int, r0: int, r1: int)
    requires
        r0 <= r1,
        x0 <= x1,
        forall|r: int, k: int|
            r0 <= r < r1 && 4 * x0 <= k < 4 * x1 ==> d1[#[trigger] (r * (4 * w) + k)] <= d2[r * (4
                * w) + k],
    ensures
        region_sum(d1, w, x0, x1, r0, r1) <= region_sum(d2, w, x0, x1, r0, r1),
    decreases r1 - r0,
{
    if r1 > r0 {
        lemma_region_sum_monotonic(d1, d2, w, x0, x1, r0, r1 - 1);
        assert forall|j: int|
            (r1 - 1) * (4 * w) + 4 * x0 <= j < (r1 - 1) * (4 * w) + 4 * x1 implies d1[j] <= d2[j] by {
            let k = j - (r1 - 1) * (4 * w);
            assert(d1[#[trigger] ((r1 - 1) * (4 * w) + k)] <= d2[(r1 - 1) * (4 * w) + k]);
        }
        lemma_byte_sum_monotonic(d1, d2, (r1 - 1) * (4 * w) + 4 * x0, (r1 - 1) * (4 * w) + 4 * x1);
    }
}

/// The invert decision is monotonic: raising every sampled byte while
/// the region stays fixed can only turn the effect on, never off.
pub proof fn lemma_invert_monotonic(d1: Seq<u8>, d2: Seq<u8>, w: int, h: int, tw: int, th: int, ox: int, oy: int)
    requires
        0 <= w,
        0 <= tw,
        0 <= th,
        forall|r: int, k: int|
            sample_r0(oy) <= r < sample_r1(oy, th, h) && 4 * sample_x0(ox, w) <= k < 4 * sample_x1(
                ox,
                tw,
                w,
            ) ==> d1[#[trigger] (r * (4 * w) + k)] <= d2[r * (4 * w) + k],
    ensures
        invert_decision(d1, w, h, tw, th, ox, oy) ==> invert_decision(d2, w, h, tw, th, ox, oy),
{
    let x0 = sample_x0(ox, w);
    let x1 = sample_x1(ox, tw, w);
    let r0 = sample_r0(oy);
    let r1 = sample_r1(oy, th, h);
    if r0 <= r1 {
        assert(x0 <= x1);
        lemma_region_sum_monotonic(d1, d2, w, x0, x1, r0, r1);
    }
}

/// The linear source index computed during the fill stays well inside
/// the 128-bit range before it is clamped.
proof fn lemma_ji_in_i128(row: int, oy: int, w: int)
    requires
        0 <= row <= usize::MAX,
        i32::MIN <= oy <= i32::MAX,
        0 <= w <= u32::MAX,
    ensures
        -0x10_0000_0000_0000_0000_0000_0000 <= (row + oy) * w <= 0x10_0000_0000_0000_0000_0000_0000,
{
    assert(-0x10_0000_0000_0000_0000_0000_0000 <= (row + oy) * w
        <= 0x10_0000_0000_0000_0000_0000_0000) by (nonlinear_arith)
        requires
            -0x8000_0000 <= row + oy <= 0x2_0000_0000_0000_0000,
            0 <= w <= 0x1_0000_0000,
    ;
}

/// Helper bound: a partial product of row count and row width never
/// exceeds the whole buffer.
proof fn lemma_mul_le(a: int, b: int, c: int, d: int)
    requires
        0 <= a <= c,
        0 <= b <= d,
    ensures
        a * b <= c * d,
{
    assert(a * b <= c * d) by (nonlinear_arith)
        requires
            0 <= a <= c,
            0 <= b <= d,
    ;
}

/// Sums the bytes of the viewport's sampled region of the source.
fn sampled_sum(pix: &Screenshot, tw: usize, th: usize, ox: i32, oy: i32) -> (sum: u128)
    requires
        pix.wf(),
        1 <= tw,
        1 <= th,
        4 * tw * th <= usize::MAX,
    ensures
        sum == luminance_sum(
            pix.data@,
            pix.width as int,
            pix.height as int,
            tw as int,
            th as int,
            ox as int,
            oy as int,
        ),
{
    let w = pix.width;
    let h = pix.height;
    let data_len: usize = pix.data.len();
    proof {
        assert(4 * tw <= usize::MAX && 4 * th <= usize::MAX) by (nonlinear_arith)
            requires
                1 <= tw,
                1 <= th,
                4 * tw * th <= usize::MAX,
        ;
    }
    let wl: i64 = w as i64;
    let oxl: i64 = ox as i64;
    let oyl: i64 = oy as i64;
    let x0l: i64 = if oxl < 0 {
        0
    } else if oxl > wl {
        wl
    } else {
        oxl
    };
    let xrl: i64 = oxl + tw as i64;
    let x1l: i64 = if xrl < 0 {
        0
    } else if xrl > wl {
        wl
    } else {
        xrl
    };
    let r0l: i64 = if oyl < 0 {
        0
    } else {
        oyl
    };
    let r1l: i64 = {
        let e: i64 = oyl + th as i64;
        if e > h as i64 {
            h as i64
        } else {
            e
        }
    };
    proof {
        assert(x0l == sample_x0(ox as int, w as int));
        assert(x1l == sample_x1(ox as int, tw as int, w as int));
        assert(r0l == sample_r0(oy as int));
        assert(r1l == sample_r1(oy as int, th as int, h as int));
    }
    let mut sum: u128 = 0;
    if r0l >= r1l {
        return sum;
    }
    let x0: usize = x0l as usize;
    let x1: usize = x1l as usize;
    let r1: usize = r1l as usize;
    let mut r: usize = r0l as usize;
    while r < r1
        invariant
            pix.wf(),
            w == pix.width,
            h == pix.height,
            data_len == pix.data.len(),
            x0 == sample_x0(ox as int, w as int),
            x1 == sample_x1(ox as int, tw as int, w as int),
            r as int >= sample_r0(oy as int),
            r1 == sample_r1(oy as int, th as int, h as int),
            0 <= x0 <= x1 <= w,
            r <= r1 <= h,
            sum == region_sum(
                pix.data@,
                w as int,
                x0 as int,
                x1 as int,
                sample_r0(oy as int),
                r as int,
            ),
        decreases r1 - r,
    {
        let ghost r0g: int = sample_r0(oy as int);
        proof {
            lemma_mul_le(r as int, 4 * w as int, h as int, 4 * w as int);
            lemma_mul_le(r as int + 1, 4 * w as int, h as int, 4 * w as int);
            assert(h as int * (4 * w as int) == 4 * w * h) by (nonlinear_arith);
            assert((r + 1) * (4 * w) == r * (4 * w) + 4 * w) by (nonlinear_arith);
        }
        let row_base: usize = r * (4 * (w as usize));
        let lo: usize = row_base + 4 * x0;
        let hi: usize = row_base + 4 * x1;
        let mut idx: usize = lo;
        while idx < hi
            invariant
                pix.wf(),
                w == pix.width,
                data_len == pix.data.len(),
                row_base == r * (4 * w),
                row_base + 4 * w <= data_len,
                lo == row_base + 4 * x0,
                hi == row_base + 4 * x1,
                lo <= idx <= hi,
                0 <= x0 <= x1 <= w,
                0 <= r0g <= r,
                r < h,
                h == pix.height,
                sum == region_sum(pix.data@, w as int, x0 as int, x1 as int, r0g, r as int)
                    + byte_sum(pix.data@, lo as int, idx as int),
            decreases hi - idx,
        {
            let ghost a: int = r as int - r0g;
            let ghost b: int = 4 * (x1 as int - x0 as int);
            proof {
                lemma_region_sum_bounds(pix.data@, w as int, x0 as int, x1 as int, r0g, r as int);
                lemma_byte_sum_bounds(pix.data@, lo as int, idx as int);
                lemma_mul_le(a, b, h as int, 4 * (w as int));
                lemma_mul_le(1, 4 * (w as int), h as int, 4 * (w as int));
                assert(255 * a * b == 255 * (a * b)) by (nonlinear_arith);
                assert((h as int) * (4 * (w as int)) == 4 * (w as int) * (h as int)) by (nonlinear_arith);
                assert(sum <= 510 * (4 * (w as int) * (h as int)));
                assert(sum + 255 <= u128::MAX);
                assert(byte_sum(pix.data@, lo as int, idx as int + 1) == byte_sum(
                    pix.data@,
                    lo as int,
                    idx as int,
                ) + pix.data@[idx as int]);
            }
            sum = sum + pix.data[idx] as u128;
            idx = idx + 1;
        }
        r = r + 1;
        proof {
            assert(region_sum(pix.data@, w as int, x0 as int, x1 as int, r0g, r as int)
                == region_sum(pix.data@, w as int, x0 as int, x1 as int, r0g, r as int - 1)
                + byte_sum(
                pix.data@,
                (r - 1) * (4 * w) + 4 * x0,
                (r - 1) * (4 * w) + 4 * x1,
            ));
        }
    }
    sum
}

/// The effect decision for one redraw: whether the sampled region is
/// bright enough that the viewport should render inverted.
pub fn decide_invert(pix: &Screenshot, tw: usize, th: usize, ox: i32, oy: i32) -> (inv: bool)
    requires
        pix.wf(),
        1 <= tw,
        1 <= th,
        4 * tw * th <= usize::MAX,
    ensures
        inv == invert_decision(
            pix.data@,
            pix.width as int,
            pix.height as int,
            tw as int,
            th as int,
            ox as int,
            oy as int,
        ),
{
    let sum = sampled_sum(pix, tw, th, ox, oy);
    proof {
        assert(tw * th <= 4 * tw * th && 4 * tw * th == 4 * (tw * th)) by (nonlinear_arith)
            requires
                1 <= tw,
                1 <= th,
        ;
        assert(150 * (4 * (tw as int) * (th as int)) == 600 * ((tw as int) * (th as int)))
            by (nonlinear_arith);
    }
    let pixels: u128 = (tw as u128) * (th as u128);
    sum > 600u128 * pixels
}

/// One destination colour byte before the overlay: destination
/// channel `c` (0, 1 or 2) of the pixel whose sampled source pixel is
/// `j`. The source's byte order is the reverse of the destination's,
/// so destination channel `c` reads source byte `2 - c`; under the
/// invert effect every channel value `v` becomes `255 - v`.
pub open spec fn shade_channel(data: Seq<u8>, j: int, c: int, inv: bool) -> u8
    recommends
        0 <= c <= 2,
{
    let v = data[4 * j + (2 - c)];
    if inv {
        (255 - v) as u8
    } else {
        v
    }
}

/// Whether destination pixel `p` lies in the 10-by-10 overlay block at
/// the destination origin. The overlay is only stamped on surfaces
/// strictly larger than the block.
pub open spec fn overlay_pixel(tw: int, th: int, p: int) -> bool {
    tw > 10 && th > 10 && 0 <= p && p % tw < 10 && p / tw < 10
}

/// The overlay mask for one redraw: the low four bits of the
/// animation counter, shifted into the high nibble.
pub open spec fn flash_byte(cnt: int) -> u8 {
    ((cnt % 16) * 16) as u8
}

/// Destination byte `k` as the fill loop writes it, before the
/// overlay: the channel-swapped, possibly inverted sample for the
/// pixel `k / 4`. Only meaningful for colour bytes (`k % 4 != 3`).
pub open spec fn base_byte(
    k: int,
    data: Seq<u8>,
    w: int,
    h: int,
    tw: int,
    th: int,
    ox: int,
    oy: int,
) -> u8
    recommends
        k % 4 != 3,
{
    let p = k / 4;
    shade_channel(
        data,
        clamped_source_index(p / tw, p % tw, ox, oy, w, h),
        k % 4,
        invert_decision(data, w, h, tw, th, ox, oy),
    )
}

/// Destination byte `k` after a complete draw: alpha bytes keep their
/// previous value, colour bytes come from the sampled, channel-swapped,
/// possibly inverted source, and the first byte of each overlay pixel
/// is XORed with the overlay mask.
pub open spec fn composed_byte(
    k: int,
    prev: Seq<u8>,
    data: Seq<u8>,
    w: int,
    h: int,
    tw: int,
    th: int,
    ox: int,
    oy: int,
    flash: u8,
) -> u8 {
    let p = k / 4;
    let c = k % 4;
    if c == 3 {
        prev[k]
    } else {
        let v = base_byte(k, data, w, h, tw, th, ox, oy);
        if c == 0 && overlay_pixel(tw, th, p) {
            v ^ flash
        } else {
            v
        }
    }
}

/// The animation counter after one redraw: it moves one step in the
/// current direction and the direction flips at the ends of `0..=15`,
/// giving a bounded oscillation.
pub open spec fn tick(cnt: int, dir: int) -> (int, int) {
    let c = if dir == 1 {
        cnt + 1
    } else {
        cnt - 1
    };
    let d = if c == 0 || c == 15 {
        -dir
    } else {
        dir
    };
    (c, d)
}

/// The compositor's persistent state: the overlay animation counter
/// and its direction. Not involved in any pipeline invariant beyond
/// its own bounded oscillation.
pub struct Renderer {
    cnt: usize,
    dir: i32,
}

impl Renderer {
    /// The animation counter.
    pub closed spec fn cnt(&self) -> int {
        self.cnt as int
    }

    /// The direction the counter moves in, `1` or `-1`.
    pub closed spec fn dir(&self) -> int {
        self.dir as int
    }

    /// The oscillation invariant: the counter stays in `0..=15` and
    /// never runs past an end without turning around.
    pub open spec fn inv(&self) -> bool {
        &&& self.dir() == 1 ==> 0 <= self.cnt() <= 14
        &&& self.dir() == -1 ==> 1 <= self.cnt() <= 15
        &&& (self.dir() == 1 || self.dir() == -1)
    }

    /// A fresh compositor, counting up from zero.
    pub fn new() -> (renderer: Renderer)
        ensures
            renderer.inv(),
            renderer.cnt() == 0,
            renderer.dir() == 1,
    {
        Renderer { cnt: 0, dir: 1 }
    }

    /// One redraw: fills the destination surface from the captured
    /// frame and advances the overlay animation.
    ///
    /// With a degenerate viewport (either dimension zero) the call is
    /// a no-op that leaves both the destination and the compositor
    /// state untouched. Otherwise every colour byte of the destination
    /// becomes the composed sample described by [`composed_byte`]:
    /// viewport-cropped with clamp-at-the-edges sampling, channel
    /// order swapped, inverted when the sampled region is bright, and
    /// the 10-by-10 origin block XORed with the overlay mask; alpha
    /// bytes are never touched.
    pub fn draw(&mut self, viewport: &Viewport, pix: &Screenshot, frame: &mut Vec<u8>)
        requires
            old(self).inv(),
            pix.wf(),
            viewport.target_width > 0 && viewport.target_height > 0 ==> pix.width * pix.height
                >= 1 && old(frame).len() == 4 * viewport.target_width * viewport.target_height,
        ensures
            final(self).inv(),
            viewport.target_width == 0 || viewport.target_height == 0 ==> final(frame)@ == old(
                frame,
            )@ && *final(self) == *old(self),
            viewport.target_width > 0 && viewport.target_height > 0 ==> {
                &&& final(frame)@.len() == old(frame)@.len()
                &&& (forall|k: int|
                    0 <= k < old(frame)@.len() ==> #[trigger] final(frame)@[k] == composed_byte(
                        k,
                        old(frame)@,
                        pix.data@,
                        pix.width as int,
                        pix.height as int,
                        viewport.target_width as int,
                        viewport.target_height as int,
                        viewport.offset_x as int,
                        viewport.offset_y as int,
                        flash_byte(old(self).cnt()),
                    ))
                &&& final(self).cnt() == tick(old(self).cnt(), old(self).dir()).0
                &&& final(self).dir() == tick(old(self).cnt(), old(self).dir()).1
            },
    {
        let tw: usize = viewport.target_width;
        let th: usize = viewport.target_height;
        if tw == 0 || th == 0 {
            return ;
        }
        let w = pix.width;
        let h = pix.height;
        let ox = viewport.offset_x;
        let oy = viewport.offset_y;
        let flen: usize = frame.len();
        let dlen: usize = pix.data.len();
        proof {
            assert(4 * (tw * th) == 4 * tw * th && tw * th <= 4 * tw * th) by (nonlinear_arith)
                requires
                    1 <= tw,
                    1 <= th,
            ;
            assert(4 * (w as int * h as int) == 4 * w * h && w as int * h as int <= 4 * (w as int
                * h as int)) by (nonlinear_arith);
        }
        let do_invert = decide_invert(pix, tw, th, ox, oy);
        let npix: usize = tw * th;
        let maxj: usize = (w as usize) * (h as usize) - 1;
        let mut p: usize = 0;
        while p < npix
            invariant
                pix.wf(),
                w == pix.width,
                h == pix.height,
                1 <= tw,
                1 <= th,
                npix == tw * th,
                flen == 4 * npix,
                dlen == pix.data.len(),
                dlen == 4 * (w as int * h as int),
                w as int * h as int >= 1,
                maxj == w as int * h as int - 1,
                p <= npix,
                frame@.len() == flen,
                old(frame)@.len() == flen,
                do_invert == invert_decision(
                    pix.data@,
                    w as int,
                    h as int,
                    tw as int,
                    th as int,
                    ox as int,
                    oy as int,
                ),
                forall|k: int|
                    0 <= k < flen && !(k < 4 * p && k % 4 != 3) ==> #[trigger] frame@[k] == old(
                        frame,
                    )@[k],
                forall|k: int|
                    0 <= k < 4 * p && k % 4 != 3 ==> #[trigger] frame@[k] == base_byte(
                        k,
                        pix.data@,
                        w as int,
                        h as int,
                        tw as int,
                        th as int,
                        ox as int,
                        oy as int,
                    ),
            decreases npix - p,
        {
            let row: usize = p / tw;
            let col: usize = p % tw;
            proof {
                lemma_ji_in_i128(row as int, oy as int, w as int);
            }
            let ji: i128 = (row as i128 + oy as i128) * (w as i128) + col as i128 + ox as i128;
            let j: usize = if ji < 0 {
                0
            } else if ji > maxj as i128 {
                maxj
            } else {
                ji as usize
            };
            proof {
                assert(j as int == clamped_source_index(
                    row as int,
                    col as int,
                    ox as int,
                    oy as int,
                    w as int,
                    h as int,
                ));
                assert(4 * j + 3 < dlen);
            }
            let b0 = pix.data[4 * j];
            let b1 = pix.data[4 * j + 1];
            let b2 = pix.data[4 * j + 2];
            let base: usize = 4 * p;
            if do_invert {
                frame.set(base, 255 - b2);
                frame.set(base + 1, 255 - b1);
                frame.set(base + 2, 255 - b0);
            } else {
                frame.set(base, b2);
                frame.set(base + 1, b1);
                frame.set(base + 2, b0);
            }
            p = p + 1;
            proof {
                assert forall|k: int| 4 * (p - 1) <= k < 4 * p && k % 4 != 3 implies #[trigger] frame@[k]
                    == base_byte(
                    k,
                    pix.data@,
                    w as int,
                    h as int,
                    tw as int,
                    th as int,
                    ox as int,
                    oy as int,
                ) by {
                    assert(k / 4 == p - 1);
                    assert((p - 1) / (tw as int) == row as int && (p - 1) % (tw as int)
                        == col as int) by {
                        vstd::arithmetic::div_mod::lemma_fundamental_div_mod(
                            (p - 1) as int,
                            tw as int,
                        );
                    }
                }
            }
        }
        let ghost mid = frame@;
        if tw > 10 && th > 10 {
            let fl: u8 = ((self.cnt % 16) as u8) << 4;
            proof {
                let ghost m: u8 = (self.cnt % 16) as u8;
                assert(m < 16 ==> (m << 4) == m * 16) by (bit_vector);
                assert(fl == flash_byte(self.cnt as int));
            }
            let mut jr: usize = 0;
            while jr < 10
                invariant
                    jr <= 10,
                    10 < tw,
                    10 < th,
                    npix == tw * th,
                    flen == 4 * npix,
                    frame@.len() == flen,
                    forall|k: int|
                        0 <= k < flen && !(k % 4 == 0 && overlay_pixel(tw as int, th as int, k / 4)
                            && k / 4 / (tw as int) < jr) ==> #[trigger] frame@[k] == mid[k],
                    forall|k: int|
                        0 <= k < flen && k % 4 == 0 && overlay_pixel(tw as int, th as int, k / 4)
                            && k / 4 / (tw as int) < jr ==> #[trigger] frame@[k] == (mid[k] ^ fl),
                decreases 10 - jr,
            {
                let mut ic: usize = 0;
                while ic < 10
                    invariant
                        ic <= 10,
                        jr < 10,
                        10 < tw,
                        10 < th,
                        npix == tw * th,
                        flen == 4 * npix,
                        frame@.len() == flen,
                        forall|k: int|
                            0 <= k < flen && !(k % 4 == 0 && overlay_pixel(
                                tw as int,
                                th as int,
                                k / 4,
                            ) && (k / 4 / (tw as int) < jr || (k / 4 / (tw as int) == jr && k / 4
                                % (tw as int) < ic))) ==> #[trigger] frame@[k] == mid[k],
                        forall|k: int|
                            0 <= k < flen && k % 4 == 0 && overlay_pixel(
                                tw as int,
                                th as int,
                                k / 4,
                            ) && (k / 4 / (tw as int) < jr || (k / 4 / (tw as int) == jr && k / 4
                                % (tw as int) < ic)) ==> #[trigger] frame@[k] == (mid[k] ^ fl),
                    decreases 10 - ic,
                {
                    proof {
                        lemma_mul_le(jr as int + 1, tw as int, th as int, tw as int);
                        assert(th as int * tw as int == tw * th) by (nonlinear_arith);
                        assert((jr + 1) * tw == jr * tw + tw) by (nonlinear_arith);
                    }
                    let pp: usize = ic + jr * tw;
                    let k: usize = 4 * pp;
                    proof {
                        vstd::arithmetic::div_mod::lemma_fundamental_div_mod_converse(
                            pp as int,
                            tw as int,
                            jr as int,
                            ic as int,
                        );
                        assert(k as int / 4 == pp as int && k as int % 4 == 0);
                        assert(overlay_pixel(tw as int, th as int, pp as int));
                    }
                    let v = frame[k];
                    let ghost prev = frame@;
                    frame.set(k, v ^ fl);
                    proof {
                        assert forall|kk: int|
                            0 <= kk < flen && kk % 4 == 0 && overlay_pixel(
                                tw as int,
                                th as int,
                                kk / 4,
                            ) && (kk / 4 / (tw as int) < jr || (kk / 4 / (tw as int) == jr && kk
                                / 4 % (tw as int) < ic + 1)) implies #[trigger] frame@[kk] == (
                        mid[kk] ^ fl) by {
                            let p2 = kk / 4;
                            vstd::arithmetic::div_mod::lemma_fundamental_div_mod(p2, tw as int);
                            if p2 / (tw as int) == jr && p2 % (tw as int) == ic {
                                assert(tw as int * (jr as int) == jr as int * (tw as int))
                                    by (nonlinear_arith);
                                assert(p2 == pp);
                                assert(kk == k as int);
                            } else {
                                assert(kk != k as int);
                                assert(frame@[kk] == prev[kk]);
                            }
                        }
                    }
                    ic = ic + 1;
                }
                jr = jr + 1;
            }
        }
        proof {
            assert forall|k: int| 0 <= k < flen implies #[trigger] frame@[k] == composed_byte(
                k,
                old(frame)@,
                pix.data@,
                w as int,
                h as int,
                tw as int,
                th as int,
                ox as int,
                oy as int,
                flash_byte(self.cnt as int),
            ) by {
                if k % 4 == 3 {
                    assert(frame@[k] == old(frame)@[k]);
                } else if k % 4 == 0 && overlay_pixel(tw as int, th as int, k / 4) {
                    assert(k / 4 / (tw as int) < 10);
                } else {
                    assert(frame@[k] == mid[k]);
                }
            }
        }
        if self.dir == 1 {
            self.cnt = self.cnt + 1;
        } else {
            self.cnt = self.cnt - 1;
        }
        if self.cnt == 0 || self.cnt == 15 {
            self.dir = -self.dir;
        }
    }

    /// Forces the alpha byte of every complete destination pixel to
    /// fully opaque. Called once whenever the destination surface is
    /// (re)allocated, before any draw into it.
    pub fn handle_resize(&self, frame: &mut Vec<u8>)
        ensures
            final(frame).len() == old(frame).len(),
            forall|k: int|
                0 <= k < old(frame)@.len() ==> final(frame)@[k] == (if k % 4 == 3 && k < 4 * (old(
                    frame,
                )@.len() / 4) {
                    255u8
                } else {
                    old(frame)@[k]
                }),
    {
        let pixels: usize = frame.len() / 4;
        let mut p: usize = 0;
        while p < pixels
            invariant
                pixels == frame@.len() / 4,
                p <= pixels,
                frame@.len() == old(frame)@.len(),
                forall|k: int|
                    0 <= k < frame@.len() ==> frame@[k] == (if k % 4 == 3 && k < 4 * p as int {
                        255u8
                    } else {
                        old(frame)@[k]
                    }),
            decreases pixels - p,
        {
            let n: usize = frame.len();
            proof {
                assert(4 * (n / 4) <= n);
                assert(4 * p + 3 < n);
            }
            frame.set(4 * p + 3, 255);
            p = p + 1;
        }
    }
}

} // verus!
