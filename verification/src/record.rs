//! Captured frames and the readback step that packs them.
//!
//! A GPU staging surface is mapped as one linear byte range whose rows
//! are `row_pitch` bytes apart, while only the first `4 * width` bytes
//! of each row carry pixels. Packing removes that padding and yields a
//! buffer of exactly `4 * width * height` bytes.

use vstd::prelude::*;

verus! {

/// The packed image: the pixel bytes of the first `rows` rows of the
/// mapped surface `raw`, with the per-row alignment padding removed.
pub open spec fn packed(raw: Seq<u8>, width: int, row_pitch: int, rows: int) -> Seq<u8>
    decreases rows,
{
    if rows <= 0 {
        Seq::empty()
    } else {
        packed(raw, width, row_pitch, rows - 1) + raw.subrange(
            (rows - 1) * row_pitch,
            (rows - 1) * row_pitch + 4 * width,
        )
    }
}

/// A packed image holds exactly `4 * width` bytes per row.
pub proof fn lemma_packed_len(raw: Seq<u8>, width: int, row_pitch: int, rows: int)
    requires
        0 <= width,
        4 * width <= row_pitch,
        0 <= rows,
        rows * row_pitch <= raw.len(),
    ensures
        packed(raw, width, row_pitch, rows).len() == rows * (4 * width),
    decreases rows,
{
    if rows > 0 {
        lemma_rows_mul_mono(rows - 1, rows, row_pitch);
        lemma_packed_len(raw, width, row_pitch, rows - 1);
        assert(0 <= (rows - 1) * row_pitch) by (nonlinear_arith)
            requires
                0 <= rows - 1,
                0 <= row_pitch,
        ;
        assert((rows - 1) * row_pitch + row_pitch == rows * row_pitch) by (nonlinear_arith);
        assert((rows - 1) * row_pitch + 4 * width <= raw.len());
        assert((rows - 1) * (4 * width) + 4 * width == rows * (4 * width)) by (nonlinear_arith);
    } else {
        assert(rows * (4 * width) == 0) by (nonlinear_arith)
            requires
                rows == 0,
        ;
    }
}

/// Byte `k` of packed row `r` is byte `k` of mapped row `r`.
pub proof fn lemma_packed_index(raw: Seq<u8>, width: int, row_pitch: int, rows: int, r: int, k: int)
    requires
        0 <= width,
        4 * width <= row_pitch,
        0 <= rows,
        rows * row_pitch <= raw.len(),
        0 <= r < rows,
        0 <= k < 4 * width,
    ensures
        packed(raw, width, row_pitch, rows)[r * (4 * width) + k] == raw[r * row_pitch + k],
    decreases rows,
{
    lemma_rows_mul_mono(rows - 1, rows, row_pitch);
    lemma_packed_len(raw, width, row_pitch, rows);
    lemma_packed_len(raw, width, row_pitch, rows - 1);
    assert(0 <= (rows - 1) * row_pitch) by (nonlinear_arith)
        requires
            0 <= rows - 1,
            0 <= row_pitch,
    ;
    assert((rows - 1) * row_pitch + row_pitch == rows * row_pitch) by (nonlinear_arith);
    if r == rows - 1 {
        assert(r * (4 * width) + k - (rows - 1) * (4 * width) == k) by (nonlinear_arith)
            requires
                r == rows - 1,
        ;
        assert(packed(raw, width, row_pitch, rows)[r * (4 * width) + k] == raw.subrange(
            (rows - 1) * row_pitch,
            (rows - 1) * row_pitch + 4 * width,
        )[k]);
    } else {
        lemma_packed_index(raw, width, row_pitch, rows - 1, r, k);
        assert(r * (4 * width) + k < (rows - 1) * (4 * width)) by (nonlinear_arith)
            requires
                0 <= r < rows - 1,
                0 <= k < 4 * width,
        ;
    }
}

proof fn lemma_rows_mul_mono(a: int, b: int, p: int)
    requires
        a <= b,
        0 <= p,
    ensures
        a * p <= b * p,
{
    assert(a * p <= b * p) by (nonlinear_arith)
        requires
            a <= b,
            0 <= p,
    ;
}

/// One captured frame: a packed 4-byte-per-pixel buffer and its
/// dimensions. The buffer holds exactly `4 * width * height` bytes
/// whenever [`Screenshot::wf`] holds, which every constructor of this
/// crate establishes.
pub struct Screenshot {
    pub width: u32,
    pub height: u32,
    pub data: Vec<u8>,
}

impl Screenshot {
    /// The packed-buffer invariant: four bytes for every pixel.
    pub open spec fn wf(&self) -> bool {
        self.data.len() == 4 * self.width * self.height
    }

    /// Packs a mapped staging surface into a fresh frame.
    ///
    /// `raw` is the mapped memory: `height` rows, each `row_pitch`
    /// bytes apart, of which the leading `4 * width` bytes are pixel
    /// data and the rest is driver alignment padding.
    pub fn from_raw(raw: &Vec<u8>, width: u32, height: u32, row_pitch: u32) -> (shot: Screenshot)
        requires
            4 * width <= row_pitch,
            height * row_pitch <= raw.len(),
            4 * width * height <= usize::MAX,
        ensures
            shot.wf(),
            shot.width == width,
            shot.height == height,
            shot.data@ == packed(raw@, width as int, row_pitch as int, height as int),
    {
        let mut data: Vec<u8> = Vec::new();
        pack_rows(raw, width, height, row_pitch, &mut data);
        Screenshot { width, height, data }
    }
}

impl Default for Screenshot {
    /// An empty frame: zero by zero pixels, no bytes.
    fn default() -> (shot: Screenshot)
        ensures
            shot.wf(),
            shot.width == 0,
            shot.height == 0,
            shot.data@ == Seq::<u8>::empty(),
    {
        Screenshot { width: 0, height: 0, data: Vec::new() }
    }
}

/// Repacks `raw` (rows `row_pitch` bytes apart) into `out`, dropping
/// the per-row padding. `out` is a buffer reused across frames: it is
/// cleared and refilled on every call.
pub fn pack_rows(raw: &Vec<u8>, width: u32, height: u32, row_pitch: u32, out: &mut Vec<u8>)
    requires
        4 * width <= row_pitch,
        height * row_pitch <= raw.len(),
        4 * width * height <= usize::MAX,
    ensures
        final(out)@ == packed(raw@, width as int, row_pitch as int, height as int),
        final(out).len() == 4 * width * height,
{
    out.clear();
    let row_bytes: usize = 4 * (width as usize);
    let mut r: usize = 0;
    while r < height as usize
        invariant
            r <= height,
            row_bytes == 4 * width,
            4 * width <= row_pitch,
            height * row_pitch <= raw.len(),
            4 * width * height <= usize::MAX,
            out@ == packed(raw@, width as int, row_pitch as int, r as int),
        decreases height - r,
    {
        proof {
            lemma_rows_mul_mono(r as int + 1, height as int, row_pitch as int);
            assert((r + 1) * row_pitch == r * row_pitch + row_pitch) by (nonlinear_arith);
            lemma_packed_len(raw@, width as int, row_pitch as int, r as int);
            lemma_rows_mul_mono(r as int, height as int, 4 * width as int);
            assert(r * (4 * width) + 4 * width == (r + 1) * (4 * width)) by (nonlinear_arith);
            lemma_rows_mul_mono(r as int + 1, height as int, 4 * width as int);
            assert(height as int * (4 * width as int) == 4 * width * height) by (nonlinear_arith);
        }
        let row_start: usize = r * (row_pitch as usize);
        let mut k: usize = 0;
        while k < row_bytes
            invariant
                k <= row_bytes,
                r < height,
                row_bytes == 4 * width,
                row_start == r * row_pitch,
                row_start + row_pitch <= raw.len(),
                4 * width <= row_pitch,
                out@ == packed(raw@, width as int, row_pitch as int, r as int) + raw@.subrange(
                    row_start as int,
                    row_start as int + k as int,
                ),
            decreases row_bytes - k,
        {
            out.push(raw[row_start + k]);
            k = k + 1;
            proof {
                assert(raw@.subrange(row_start as int, row_start as int + k as int)
                    == raw@.subrange(row_start as int, row_start as int + k as int - 1).push(
                    raw@[row_start as int + k - 1],
                )) by {
                    assert(raw@.subrange(row_start as int, row_start as int + k as int)
                        =~= raw@.subrange(row_start as int, row_start as int + k as int - 1).push(
                        raw@[row_start as int + k - 1],
                    ));
                }
            }
        }
        r = r + 1;
    }
    proof {
        lemma_packed_len(raw@, width as int, row_pitch as int, height as int);
        assert(height as int * (4 * width as int) == 4 * width * height) by (nonlinear_arith);
    }
}

} // verus!
