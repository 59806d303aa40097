//! The contact sheet of a dump: its frames laid out row after row on one
//! picture.
use vstd::prelude::*;

use vstd::arithmetic::div_mod::{lemma_fundamental_div_mod, lemma_fundamental_div_mod_converse};

use crate::raster::{blit, copy_tile};

verus! {

/// An RGBA picture: its width and height in pixels and its pixels row
/// after row, four bytes (red, green, blue, alpha) each.
#[derive(Debug, Clone)]
pub struct Picture {
    pub width: u32,
    pub height: u32,
    pub pixels: Vec<u8>,
}

/// Why the frames cannot be laid out on the sheet.
#[derive(Debug, Clone, Copy, PartialEq, Eq)]
pub enum GridError {
    /// A frame, at the place where it comes, does not lie inside the sheet.
    DimensionMismatch,
}

/// The pixel buffer of a picture has the length its size calls for.
pub open spec fn well_formed(p: Picture) -> bool {
    p.pixels@.len() == p.width as int * p.height as int * 4
}

/// Sum of the widths of the first `k` frames.
pub open spec fn width_sum(frames: Seq<Picture>, k: int) -> int
    decreases k,
{
    if k <= 0 { 0 } else { width_sum(frames, k - 1) + frames[k - 1].width }
}

/// Sum of the heights of the first `k` frames.
pub open spec fn height_sum(frames: Seq<Picture>, k: int) -> int
    decreases k,
{
    if k <= 0 { 0 } else { height_sum(frames, k - 1) + frames[k - 1].height }
}

pub open spec fn min(a: int, b: int) -> int {
    if a < b { a } else { b }
}

/// Width of the sheet: the widths of the first `cols` frames side by side.
pub open spec fn sheet_width(frames: Seq<Picture>, cols: int) -> int {
    width_sum(frames, min(cols, frames.len() as int))
}

/// Height of the sheet: the heights of the first `rows` frames stacked.
pub open spec fn sheet_height(frames: Seq<Picture>, rows: int) -> int {
    height_sum(frames, min(rows, frames.len() as int))
}

/// Where frame `k` goes on a sheet `sw` pixels wide: right of frame
/// `k - 1`, unless frame `k - 1` ended exactly at the sheet's right edge;
/// then at the left edge, lowered by frame `k`'s own height.
pub open spec fn place(frames: Seq<Picture>, sw: int, k: int) -> (int, int)
    decreases k,
{
    let from: (int, int) = if k <= 0 {
        (0, 0)
    } else {
        let p = place(frames, sw, k - 1);
        (p.0 + frames[k - 1].width, p.1)
    };
    if from.0 == sw { (0, from.1 + frames[k].height) } else { from }
}

/// Frame `k` lies inside a sheet of `sw` by `sh` pixels at its place.
pub open spec fn fits(frames: Seq<Picture>, sw: int, sh: int, k: int) -> bool {
    let p = place(frames, sw, k);
    p.0 + frames[k].width <= sw && p.1 + frames[k].height <= sh
}

/// Every frame before `k` lies inside the sheet.
pub open spec fn fit_before(frames: Seq<Picture>, sw: int, sh: int, k: int) -> bool {
    forall|j: int| 0 <= j < k ==> #[trigger] fits(frames, sw, sh, j)
}

/// The coordinates worked out for frame `k` stay within 32 bits.
pub open spec fn in_range(frames: Seq<Picture>, sw: int, k: int) -> bool {
    let p = place(frames, sw, k);
    p.1 <= u32::MAX && p.0 + frames[k].width <= u32::MAX && p.1 + frames[k].height <= u32::MAX
}

/// The sheet after the first `k` frames are copied onto a transparent
/// black sheet of `sw` by `sh` pixels, each at its place.
pub open spec fn sheet_pixels(frames: Seq<Picture>, sw: int, sh: int, k: int) -> Seq<u8>
    decreases k,
{
    if k <= 0 {
        Seq::new((sw * sh * 4) as nat, |i: int| 0u8)
    } else {
        let p = place(frames, sw, k - 1);
        blit(
            sheet_pixels(frames, sw, sh, k - 1),
            sw,
            frames[k - 1].pixels@,
            frames[k - 1].width as int,
            frames[k - 1].height as int,
            p.0,
            p.1,
        )
    }
}

proof fn lemma_sums_grow(frames: Seq<Picture>, i: int, k: int)
    requires
        0 <= i <= k <= frames.len(),
    ensures
        width_sum(frames, i) <= width_sum(frames, k),
        height_sum(frames, i) <= height_sum(frames, k),
    decreases k - i,
{
    if i < k {
        lemma_sums_grow(frames, i, k - 1);
    }
}

proof fn lemma_sheet_len(frames: Seq<Picture>, sw: int, sh: int, k: int)
    requires
        sw >= 0,
        sh >= 0,
    ensures
        sheet_pixels(frames, sw, sh, k).len() == sw * sh * 4,
    decreases k,
{
    assert(sw * sh * 4 >= 0) by (nonlinear_arith)
        requires sw >= 0, sh >= 0;
    if k > 0 {
        lemma_sheet_len(frames, sw, sh, k - 1);
    }
}

proof fn lemma_uniform_sums(frames: Seq<Picture>, w: int, h: int, k: int)
    requires
        0 <= k <= frames.len(),
        forall|j: int| 0 <= j < frames.len() ==> (#[trigger] frames[j]).width == w && frames[j].height == h,
    ensures
        width_sum(frames, k) == k * w,
        height_sum(frames, k) == k * h,
    decreases k,
{
    if k == 0 {
        assert(0 * w == 0 && 0 * h == 0) by (nonlinear_arith);
    } else {
        lemma_uniform_sums(frames, w, h, k - 1);
        assert(frames[k - 1].width == w);
        assert((k - 1) * w + w == k * w) by (nonlinear_arith);
        assert((k - 1) * h + h == k * h) by (nonlinear_arith);
    }
}

proof fn lemma_uniform_place(frames: Seq<Picture>, cols: int, w: int, h: int, k: int)
    requires
        cols >= 1,
        w >= 1,
        0 <= k < frames.len(),
        forall|j: int| 0 <= j < frames.len() ==> (#[trigger] frames[j]).width == w && frames[j].height == h,
    ensures
        place(frames, min(cols, frames.len() as int) * w, k) == ((k % cols) * w, (k / cols) * h),
    decreases k,
{
    let len = frames.len() as int;
    let sw = min(cols, len) * w;
    assert(min(cols, len) >= 1);
    if k == 0 {
        assert(sw >= 1) by (nonlinear_arith)
            requires min(cols, len) >= 1, w >= 1, sw == min(cols, len) * w;
        assert(0int % cols == 0 && 0int / cols == 0);
        assert(0 * w == 0 && 0 * h == 0) by (nonlinear_arith);
    } else {
        lemma_uniform_place(frames, cols, w, h, k - 1);
        assert(frames[k - 1].width == w && frames[k].height == h);
        let a = (k - 1) % cols;
        let b = (k - 1) / cols;
        lemma_fundamental_div_mod(k - 1, cols);
        assert(0 <= a < cols);
        assert(b >= 0) by (nonlinear_arith)
            requires k - 1 == cols * b + a, a < cols, k - 1 >= 0, cols >= 1;
        if a == cols - 1 {
            assert(cols * b >= 0) by (nonlinear_arith)
                requires cols >= 1, b >= 0;
            assert(cols <= len);
            assert(k == (b + 1) * cols + 0) by (nonlinear_arith)
                requires k - 1 == cols * b + a, a == cols - 1;
            lemma_fundamental_div_mod_converse(k, cols, b + 1, 0);
            assert(a * w + w == sw) by (nonlinear_arith)
                requires a == cols - 1, sw == cols * w;
            assert(b * h + h == (b + 1) * h) by (nonlinear_arith);
        } else {
            assert(k == b * cols + (a + 1)) by (nonlinear_arith)
                requires k - 1 == cols * b + a;
            lemma_fundamental_div_mod_converse(k, cols, b, a + 1);
            assert(a * w + w == (a + 1) * w) by (nonlinear_arith);
            if cols <= len {
                assert((a + 1) * w < sw) by (nonlinear_arith)
                    requires a + 1 < cols, w >= 1, sw == cols * w;
            } else {
                assert(b >= 1 ==> cols * b >= cols) by (nonlinear_arith)
                    requires cols >= 1;
                assert(b == 0);
                assert(cols * b == 0) by (nonlinear_arith)
                    requires b == 0;
                assert(a + 1 == k);
                assert(sw == len * w);
                assert((a + 1) * w < sw) by (nonlinear_arith)
                    requires a + 1 == k, k < len, w >= 1, sw == len * w;
            }
        }
    }
}

/// The layout law of a sheet of equal frames: with at most `cols * rows`
/// frames of `w` by `h` pixels (`w` at least one), the sheet is as wide as
/// `min(cols, frames)` frames and as high as `min(rows, frames)` frames,
/// frame `k` sits at column `k % cols` and row `k / cols`, every frame lies
/// inside the sheet, and when the sheet's sides fit in 32 bits so do all
/// the coordinates worked out on the way.
pub proof fn lemma_uniform_sheet(frames: Seq<Picture>, cols: int, rows: int, w: int, h: int)
    requires
        cols >= 1,
        rows >= 1,
        w >= 1,
        h >= 0,
        frames.len() <= cols * rows,
        forall|j: int| 0 <= j < frames.len() ==> (#[trigger] frames[j]).width == w && frames[j].height == h,
    ensures
        sheet_width(frames, cols) == min(cols, frames.len() as int) * w,
        sheet_height(frames, rows) == min(rows, frames.len() as int) * h,
        forall|k: int|
            0 <= k < frames.len() ==> #[trigger] place(frames, min(cols, frames.len() as int) * w, k) == (
                (k % cols) * w,
                (k / cols) * h,
            ),
        fit_before(frames, min(cols, frames.len() as int) * w, min(rows, frames.len() as int) * h, frames.len() as int),
        sheet_width(frames, cols) <= u32::MAX && sheet_height(frames, rows) <= u32::MAX ==> forall|k: int|
            0 <= k < frames.len() ==> #[trigger] in_range(frames, min(cols, frames.len() as int) * w, k),
{
    let len = frames.len() as int;
    lemma_uniform_sums(frames, w, h, min(cols, len));
    lemma_uniform_sums(frames, w, h, min(rows, len));
    assert forall|k: int| 0 <= k < frames.len() implies #[trigger] place(frames, min(cols, len) * w, k) == ((k % cols) * w, (k / cols) * h) by {
        lemma_uniform_place(frames, cols, w, h, k);
    }
    assert forall|k: int| 0 <= k < frames.len() implies #[trigger] fits(frames, min(cols, len) * w, min(rows, len) * h, k) by {
        lemma_uniform_fits(frames, cols, rows, w, h, k);
    }
    if min(cols, len) * w <= u32::MAX && min(rows, len) * h <= u32::MAX {
        assert forall|k: int| 0 <= k < frames.len() implies #[trigger] in_range(frames, min(cols, len) * w, k) by {
            lemma_uniform_fits(frames, cols, rows, w, h, k);
        }
    }
}

proof fn lemma_uniform_fits(frames: Seq<Picture>, cols: int, rows: int, w: int, h: int, k: int)
    requires
        cols >= 1,
        rows >= 1,
        w >= 1,
        h >= 0,
        frames.len() <= cols * rows,
        forall|j: int| 0 <= j < frames.len() ==> (#[trigger] frames[j]).width == w && frames[j].height == h,
        0 <= k < frames.len(),
    ensures
        fits(frames, min(cols, frames.len() as int) * w, min(rows, frames.len() as int) * h, k),
        min(cols, frames.len() as int) * w <= u32::MAX && min(rows, frames.len() as int) * h <= u32::MAX
            ==> in_range(frames, min(cols, frames.len() as int) * w, k),
{
    let len = frames.len() as int;
    let cw = min(cols, len);
    let rh = min(rows, len);
    lemma_uniform_place(frames, cols, w, h, k);
    lemma_fundamental_div_mod(k, cols);
    let a = k % cols;
    let b = k / cols;
    assert(frames[k].width == w && frames[k].height == h);
    assert(b >= 0) by (nonlinear_arith)
        requires k == cols * b + a, a < cols, k >= 0, cols >= 1;
    assert(b < rows) by (nonlinear_arith)
        requires k == cols * b + a, 0 <= a, k < len, len <= cols * rows, cols >= 1;
    assert(b <= k) by (nonlinear_arith)
        requires k == cols * b + a, 0 <= a, b >= 0, cols >= 1;
    assert(b + 1 <= rh);
    if cols <= len {
        assert(a + 1 <= cw);
    } else {
        assert(b >= 1 ==> cols * b >= cols) by (nonlinear_arith)
            requires cols >= 1;
        assert(b == 0);
        assert(cols * b == 0) by (nonlinear_arith)
            requires b == 0;
        assert(a == k);
        assert(a + 1 <= cw);
    }
    assert(a * w + w <= cw * w) by (nonlinear_arith)
        requires a + 1 <= cw, w >= 1;
    assert(b * h + h <= rh * h) by (nonlinear_arith)
        requires b + 1 <= rh, h >= 0;
    assert(b * h >= 0) by (nonlinear_arith)
        requires b >= 0, h >= 0;
}

/// Which frame of a full sheet of `cols` columns of `w` by `h` frames,
/// `sw` pixels wide, covers byte `i` of the sheet: the frame in the row
/// of the byte's pixel divided by `h` and the column of its `x` divided
/// by `w`.
pub open spec fn covering_frame(cols: int, w: int, h: int, sw: int, i: int) -> int {
    let p = i / 4;
    ((p / sw) / h) * cols + (p % sw) / w
}

/// The byte of its covering frame that byte `i` of such a sheet shows: the
/// same channel of the pixel at the same offset inside the frame.
pub open spec fn covered_byte(frames: Seq<Picture>, cols: int, w: int, h: int, sw: int, i: int) -> u8 {
    let p = i / 4;
    let px = p % sw;
    let py = p / sw;
    frames[covering_frame(cols, w, h, sw, i)].pixels@[((py % h) * w + px % w) * 4 + i % 4]
}

proof fn lemma_in_cell(px: int, w: int, m: int)
    requires
        w >= 1,
        px >= 0,
        m >= 0,
    ensures
        (m * w <= px < m * w + w) <==> px / w == m,
        px / w == m ==> px - m * w == px % w,
{
    lemma_fundamental_div_mod(px, w);
    if m * w <= px < m * w + w {
        lemma_fundamental_div_mod_converse(px, w, m, px - m * w);
    }
    if px / w == m {
        assert(px == w * m + px % w);
        assert(m * w == w * m) by (nonlinear_arith);
    }
}

proof fn lemma_cell_of_byte(cols: int, rows: int, w: int, h: int, i: int, k: int)
    requires
        cols >= 1,
        rows >= 1,
        w >= 1,
        h >= 1,
        0 <= i < cols * w * (rows * h) * 4,
        0 <= k,
    ensures
        ({
            let sw = cols * w;
            let p = i / 4;
            let px = p % sw;
            let py = p / sw;
            let x0 = (k % cols) * w;
            let y0 = (k / cols) * h;
            &&& 0 <= covering_frame(cols, w, h, sw, i) < cols * rows
            &&& (x0 <= px < x0 + w && y0 <= py < y0 + h) <==> covering_frame(cols, w, h, sw, i) == k
            &&& covering_frame(cols, w, h, sw, i) == k ==> px - x0 == px % w && py - y0 == py % h
            &&& 0 <= ((py % h) * w + px % w) * 4 + i % 4 < w * h * 4
        }),
{
    let sw = cols * w;
    assert(sw >= 1) by (nonlinear_arith)
        requires cols >= 1, w >= 1, sw == cols * w;
    let p = i / 4;
    lemma_fundamental_div_mod(i, 4);
    lemma_fundamental_div_mod(p, sw);
    let px = p % sw;
    let py = p / sw;
    assert(p >= 0);
    assert(py >= 0) by (nonlinear_arith)
        requires p == sw * py + px, px < sw, p >= 0, sw >= 1;
    assert(p < sw * (rows * h)) by (nonlinear_arith)
        requires i == 4 * p + i % 4, 0 <= i % 4, i < cols * w * (rows * h) * 4, sw == cols * w;
    assert(py < rows * h) by (nonlinear_arith)
        requires p == sw * py + px, px >= 0, p < sw * (rows * h), sw >= 1;
    lemma_fundamental_div_mod(px, w);
    lemma_fundamental_div_mod(py, h);
    let a = px / w;
    let b = py / h;
    assert(a >= 0 && a < cols) by (nonlinear_arith)
        requires px == w * a + px % w, 0 <= px % w < w, 0 <= px, px < sw, sw == cols * w, w >= 1;
    assert(b >= 0 && b < rows) by (nonlinear_arith)
        requires py == h * b + py % h, 0 <= py % h < h, 0 <= py, py < rows * h, h >= 1;
    let c = covering_frame(cols, w, h, sw, i);
    assert(c == b * cols + a);
    assert(0 <= c < cols * rows) by (nonlinear_arith)
        requires c == b * cols + a, 0 <= a < cols, 0 <= b < rows;
    lemma_fundamental_div_mod(k, cols);
    lemma_in_cell(px, w, k % cols);
    assert(k / cols >= 0) by (nonlinear_arith)
        requires k == cols * (k / cols) + k % cols, 0 <= k % cols < cols, k >= 0;
    lemma_in_cell(py, h, k / cols);
    if c == k {
        lemma_fundamental_div_mod_converse(k, cols, b, a);
    }
    if a == k % cols && b == k / cols {
        assert(c == k) by (nonlinear_arith)
            requires c == b * cols + a, k == cols * (k / cols) + k % cols, a == k % cols, b == k / cols;
    }
    assert(((py % h) * w + px % w) * 4 + i % 4 < w * h * 4) by (nonlinear_arith)
        requires 0 <= py % h < h, 0 <= px % w < w, 0 <= i % 4 < 4, w >= 1;
    assert(((py % h) * w + px % w) * 4 + i % 4 >= 0) by (nonlinear_arith)
        requires 0 <= py % h, 0 <= px % w, 0 <= i % 4, w >= 1;
}

proof fn lemma_pixels_so_far(frames: Seq<Picture>, cols: int, rows: int, w: int, h: int, k: int)
    requires
        cols >= 1,
        rows >= 1,
        w >= 1,
        h >= 1,
        frames.len() == cols * rows,
        forall|j: int| 0 <= j < frames.len() ==> (#[trigger] frames[j]).width == w && frames[j].height == h,
        forall|j: int| 0 <= j < frames.len() ==> well_formed(#[trigger] frames[j]),
        0 <= k <= frames.len(),
    ensures
        sheet_pixels(frames, cols * w, rows * h, k).len() == cols * w * (rows * h) * 4,
        forall|i: int|
            0 <= i < cols * w * (rows * h) * 4 ==> #[trigger] sheet_pixels(frames, cols * w, rows * h, k)[i] == (if covering_frame(
                cols,
                w,
                h,
                cols * w,
                i,
            ) < k {
                covered_byte(frames, cols, w, h, cols * w, i)
            } else {
                0u8
            }),
    decreases k,
{
    let sw = cols * w;
    let sh = rows * h;
    assert(sw * sh * 4 == cols * w * (rows * h) * 4) by (nonlinear_arith)
        requires sw == cols * w, sh == rows * h;
    assert(sw >= 0 && sh >= 0) by (nonlinear_arith)
        requires cols >= 1, w >= 1, rows >= 1, h >= 1, sw == cols * w, sh == rows * h;
    lemma_sheet_len(frames, sw, sh, k);
    if k == 0 {
        assert forall|i: int| 0 <= i < cols * w * (rows * h) * 4 implies #[trigger] sheet_pixels(frames, sw, sh, 0)[i] == (if covering_frame(cols, w, h, sw, i) < 0 {
            covered_byte(frames, cols, w, h, sw, i)
        } else {
            0u8
        }) by {
            lemma_cell_of_byte(cols, rows, w, h, i, 0);
        }
    } else {
        lemma_pixels_so_far(frames, cols, rows, w, h, k - 1);
        assert(cols <= frames.len()) by (nonlinear_arith)
            requires rows >= 1, cols >= 1, frames.len() == cols * rows;
        assert(min(cols, frames.len() as int) == cols);
        lemma_uniform_place(frames, cols, w, h, k - 1);
        let x0 = ((k - 1) % cols) * w;
        let y0 = ((k - 1) / cols) * h;
        assert(place(frames, sw, k - 1) == (x0, y0));
        let tile = frames[k - 1];
        assert(tile.width == w && tile.height == h);
        assert forall|i: int| 0 <= i < cols * w * (rows * h) * 4 implies #[trigger] sheet_pixels(frames, sw, sh, k)[i] == (if covering_frame(cols, w, h, sw, i) < k {
            covered_byte(frames, cols, w, h, sw, i)
        } else {
            0u8
        }) by {
            lemma_cell_of_byte(cols, rows, w, h, i, k - 1);
            assert(sheet_pixels(frames, sw, sh, k - 1)[i] == (if covering_frame(cols, w, h, sw, i) < k - 1 {
                covered_byte(frames, cols, w, h, sw, i)
            } else {
                0u8
            }));
        }
    }
}

/// The picture law of a full sheet of equal frames: with `cols * rows`
/// frames of `w` by `h` pixels (both at least one), every byte of the
/// sheet is the same byte of the frame in the same cell, at the same
/// offset inside that frame, where the cell of the pixel `(x, y)` is row
/// `y / h`, column `x / w`.
pub proof fn lemma_uniform_sheet_pixels(frames: Seq<Picture>, cols: int, rows: int, w: int, h: int)
    requires
        cols >= 1,
        rows >= 1,
        w >= 1,
        h >= 1,
        frames.len() == cols * rows,
        forall|j: int| 0 <= j < frames.len() ==> (#[trigger] frames[j]).width == w && frames[j].height == h,
        forall|j: int| 0 <= j < frames.len() ==> well_formed(#[trigger] frames[j]),
    ensures
        sheet_pixels(frames, cols * w, rows * h, frames.len() as int).len() == cols * w * (rows * h) * 4,
        forall|i: int|
            0 <= i < cols * w * (rows * h) * 4 ==> #[trigger] sheet_pixels(frames, cols * w, rows * h, frames.len() as int)[i]
                == covered_byte(frames, cols, w, h, cols * w, i),
{
    lemma_pixels_so_far(frames, cols, rows, w, h, frames.len() as int);
    assert forall|i: int| 0 <= i < cols * w * (rows * h) * 4 implies #[trigger] sheet_pixels(frames, cols * w, rows * h, frames.len() as int)[i]
        == covered_byte(frames, cols, w, h, cols * w, i) by {
        lemma_cell_of_byte(cols, rows, w, h, i, 0);
    }
}

/// What laying the frames out needs: every frame's buffer has the length
/// its size calls for, the sheet's sides and byte count fit their types,
/// and every coordinate worked out for a frame reached (all frames before
/// it lying inside the sheet) stays within 32 bits.
pub open spec fn sheet_limits(frames: Seq<Picture>, cols: int, rows: int) -> bool {
    let sw = sheet_width(frames, cols);
    let sh = sheet_height(frames, rows);
    &&& forall|k: int| 0 <= k < frames.len() ==> well_formed(#[trigger] frames[k])
    &&& sw <= u32::MAX
    &&& sh <= u32::MAX
    &&& sw * sh * 4 <= usize::MAX
    &&& forall|k: int| 0 <= k < frames.len() && fit_before(frames, sw, sh, k) ==> #[trigger] in_range(frames, sw, k)
}

/// Whether `sheet_limits` holds, so that `compose_grid` may be called.
pub fn within_sheet_limits(frames: &Vec<Picture>, cols: usize, rows: usize) -> (ok: bool)
    ensures
        ok == sheet_limits(frames@, cols as int, rows as int),
{
    let count = frames.len();
    let mut i: usize = 0;
    while i < count
        invariant
            count == frames@.len(),
            i <= count,
            forall|k: int| 0 <= k < i ==> well_formed(#[trigger] frames@[k]),
        decreases count - i,
    {
        let f = &frames[i];
        assert((f.width as int) * (f.height as int) <= 0xffff_ffff * 0xffff_ffff) by (nonlinear_arith)
            requires f.width <= 0xffff_ffff, f.height <= 0xffff_ffff;
        let area: u128 = (f.width as u128) * (f.height as u128);
        if area * 4 != f.pixels.len() as u128 {
            assert(!well_formed(frames@[i as int]));
            return false;
        }
        i = i + 1;
    }
    let wide = if cols < count { cols } else { count };
    let high = if rows < count { rows } else { count };
    let mut sw: u64 = 0;
    let mut i: usize = 0;
    while i < wide
        invariant
            wide <= count == frames@.len(),
            wide == min(cols as int, count as int),
            i <= wide,
            sw == width_sum(frames@, i as int),
            sw <= u32::MAX,
            forall|k: int| 0 <= k < frames@.len() ==> well_formed(#[trigger] frames@[k]),
        decreases wide - i,
    {
        sw = sw + frames[i].width as u64;
        i = i + 1;
        if sw > 0xffff_ffff {
            proof {
                lemma_sums_grow(frames@, i as int, wide as int);
            }
            return false;
        }
    }
    let mut sh: u64 = 0;
    let mut i: usize = 0;
    while i < high
        invariant
            high <= count == frames@.len(),
            high == min(rows as int, count as int),
            i <= high,
            sh == height_sum(frames@, i as int),
            sh <= u32::MAX,
            sw == sheet_width(frames@, cols as int) <= u32::MAX,
            forall|k: int| 0 <= k < frames@.len() ==> well_formed(#[trigger] frames@[k]),
        decreases high - i,
    {
        sh = sh + frames[i].height as u64;
        i = i + 1;
        if sh > 0xffff_ffff {
            proof {
                lemma_sums_grow(frames@, i as int, high as int);
            }
            return false;
        }
    }
    assert((sw as int) * (sh as int) <= 0xffff_ffff * 0xffff_ffff) by (nonlinear_arith)
        requires sw <= 0xffff_ffff, sh <= 0xffff_ffff;
    let sheet_area: u128 = (sw as u128) * (sh as u128);
    if sheet_area * 4 > usize::MAX as u128 {
        return false;
    }
    let mut x: u64 = 0;
    let mut y: u64 = 0;
    let mut k: usize = 0;
    while k < count
        invariant
            count == frames@.len(),
            k <= count,
            sw == sheet_width(frames@, cols as int) <= u32::MAX,
            sh == sheet_height(frames@, rows as int) <= u32::MAX,
            fit_before(frames@, sw as int, sh as int, k as int),
            forall|j: int| 0 <= j < k ==> #[trigger] in_range(frames@, sw as int, j),
            forall|j: int| 0 <= j < frames@.len() ==> well_formed(#[trigger] frames@[j]),
            (sw as int) * (sh as int) * 4 <= usize::MAX,
            y <= u32::MAX,
            x <= sw,
            (x as int, y as int) == (if k == 0 { (0int, 0int) } else {
                let p = place(frames@, sw as int, k - 1);
                (p.0 + frames@[k - 1].width, p.1)
            }),
        decreases count - k,
    {
        let f = &frames[k];
        if x == sw {
            x = 0;
            y = y + f.height as u64;
        }
        assert((x as int, y as int) == place(frames@, sw as int, k as int));
        if y > 0xffff_ffff || x + f.width as u64 > 0xffff_ffff || y + f.height as u64 > 0xffff_ffff {
            assert(!in_range(frames@, sw as int, k as int));
            return false;
        }
        if x + f.width as u64 > sw || y + f.height as u64 > sh {
            assert(!fits(frames@, sw as int, sh as int, k as int));
            assert forall|j: int| 0 <= j < frames@.len() && fit_before(frames@, sw as int, sh as int, j)
                implies #[trigger] in_range(frames@, sw as int, j) by {
                if j > k {
                    assert(!fits(frames@, sw as int, sh as int, k as int));
                }
            }
            return true;
        }
        x = x + f.width as u64;
        k = k + 1;
    }
    true
}

/// Lays the frames out on one sheet, as `concat_frames` does: the sheet is
/// as wide as the first `cols` frames side by side and as high as the first
/// `rows` frames stacked; each frame is copied at its `place`.  The result
/// is an error when a frame does not lie inside the sheet at its place.
pub fn compose_grid(frames: &Vec<Picture>, cols: usize, rows: usize) -> (sheet: Result<Picture, GridError>)
    requires
        sheet_limits(frames@, cols as int, rows as int),
    ensures
        ({
            let sw = sheet_width(frames@, cols as int);
            let sh = sheet_height(frames@, rows as int);
            &&& sheet is Ok <==> fit_before(frames@, sw, sh, frames@.len() as int)
            &&& sheet matches Ok(p) ==> {
                &&& p.width == sw
                &&& p.height == sh
                &&& p.pixels@ == sheet_pixels(frames@, sw, sh, frames@.len() as int)
            }
            &&& sheet matches Err(e) ==> e == GridError::DimensionMismatch
        }),
{
    let count = frames.len();
    let wide = if cols < count { cols } else { count };
    let high = if rows < count { rows } else { count };
    let mut sw: u32 = 0;
    let mut i: usize = 0;
    while i < wide
        invariant
            wide <= count == frames@.len(),
            wide == min(cols as int, count as int),
            i <= wide,
            sw == width_sum(frames@, i as int),
            sheet_width(frames@, cols as int) <= u32::MAX,
        decreases wide - i,
    {
        proof {
            lemma_sums_grow(frames@, i + 1, wide as int);
        }
        sw = sw + frames[i].width;
        i = i + 1;
    }
    let mut sh: u32 = 0;
    let mut i: usize = 0;
    while i < high
        invariant
            high <= count == frames@.len(),
            high == min(rows as int, count as int),
            i <= high,
            sh == height_sum(frames@, i as int),
            sheet_height(frames@, rows as int) <= u32::MAX,
        decreases high - i,
    {
        proof {
            lemma_sums_grow(frames@, i + 1, high as int);
        }
        sh = sh + frames[i].height;
        i = i + 1;
    }
    let size: usize = sw as usize * sh as usize * 4;
    let mut canvas: Vec<u8> = vec![0u8; size];
    proof {
        assert(canvas@ =~= sheet_pixels(frames@, sw as int, sh as int, 0));
    }
    let mut x: u32 = 0;
    let mut y: u32 = 0;
    let mut k: usize = 0;
    while k < count
        invariant
            count == frames@.len(),
            k <= count,
            sw == sheet_width(frames@, cols as int),
            sh == sheet_height(frames@, rows as int),
            sheet_limits(frames@, cols as int, rows as int),
            fit_before(frames@, sw as int, sh as int, k as int),
            canvas@ == sheet_pixels(frames@, sw as int, sh as int, k as int),
            (x as int, y as int) == (if k == 0 { (0int, 0int) } else {
                let p = place(frames@, sw as int, k - 1);
                (p.0 + frames@[k - 1].width, p.1)
            }),
        decreases count - k,
    {
        let frame = &frames[k];
        proof {
            assert(in_range(frames@, sw as int, k as int));
            lemma_sheet_len(frames@, sw as int, sh as int, k as int);
        }
        if x == sw {
            x = 0;
            y = y + frame.height;
        }
        assert((x as int, y as int) == place(frames@, sw as int, k as int));
        match copy_tile(&mut canvas, sw, sh, &frame.pixels, frame.width, frame.height, x, y) {
            Ok(()) => {},
            Err(_) => {
                assert(!fits(frames@, sw as int, sh as int, k as int));
                return Err(GridError::DimensionMismatch);
            },
        }
        x = x + frame.width;
        k = k + 1;
    }
    Ok(Picture { width: sw, height: sh, pixels: canvas })
}

} // verus!
