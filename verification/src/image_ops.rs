//! The 8x8 block grid of an image.
use vstd::prelude::*;

use crate::stego::nested_view;

verus! {

pub const BLOCK_SIZE: usize = 8;

/// `n` divided by 8, rounded up.
pub open spec fn blocks_across(n: nat) -> nat {
    (n + 7) / 8
}

/// The indices, in the row-major grid of padded blocks, of the blocks that
/// lie wholly inside a `height` x `width` image: block row `r`, column `c`
/// has index `r * blocks_across(width) + c`.
pub open spec fn full_block_indices(height: nat, width: nat) -> Seq<usize> {
    let cols = width / 8;
    Seq::new((height / 8) * cols, |k: int| ((k / cols as int) * blocks_across(width) + k % cols as int) as usize)
}

/// The indices of the blocks that lie wholly inside the image (partial
/// blocks at the right and bottom edges are padded and not used).
pub fn embeddable_block_indices(height: usize, width: usize) -> (indices: Vec<usize>)
    requires
        (height / 8) * blocks_across(width as nat) <= usize::MAX,
    ensures
        indices@ == full_block_indices(height as nat, width as nat),
{
    let padded_block_cols = width / BLOCK_SIZE + if width % BLOCK_SIZE != 0 { 1 } else { 0 };
    let full_block_rows = height / BLOCK_SIZE;
    let full_block_cols = width / BLOCK_SIZE;
    assert(padded_block_cols == blocks_across(width as nat));
    let ghost spec_indices = full_block_indices(height as nat, width as nat);
    let mut indices: Vec<usize> = Vec::new();
    let mut block_row: usize = 0;
    while block_row < full_block_rows
        invariant
            full_block_rows == height / 8,
            full_block_cols == width / 8,
            padded_block_cols == blocks_across(width as nat),
            full_block_cols <= padded_block_cols,
            full_block_rows * padded_block_cols <= usize::MAX,
            block_row <= full_block_rows,
            spec_indices == full_block_indices(height as nat, width as nat),
            indices@.len() == block_row * full_block_cols,
            forall|k: int| 0 <= k < indices@.len() ==> indices@[k] == spec_indices[k],
        decreases full_block_rows - block_row,
    {
        let mut block_col: usize = 0;
        while block_col < full_block_cols
            invariant
                full_block_rows == height / 8,
                full_block_cols == width / 8,
                padded_block_cols == blocks_across(width as nat),
                full_block_cols <= padded_block_cols,
                full_block_rows * padded_block_cols <= usize::MAX,
                block_row < full_block_rows,
                block_col <= full_block_cols,
                spec_indices == full_block_indices(height as nat, width as nat),
                indices@.len() == block_row * full_block_cols + block_col,
                forall|k: int| 0 <= k < indices@.len() ==> indices@[k] == spec_indices[k],
            decreases full_block_cols - block_col,
        {
            proof {
                let k = block_row * full_block_cols + block_col;
                assert(block_row * padded_block_cols + block_col < full_block_rows * padded_block_cols) by (nonlinear_arith)
                    requires
                        block_row < full_block_rows,
                        block_col < full_block_cols,
                        full_block_cols <= padded_block_cols,
                ;
                assert(k / (full_block_cols as int) == block_row && k % (full_block_cols as int) == block_col) by (nonlinear_arith)
                    requires
                        k == block_row * full_block_cols + block_col,
                        block_col < full_block_cols,
                ;
                assert(k < (height / 8) * (width / 8)) by (nonlinear_arith)
                    requires
                        k == block_row * full_block_cols + block_col,
                        block_col < full_block_cols,
                        block_row < full_block_rows,
                        full_block_rows == height / 8,
                        full_block_cols == width / 8,
                ;
            }
            indices.push(block_row * padded_block_cols + block_col);
            block_col = block_col + 1;
        }
        assert((block_row + 1) * full_block_cols == block_row * full_block_cols + full_block_cols) by (nonlinear_arith);
        block_row = block_row + 1;
    }
    assert(indices@ =~= spec_indices);
    indices
}

/// A matrix stored row by row: the value at row `y`, column `x` is
/// `data[y * cols + x]`.
#[derive(Debug, Clone, PartialEq)]
pub struct Grid<T> {
    pub rows: usize,
    pub cols: usize,
    pub data: Vec<T>,
}

impl<T> Grid<T> {
    /// The data holds exactly `rows * cols` values.
    pub open spec fn wf(&self) -> bool {
        self.data@.len() == self.rows * self.cols
    }

    /// The value at row `y`, column `x`.
    pub open spec fn at(&self, y: int, x: int) -> T {
        self.data@[y * self.cols + x]
    }
}

/// The value at row `y`, column `x` of `m` padded with `fill` up to whole
/// blocks.
pub open spec fn padded_value<T>(m: Grid<T>, fill: T, y: int, x: int) -> T {
    if y < m.rows && x < m.cols {
        m.at(y, x)
    } else {
        fill
    }
}

/// The value at row `y`, column `x` when the blocks are laid out row by row
/// over a grid `width` wide, missing blocks counting as `fill`.
pub open spec fn merged_value<T>(blocks: Seq<Seq<T>>, width: nat, fill: T, y: int, x: int) -> T {
    let i = (y / 8) * blocks_across(width) + x / 8;
    if i < blocks.len() {
        blocks[i][(y % 8) * 8 + x % 8]
    } else {
        fill
    }
}

/// The 8x8 blocks of `m` padded with `fill`, row by row, each block's
/// values row by row.
pub open spec fn split_spec<T>(m: Grid<T>, fill: T) -> Seq<Seq<T>> {
    let bc = blocks_across(m.cols as nat);
    Seq::new(
        blocks_across(m.rows as nat) * bc,
        |i: int| Seq::new(64, |j: int| padded_value(m, fill, (i / bc as int) * 8 + j / 8, (i % bc as int) * 8 + j % 8)),
    )
}

proof fn lemma_row_major(y: int, x: int, rows: int, cols: int)
    requires
        0 <= y < rows,
        0 <= x < cols,
    ensures
        0 <= y * cols + x < rows * cols,
        y * cols + x + 1 <= rows * cols,
{
    assert(0 <= y * cols + x < rows * cols) by (nonlinear_arith)
        requires
            0 <= y < rows,
            0 <= x < cols,
    ;
}

proof fn lemma_block_coords(y: int, x: int, bc: int)
    requires
        0 <= y,
        0 <= x < 8 * bc,
    ensures
        ((y / 8) * bc + x / 8) / bc == y / 8,
        ((y / 8) * bc + x / 8) % bc == x / 8,
        (y / 8) * 8 + y % 8 == y,
        (x / 8) * 8 + x % 8 == x,
        0 <= (y % 8) * 8 + x % 8 < 64,
        ((y % 8) * 8 + x % 8) / 8 == y % 8,
        ((y % 8) * 8 + x % 8) % 8 == x % 8,
{
    assert(x / 8 < bc) by (nonlinear_arith)
        requires
            0 <= x < 8 * bc,
    ;
    assert(((y / 8) * bc + x / 8) / bc == y / 8 && ((y / 8) * bc + x / 8) % bc == x / 8) by (nonlinear_arith)
        requires
            0 <= y,
            0 <= x / 8 < bc,
    ;
    assert(0 <= (y % 8) * 8 + x % 8 < 64 && ((y % 8) * 8 + x % 8) / 8 == y % 8 && ((y % 8) * 8 + x % 8) % 8
        == x % 8) by (nonlinear_arith)
        requires
            0 <= y,
            0 <= x,
    ;
}

/// The matrix padded with `fill` at the bottom and right up to whole 8x8
/// blocks.
pub fn pad_matrix_to_block_size<T: Copy>(matrix: &Grid<T>, fill: T) -> (padded: Grid<T>)
    requires
        matrix.wf(),
        blocks_across(matrix.rows as nat) * 8 <= usize::MAX,
        blocks_across(matrix.cols as nat) * 8 <= usize::MAX,
        (blocks_across(matrix.rows as nat) * 8) * (blocks_across(matrix.cols as nat) * 8) <= usize::MAX,
    ensures
        padded.wf(),
        padded.rows == blocks_across(matrix.rows as nat) * 8,
        padded.cols == blocks_across(matrix.cols as nat) * 8,
        forall|y: int, x: int|
            0 <= y < padded.rows && 0 <= x < padded.cols ==> #[trigger] padded.at(y, x) == padded_value(*matrix, fill, y, x),
        forall|y: int, x: int| 0 <= y < matrix.rows && 0 <= x < matrix.cols ==> #[trigger] padded.at(y, x) == matrix.at(y, x),
        forall|y: int, x: int|
            0 <= y < padded.rows && 0 <= x < padded.cols && (y >= matrix.rows || x >= matrix.cols) ==> #[trigger] padded.at(
                y,
                x,
            ) == fill,
{
    let height = matrix.rows;
    let width = matrix.cols;
    let dlen = matrix.data.len();
    let padded_height = (height / BLOCK_SIZE + if height % BLOCK_SIZE != 0 { 1 } else { 0 }) * BLOCK_SIZE;
    let padded_width = (width / BLOCK_SIZE + if width % BLOCK_SIZE != 0 { 1 } else { 0 }) * BLOCK_SIZE;
    assert(padded_height == blocks_across(height as nat) * 8);
    assert(padded_width == blocks_across(width as nat) * 8);
    assert(height <= padded_height && width <= padded_width);
    let mut data: Vec<T> = Vec::new();
    let mut y: usize = 0;
    while y < padded_height
        invariant
            dlen == matrix.data@.len() == height * width,
            height == matrix.rows,
            width == matrix.cols,
            height <= padded_height,
            width <= padded_width,
            padded_height * padded_width <= usize::MAX,
            y <= padded_height,
            data@.len() == y * padded_width,
            forall|k: int|
                0 <= k < data@.len() ==> #[trigger] data@[k] == padded_value(
                    *matrix,
                    fill,
                    k / padded_width as int,
                    k % padded_width as int,
                ),
        decreases padded_height - y,
    {
        let mut x: usize = 0;
        while x < padded_width
            invariant
                dlen == matrix.data@.len() == height * width,
                height == matrix.rows,
                width == matrix.cols,
                height <= padded_height,
                width <= padded_width,
                padded_height * padded_width <= usize::MAX,
                y < padded_height,
                x <= padded_width,
                data@.len() == y * padded_width + x,
                forall|k: int|
                    0 <= k < data@.len() ==> #[trigger] data@[k] == padded_value(
                        *matrix,
                        fill,
                        k / padded_width as int,
                        k % padded_width as int,
                    ),
            decreases padded_width - x,
        {
            proof {
                lemma_row_major(y as int, x as int, padded_height as int, padded_width as int);
                let k = y * padded_width + x;
                assert(k / (padded_width as int) == y && k % (padded_width as int) == x) by (nonlinear_arith)
                    requires
                        k == y * padded_width + x,
                        x < padded_width,
                ;
            }
            let v = if y < height && x < width {
                proof {
                    lemma_row_major(y as int, x as int, height as int, width as int);
                }
                let idx = y * width + x;
                matrix.data[idx]
            } else {
                fill
            };
            data.push(v);
            x = x + 1;
        }
        assert((y + 1) * padded_width == y * padded_width + padded_width) by (nonlinear_arith);
        y = y + 1;
    }
    let padded = Grid { rows: padded_height, cols: padded_width, data };
    assert forall|yy: int, xx: int|
        0 <= yy < padded.rows && 0 <= xx < padded.cols implies #[trigger] padded.at(yy, xx) == padded_value(*matrix, fill, yy, xx) by {
        lemma_row_major(yy, xx, padded_height as int, padded_width as int);
        let k = yy * padded_width + xx;
        assert(k / (padded_width as int) == yy && k % (padded_width as int) == xx) by (nonlinear_arith)
            requires
                k == yy * padded_width + xx,
                0 <= xx < padded_width,
                0 <= yy,
        ;
    }
    padded
}

/// Splits the matrix, padded with `fill` to whole blocks, into 8x8 blocks,
/// row by row.
pub fn split_into_blocks<T: Copy>(matrix: &Grid<T>, fill: T) -> (blocks: Vec<Vec<T>>)
    requires
        matrix.wf(),
        blocks_across(matrix.rows as nat) * 8 <= usize::MAX,
        blocks_across(matrix.cols as nat) * 8 <= usize::MAX,
        (blocks_across(matrix.rows as nat) * 8) * (blocks_across(matrix.cols as nat) * 8) <= usize::MAX,
    ensures
        nested_view(blocks@) == split_spec(*matrix, fill),
{
    let padded = pad_matrix_to_block_size(matrix, fill);
    let height = padded.rows;
    let width = padded.cols;
    let block_rows = height / BLOCK_SIZE;
    let block_cols = width / BLOCK_SIZE;
    let ghost spec_blocks = split_spec(*matrix, fill);
    assert(block_rows == blocks_across(matrix.rows as nat));
    assert(block_cols == blocks_across(matrix.cols as nat));
    let mut blocks: Vec<Vec<T>> = Vec::new();
    let mut by: usize = 0;
    while by < block_rows
        invariant
            padded.wf(),
            height == padded.rows == block_rows * 8,
            width == padded.cols == block_cols * 8,
            height * width <= usize::MAX,
            block_rows == blocks_across(matrix.rows as nat),
            block_cols == blocks_across(matrix.cols as nat),
            forall|y: int, x: int|
                0 <= y < padded.rows && 0 <= x < padded.cols ==> #[trigger] padded.at(y, x) == padded_value(*matrix, fill, y, x),
            spec_blocks == split_spec(*matrix, fill),
            by <= block_rows,
            blocks@.len() == by * block_cols,
            forall|ii: int| 0 <= ii < blocks@.len() ==> #[trigger] blocks@[ii]@ == spec_blocks[ii],
        decreases block_rows - by,
    {
        let mut bx: usize = 0;
        while bx < block_cols
            invariant
                padded.wf(),
                height == padded.rows == block_rows * 8,
                width == padded.cols == block_cols * 8,
                height * width <= usize::MAX,
                block_rows == blocks_across(matrix.rows as nat),
                block_cols == blocks_across(matrix.cols as nat),
                forall|y: int, x: int|
                    0 <= y < padded.rows && 0 <= x < padded.cols ==> #[trigger] padded.at(y, x) == padded_value(*matrix, fill, y, x),
                spec_blocks == split_spec(*matrix, fill),
                by < block_rows,
                bx <= block_cols,
                blocks@.len() == by * block_cols + bx,
                forall|ii: int| 0 <= ii < blocks@.len() ==> #[trigger] blocks@[ii]@ == spec_blocks[ii],
            decreases block_cols - bx,
        {
            let mut block: Vec<T> = Vec::new();
            let mut j: usize = 0;
            while j < 64
                invariant
                    padded.wf(),
                    height == padded.rows == block_rows * 8,
                    width == padded.cols == block_cols * 8,
                    height * width <= usize::MAX,
                    forall|y: int, x: int|
                        0 <= y < padded.rows && 0 <= x < padded.cols ==> #[trigger] padded.at(y, x) == padded_value(*matrix, fill, y, x),
                    by < block_rows,
                    bx < block_cols,
                    j <= 64,
                    block@.len() == j,
                    forall|jj: int|
                        0 <= jj < j ==> #[trigger] block@[jj] == padded_value(*matrix, fill, by * 8 + jj / 8, bx * 8 + jj % 8),
                decreases 64 - j,
            {
                let r = j / 8;
                let c = j % 8;
                proof {
                    assert(by * 8 + r < height) by (nonlinear_arith)
                        requires by < block_rows, r < 8, height == block_rows * 8;
                    assert(bx * 8 + c < width) by (nonlinear_arith)
                        requires bx < block_cols, c < 8, width == block_cols * 8;
                    lemma_row_major((by * 8 + r) as int, (bx * 8 + c) as int, height as int, width as int);
                }
                let idx = (by * 8 + r) * width + bx * 8 + c;
                assert(padded.data@[idx as int] == padded.at((by * 8 + r) as int, (bx * 8 + c) as int));
                block.push(padded.data[idx]);
                j = j + 1;
            }
            proof {
                let i = by * block_cols + bx;
                assert(i / (block_cols as int) == by && i % (block_cols as int) == bx) by (nonlinear_arith)
                    requires i == by * block_cols + bx, bx < block_cols;
                assert(i < block_rows * block_cols) by (nonlinear_arith)
                    requires i == by * block_cols + bx, bx < block_cols, by < block_rows;
                assert(block@ =~= spec_blocks[i as int]);
            }
            blocks.push(block);
            bx = bx + 1;
        }
        assert((by + 1) * block_cols == by * block_cols + block_cols) by (nonlinear_arith);
        by = by + 1;
    }
    assert(nested_view(blocks@) =~= spec_blocks);
    blocks
}

/// Lays the blocks out row by row over the padded grid of a `height` x
/// `width` image (missing blocks leave `fill`, extra blocks are ignored) and
/// cuts the grid back to `height` x `width`.
pub fn merge_blocks<T: Copy>(blocks: &[Vec<T>], height: usize, width: usize, fill: T) -> (merged: Grid<T>)
    requires
        forall|i: int| 0 <= i < blocks@.len() ==> (#[trigger] blocks@[i])@.len() == 64,
        blocks_across(height as nat) * 8 <= usize::MAX,
        blocks_across(width as nat) * 8 <= usize::MAX,
        (blocks_across(height as nat) * 8) * (blocks_across(width as nat) * 8) <= usize::MAX,
    ensures
        merged.wf(),
        merged.rows == height,
        merged.cols == width,
        forall|y: int, x: int|
            0 <= y < height && 0 <= x < width ==> #[trigger] merged.at(y, x) == merged_value(
                nested_view(blocks@),
                width as nat,
                fill,
                y,
                x,
            ),
{
    let block_cols = width / BLOCK_SIZE + if width % BLOCK_SIZE != 0 { 1 } else { 0 };
    let block_rows = height / BLOCK_SIZE + if height % BLOCK_SIZE != 0 { 1 } else { 0 };
    assert(block_cols == blocks_across(width as nat));
    assert(block_rows == blocks_across(height as nat));
    let ghost bv = nested_view(blocks@);
    assert(height * width <= (block_rows * 8) * (block_cols * 8)) by (nonlinear_arith)
        requires height <= block_rows * 8, width <= block_cols * 8;
    let mut data: Vec<T> = Vec::new();
    let mut y: usize = 0;
    while y < height
        invariant
            block_cols == blocks_across(width as nat),
            block_rows == blocks_across(height as nat),
            height <= block_rows * 8,
            width <= block_cols * 8,
            (block_rows * 8) * (block_cols * 8) <= usize::MAX,
            height * width <= usize::MAX,
            bv == nested_view(blocks@),
            forall|i: int| 0 <= i < blocks@.len() ==> (#[trigger] blocks@[i])@.len() == 64,
            y <= height,
            data@.len() == y * width,
            forall|k: int|
                0 <= k < data@.len() ==> #[trigger] data@[k] == merged_value(bv, width as nat, fill, k / width as int, k % width as int),
        decreases height - y,
    {
        let mut x: usize = 0;
        while x < width
            invariant
                block_cols == blocks_across(width as nat),
                block_rows == blocks_across(height as nat),
                height <= block_rows * 8,
                width <= block_cols * 8,
                (block_rows * 8) * (block_cols * 8) <= usize::MAX,
                height * width <= usize::MAX,
                bv == nested_view(blocks@),
                forall|i: int| 0 <= i < blocks@.len() ==> (#[trigger] blocks@[i])@.len() == 64,
                y < height,
                x <= width,
                data@.len() == y * width + x,
                forall|k: int|
                    0 <= k < data@.len() ==> #[trigger] data@[k] == merged_value(bv, width as nat, fill, k / width as int, k % width as int),
            decreases width - x,
        {
            proof {
                lemma_row_major(y as int, x as int, height as int, width as int);
                let k = y * width + x;
                assert(k / (width as int) == y && k % (width as int) == x) by (nonlinear_arith)
                    requires k == y * width + x, x < width;
                assert((y / 8) * block_cols + x / 8 < block_rows * block_cols) by (nonlinear_arith)
                    requires y < height, x < width, height <= block_rows * 8, width <= block_cols * 8;
                assert(block_rows * block_cols <= (block_rows * 8) * (block_cols * 8)) by (nonlinear_arith);
                lemma_block_coords(y as int, x as int, block_cols as int);
            }
            let i = (y / 8) * block_cols + x / 8;
            let v = if i < blocks.len() {
                blocks[i][(y % 8) * 8 + x % 8]
            } else {
                fill
            };
            data.push(v);
            x = x + 1;
        }
        assert((y + 1) * width == y * width + width) by (nonlinear_arith);
        y = y + 1;
    }
    let merged = Grid { rows: height, cols: width, data };
    assert forall|yy: int, xx: int| 0 <= yy < height && 0 <= xx < width implies #[trigger] merged.at(yy, xx) == merged_value(
        bv,
        width as nat,
        fill,
        yy,
        xx,
    ) by {
        lemma_row_major(yy, xx, height as int, width as int);
        let k = yy * width + xx;
        assert(k / (width as int) == yy && k % (width as int) == xx) by (nonlinear_arith)
            requires k == yy * width + xx, 0 <= xx < width, 0 <= yy;
    }
    merged
}

/// Value `j` of block `i` is the matrix value at row `(i / bc) * 8 + j / 8`,
/// column `(i % bc) * 8 + j % 8` (with `bc` blocks across) when that lies in
/// the matrix, and `fill` when it lies in the padding.
pub proof fn lemma_split_block_values<T>(m: Grid<T>, fill: T)
    requires
        m.wf(),
    ensures
        forall|i: int, j: int|
            0 <= i < split_spec(m, fill).len() && 0 <= j < 64 ==> {
                let bc = blocks_across(m.cols as nat) as int;
                let y = (i / bc) * 8 + j / 8;
                let x = (i % bc) * 8 + j % 8;
                #[trigger] split_spec(m, fill)[i][j] == if y < m.rows && x < m.cols {
                    m.at(y, x)
                } else {
                    fill
                }
            },
{
}

/// Splitting a matrix into blocks gives `ceil(rows/8) * ceil(cols/8)`
/// blocks of 64 values, and merging them back at the matrix's size gives
/// the matrix back.
pub proof fn lemma_merge_split_round_trip<T>(m: Grid<T>, fill: T)
    requires
        m.wf(),
    ensures
        split_spec(m, fill).len() == blocks_across(m.rows as nat) * blocks_across(m.cols as nat),
        forall|i: int| 0 <= i < split_spec(m, fill).len() ==> (#[trigger] split_spec(m, fill)[i]).len() == 64,
        forall|y: int, x: int|
            0 <= y < m.rows && 0 <= x < m.cols ==> #[trigger] merged_value(split_spec(m, fill), m.cols as nat, fill, y, x)
                == m.at(y, x),
{
    let bc = blocks_across(m.cols as nat) as int;
    let br = blocks_across(m.rows as nat) as int;
    assert forall|y: int, x: int| 0 <= y < m.rows && 0 <= x < m.cols implies #[trigger] merged_value(
        split_spec(m, fill),
        m.cols as nat,
        fill,
        y,
        x,
    ) == m.at(y, x) by {
        assert(m.cols <= 8 * bc);
        lemma_block_coords(y, x, bc);
        let i = (y / 8) * bc + x / 8;
        assert(i < br * bc) by (nonlinear_arith)
            requires 0 <= y < m.rows, 0 <= x < m.cols, m.rows <= br * 8, m.cols <= bc * 8, i == (y / 8) * bc + x / 8;
    }
}

} // verus!
