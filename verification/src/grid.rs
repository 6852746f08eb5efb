//! Which grid of characters covers a picture best.

use crate::binary32::ceiling;
use crate::typeface::{advance_bits, cell, measure_font_cell, Typeface};
use vstd::math::{abs, max};
use vstd::prelude::*;

verus! {

/// The smallest size of a font, in pixels: below it characters smear into blobs.
pub const MIN_CHAR_H_PX: u8 = 8;

/// The largest size of a font, in pixels: above it the grid is too coarse for detail.
pub const MAX_CHAR_H_PX: u8 = 16;

/// A grid of characters.
#[derive(Clone, Copy, Debug, PartialEq, Eq, Structural)]
pub struct Grid {
    pub n_cols: u32,
    pub n_rows: u32,
    pub char_w: u32,
    pub char_h: u32,
    pub font_size: u8,
}

/// How many cells of a size fit into a length; there is always one.
pub open spec fn fitting(length: u32, cell: u32) -> u32 {
    if length < cell {
        1
    } else {
        length / cell
    }
}

/// The distance between two numbers.
pub open spec fn distance(a: int, b: int) -> int {
    if a < b {
        b - a
    } else {
        a - b
    }
}

/// How far the cells that fit into a length are from covering it.
pub open spec fn gap(length: u32, cell: u32) -> int {
    distance(length as int, fitting(length, cell) * cell)
}

/// How far a grid of cells is from covering a picture of `w` by `h` pixels.
pub open spec fn deviation(w: u32, h: u32, cell: (u32, u32)) -> int {
    gap(w, cell.0) + gap(h, cell.1)
}

/// Of the cells, cell `k` is the first that deviates least.
pub open spec fn is_best(cells: Seq<(u32, u32)>, w: u32, h: u32, k: int) -> bool {
    &&& 0 <= k < cells.len()
    &&& forall|j: int|
        0 <= j < cells.len() ==> deviation(w, h, cells[k]) <= deviation(w, h, #[trigger] cells[j])
    &&& forall|j: int|
        0 <= j < k ==> deviation(w, h, cells[k]) < deviation(w, h, #[trigger] cells[j])
}

/// The grid of cells that covers a picture.
pub open spec fn grid_of(cell: (u32, u32), w: u32, h: u32, font_size: u8) -> Grid {
    Grid {
        n_cols: fitting(w, cell.0),
        n_rows: fitting(h, cell.1),
        char_w: cell.0,
        char_h: cell.1,
        font_size,
    }
}

/// The cells of a font at the sizes from [`MIN_CHAR_H_PX`] to [`MAX_CHAR_H_PX`].
pub open spec fn cells_of(font: Seq<u8>) -> Seq<(u32, u32)> {
    Seq::new(
        (MAX_CHAR_H_PX - MIN_CHAR_H_PX + 1) as nat,
        |j: int| cell(font, (MIN_CHAR_H_PX + j) as u8),
    )
}

/// Cells that fit stay within the length; a single cell may be larger.
pub proof fn lemma_fitting(length: u32, cell: u32)
    requires
        cell > 0,
    ensures
        fitting(length, cell) >= 1,
        length >= cell ==> fitting(length, cell) * cell <= length,
        length >= cell ==> length < fitting(length, cell) * cell + cell,
        fitting(length, cell) * cell <= u32::MAX,
{
    if length >= cell {
        vstd::arithmetic::div_mod::lemma_fundamental_div_mod(length as int, cell as int);
        let q = length / cell;
        assert(cell * q == q * cell) by (nonlinear_arith);
        assert(q >= 1) by (nonlinear_arith)
            requires
                cell * q + length as int % cell as int == length,
                (length as int % cell as int) < cell,
                length >= cell,
                cell > 0,
        ;
    } else {
        assert(1 * cell == cell);
    }
}

/// What cells leave uncovered of a length is the remainder; a cell that is larger stands out.
pub proof fn lemma_gap(length: u32, cell: u32)
    requires
        cell > 0,
    ensures
        gap(length, cell) == abs(length - fitting(length, cell) * cell),
        gap(length, cell) == (if length < cell {
            cell - length
        } else {
            length as int % cell as int
        }),
{
    lemma_fitting(length, cell);
    vstd::arithmetic::div_mod::lemma_fundamental_div_mod(length as int, cell as int);
    assert(cell * (length / cell) == (length / cell) * cell) by (nonlinear_arith);
    assert(1 * cell == cell);
}

/// Computes how many cells fit into a length.
fn count_fitting(length: u32, cell: u32) -> (r: u32)
    requires
        cell > 0,
    ensures
        r == fitting(length, cell),
{
    if length < cell {
        1
    } else {
        length / cell
    }
}

/// Computes how far cells are from covering a length.
fn gap_for(length: u32, cell: u32) -> (r: u64)
    requires
        cell > 0,
    ensures
        r == gap(length, cell),
        r <= u32::MAX,
{
    let n = count_fitting(length, cell);
    proof {
        lemma_fitting(length, cell);
    }
    let covered: u32 = n * cell;
    if length < covered {
        (covered - length) as u64
    } else {
        (length - covered) as u64
    }
}

/// Picks, of the cells of a font at the sizes from `min_size` on, the first that deviates least,
/// and makes a grid of it.
pub fn choose_grid(cells: &[(u32, u32)], min_size: u8, w: u32, h: u32) -> (r: Grid)
    requires
        0 < cells.len(),
        min_size + cells.len() <= 256,
        forall|j: int| 0 <= j < cells.len() ==> (#[trigger] cells[j]).0 > 0 && cells[j].1 > 0,
    ensures
        exists|k: int| #[trigger]
            is_best(cells@, w, h, k) && r == grid_of(cells@[k], w, h, (min_size + k) as u8),
        min_size <= r.font_size < min_size + cells.len(),
        (r.char_w, r.char_h) == cells@[r.font_size - min_size],
        r.n_cols == (if w < r.char_w {
            1
        } else {
            w / r.char_w
        }),
        r.n_rows == (if h < r.char_h {
            1
        } else {
            h / r.char_h
        }),
        forall|j: int|
            0 <= j < cells.len() ==> {
                let (a, b) = #[trigger] cells@[j];
                let there = (if w < a {
                    a - w
                } else {
                    w as int % a as int
                }) + (if h < b {
                    b - h
                } else {
                    h as int % b as int
                });
                let here = abs(w - r.n_cols * r.char_w) + abs(h - r.n_rows * r.char_h);
                here <= there && (min_size + j < r.font_size ==> here < there)
            },
{
    let mut best: usize = 0;
    let mut least: u64 = gap_for(w, cells[0].0) + gap_for(h, cells[0].1);
    let mut i: usize = 1;
    while i < cells.len()
        invariant
            best < i <= cells.len(),
            least == deviation(w, h, cells@[best as int]),
            is_best(cells@.take(i as int), w, h, best as int),
            forall|j: int| 0 <= j < cells.len() ==> (#[trigger] cells[j]).0 > 0 && cells[j].1 > 0,
        decreases cells.len() - i,
    {
        let ghost before = cells@.take(i as int);
        let ghost after = cells@.take(i + 1);
        let d: u64 = gap_for(w, cells[i].0) + gap_for(h, cells[i].1);
        proof {
            assert forall|j: int| 0 <= j < i implies after[j] == #[trigger] before[j] by {}
            assert(after[i as int] == cells@[i as int]);
        }
        if d < least {
            proof {
                assert forall|j: int| 0 <= j < i implies d < deviation(
                    w,
                    h,
                    #[trigger] after[j],
                ) by {
                    assert(after[j] == before[j]);
                }
            }
            best = i;
            least = d;
        } else {
            proof {
                assert(after[best as int] == before[best as int]);
                assert forall|j: int| 0 <= j < after.len() implies least <= deviation(
                    w,
                    h,
                    #[trigger] after[j],
                ) by {
                    if j < i {
                        assert(after[j] == before[j]);
                    }
                }
                assert forall|j: int| 0 <= j < best implies least < deviation(
                    w,
                    h,
                    #[trigger] after[j],
                ) by {
                    assert(after[j] == before[j]);
                }
            }
        }
        i = i + 1;
    }
    assert(cells@.take(i as int) == cells@);
    proof {
        assert forall|j: int| 0 <= j < cells.len() implies {
            let (a, b) = #[trigger] cells@[j];
            &&& a > 0 && b > 0
            &&& gap(w, a) == abs(w - fitting(w, a) * a) == (if w < a {
                a - w
            } else {
                w as int % a as int
            })
            &&& gap(h, b) == abs(h - fitting(h, b) * b) == (if h < b {
                b - h
            } else {
                h as int % b as int
            })
        } by {
            assert(cells[j].0 > 0 && cells[j].1 > 0);
            lemma_gap(w, cells@[j].0);
            lemma_gap(h, cells@[j].1);
        }
        assert(cells@[best as int] == cells@[best as int]);
    }
    let (char_w, char_h) = cells[best];
    Grid {
        n_cols: count_fitting(w, char_w),
        n_rows: count_fitting(h, char_h),
        char_w,
        char_h,
        font_size: min_size + best as u8,
    }
}

/// Chooses the size of a font and the dimensions of a grid so that characters are readable and
/// the grid covers a picture of `orig_w` by `orig_h` pixels as closely as it can. Of the sizes
/// that cover it equally well, the smallest is taken.
pub fn compute_grid(font: &Typeface, orig_w: u32, orig_h: u32) -> (r: Grid)
    ensures
        exists|k: int| #[trigger]
            is_best(cells_of(font@), orig_w, orig_h, k) && r == grid_of(
                cells_of(font@)[k],
                orig_w,
                orig_h,
                (MIN_CHAR_H_PX + k) as u8,
            ),
        MIN_CHAR_H_PX <= r.char_h <= MAX_CHAR_H_PX,
        r.font_size == r.char_h,
        8 <= r.font_size <= 16,
        r.char_w == max(ceiling(advance_bits(font@, r.font_size, 'M')) as int, 1),
        r.n_cols == (if orig_w < r.char_w {
            1
        } else {
            orig_w / r.char_w
        }),
        r.n_rows == (if orig_h < r.char_h {
            1
        } else {
            orig_h / r.char_h
        }),
        forall|size: u8|
            8 <= size <= 16 ==> {
                let a = max(ceiling(#[trigger] advance_bits(font@, size, 'M')) as int, 1);
                let there = (if orig_w < a {
                    a - orig_w
                } else {
                    orig_w as int % a
                }) + (if orig_h < size {
                    size - orig_h
                } else {
                    orig_h as int % size as int
                });
                let here = abs(orig_w - r.n_cols * r.char_w) + abs(orig_h - r.n_rows * r.char_h);
                here <= there && (size < r.font_size ==> here < there)
            },
{
    let mut cells: Vec<(u32, u32)> = Vec::new();
    let mut size: u8 = MIN_CHAR_H_PX;
    while size <= MAX_CHAR_H_PX
        invariant
            MIN_CHAR_H_PX <= size <= MAX_CHAR_H_PX + 1,
            cells@ == cells_of(font@).take(size - MIN_CHAR_H_PX),
            forall|j: int| 0 <= j < cells.len() ==> (#[trigger] cells[j]).0 > 0 && cells[j].1 > 0,
        decreases MAX_CHAR_H_PX + 1 - size,
    {
        cells.push(measure_font_cell(font, size));
        size = size + 1;
    }
    assert(cells@ == cells_of(font@));
    proof {
        assert forall|size: u8| 8 <= size <= 16 implies cells@[size - 8] == (
            max(ceiling(#[trigger] advance_bits(font@, size, 'M')) as int, 1) as u32,
            size as u32,
        ) by {}
    }
    choose_grid(cells.as_slice(), MIN_CHAR_H_PX, orig_w, orig_h)
}

/// There is only one best cell, so that the choice of a grid depends on the cells and the
/// picture alone.
pub proof fn lemma_best_is_unique(cells: Seq<(u32, u32)>, w: u32, h: u32, j: int, k: int)
    requires
        is_best(cells, w, h, j),
        is_best(cells, w, h, k),
    ensures
        j == k,
{
    if j < k {
        assert(deviation(w, h, cells[k]) < deviation(w, h, cells[j]));
    } else if k < j {
        assert(deviation(w, h, cells[j]) < deviation(w, h, cells[k]));
    }
}

/// A grid does not reach beyond the picture where one cell fits into it, and leaves less than a
/// cell uncovered; it has at least one row and one column, and its size in pixels fits 32 bits.
pub proof fn lemma_grid_covers(cell: (u32, u32), w: u32, h: u32, font_size: u8)
    requires
        cell.0 > 0,
        cell.1 > 0,
    ensures
        ({
            let g = grid_of(cell, w, h, font_size);
            &&& g.n_cols >= 1
            &&& g.n_rows >= 1
            &&& w >= cell.0 ==> g.n_cols * g.char_w <= w < g.n_cols * g.char_w + g.char_w
            &&& h >= cell.1 ==> g.n_rows * g.char_h <= h < g.n_rows * g.char_h + g.char_h
            &&& g.n_cols * g.char_w <= u32::MAX
            &&& g.n_rows * g.char_h <= u32::MAX
        }),
{
    lemma_fitting(w, cell.0);
    lemma_fitting(h, cell.1);
}

/// The cells of a font are from 8 to 16 pixels high, as high as the size of the font.
pub proof fn lemma_cell_heights(font: Seq<u8>, k: int)
    requires
        0 <= k < cells_of(font).len(),
    ensures
        cells_of(font)[k].1 == MIN_CHAR_H_PX + k,
        MIN_CHAR_H_PX <= cells_of(font)[k].1 <= MAX_CHAR_H_PX,
        cells_of(font)[k].0 >= 1,
{
}

} // verus!
