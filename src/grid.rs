//! A character grid held in a `simple_matrix::Matrix`.
use vstd::prelude::*;

verus! {

#[verifier::external_type_specification]
#[verifier::external_body]
#[verifier::reject_recursive_types(T)]
pub struct ExMatrix<T>(simple_matrix::Matrix<T>);

/// The cells of a grid, row by row.
pub uninterp spec fn grid_cells(m: simple_matrix::Matrix<char>) -> Seq<char>;

/// The number of columns of a grid.
pub uninterp spec fn grid_cols(m: simple_matrix::Matrix<char>) -> nat;

/// Relies on `simple_matrix::Matrix::new`: `rows * cols` cells, row by row,
/// each `char::default()` ('\0'). It panics where `rows` or `cols` is 0, and
/// where `rows * cols` exceeds `0x7fff_ffff`: the cells come from an `i32`
/// range `0..`, which overflows past `i32::MAX`.
#[verifier::external_body]
pub(crate) fn new_grid(rows: usize, cols: usize) -> (m: simple_matrix::Matrix<char>)
    requires
        rows > 0,
        cols > 0,
        rows * cols <= 0x7fff_ffff,
    ensures
        grid_cols(m) == cols,
        grid_cells(m) == Seq::new((rows * cols) as nat, |i: int| '\0'),
{
    simple_matrix::Matrix::new(rows, cols)
}

/// Relies on `simple_matrix::Matrix::set`: where `row` and `col` lie inside
/// the grid, the cell at `col + row * cols` becomes `value` and the result is
/// `true`; otherwise nothing changes and the result is `false`.
#[verifier::external_body]
pub(crate) fn grid_set(m: &mut simple_matrix::Matrix<char>, row: usize, col: usize, value: char) -> (r: bool)
    ensures
        grid_cols(*final(m)) == grid_cols(*old(m)),
        r == (col < grid_cols(*old(m)) && col + row * grid_cols(*old(m)) < grid_cells(*old(m)).len()),
        r ==> grid_cells(*final(m)) == grid_cells(*old(m)).update(
            col + row * grid_cols(*old(m)),
            value,
        ),
        !r ==> grid_cells(*final(m)) == grid_cells(*old(m)),
{
    m.set(row, col, value)
}

} // verus!
