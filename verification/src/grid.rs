//! Cells of a two-dimensional array stored row by row.
use vstd::prelude::*;

verus! {

/// The element in row `i` and column `j` of an array with `cols` columns.
pub open spec fn cell<T>(data: Seq<T>, cols: nat, i: int, j: int) -> T {
    data[i * cols + j]
}

/// Row `i` of an array with `cols` columns.
pub open spec fn row<T>(data: Seq<T>, cols: nat, i: int) -> Seq<T> {
    Seq::new(cols, |j: int| cell(data, cols, i, j))
}

/// Column `j` of an array with `rows` rows and `cols` columns.
pub open spec fn column<T>(data: Seq<T>, rows: nat, cols: nat, j: int) -> Seq<T> {
    Seq::new(rows, |i: int| cell(data, cols, i, j))
}

/// Every cell lies inside the array.
pub proof fn lemma_cell_inside(rows: nat, cols: nat, i: int, j: int)
    requires
        0 <= i < rows,
        0 <= j < cols,
    ensures
        0 <= i * cols,
        i * cols + j < (i + 1) * cols,
        (i + 1) * cols <= rows * cols,
        0 <= i * cols + j < rows * cols,
{
    assert(0 <= i * cols) by (nonlinear_arith)
        requires
            0 <= i,
            0 <= cols,
    ;
    assert((i + 1) * cols == i * cols + cols) by (nonlinear_arith);
    assert((i + 1) * cols <= rows * cols) by (nonlinear_arith)
        requires
            i + 1 <= rows,
            0 <= cols,
    ;
}

/// Different cells lie at different places.
pub proof fn lemma_cell_unique(cols: nat, i: int, j: int, p: int, q: int)
    requires
        0 <= j < cols,
        0 <= q < cols,
        i * cols + j == p * cols + q,
    ensures
        i == p,
        j == q,
{
    assert(i == p) by (nonlinear_arith)
        requires
            0 <= j < cols,
            0 <= q < cols,
            i * cols + j == p * cols + q,
    ;
}

/// Writing one cell leaves all others as they were.
pub proof fn lemma_set_cell<T>(data: Seq<T>, rows: nat, cols: nat, p: int, q: int, v: T)
    requires
        data.len() == rows * cols,
        0 <= p < rows,
        0 <= q < cols,
    ensures
        0 <= p * cols + q < data.len(),
        forall|i: int, j: int|
            0 <= i < rows && 0 <= j < cols ==> #[trigger] cell(
                data.update(p * cols + q, v),
                cols,
                i,
                j,
            ) == if i == p && j == q {
                v
            } else {
                cell(data, cols, i, j)
            },
{
    lemma_cell_inside(rows, cols, p, q);
    assert forall|i: int, j: int| 0 <= i < rows && 0 <= j < cols implies #[trigger] cell(
        data.update(p * cols + q, v),
        cols,
        i,
        j,
    ) == if i == p && j == q {
        v
    } else {
        cell(data, cols, i, j)
    } by {
        lemma_cell_inside(rows, cols, i, j);
        if i * cols + j == p * cols + q {
            lemma_cell_unique(cols, i, j, p, q);
        }
    }
}

/// Appending the next cell in row-major order leaves all others as they were.
pub proof fn lemma_push_cell<T>(data: Seq<T>, cols: nat, p: int, q: int, v: T)
    requires
        0 <= p,
        0 <= q < cols,
        data.len() == p * cols + q,
    ensures
        cell(data.push(v), cols, p, q) == v,
        forall|i: int, j: int|
            0 <= i && 0 <= j < cols && (i < p || i == p && j < q) ==> #[trigger] cell(
                data.push(v),
                cols,
                i,
                j,
            ) == cell(data, cols, i, j),
{
    assert forall|i: int, j: int|
        0 <= i && 0 <= j < cols && (i < p || i == p && j < q) implies #[trigger] cell(
        data.push(v),
        cols,
        i,
        j,
    ) == cell(data, cols, i, j) by {
        assert(0 <= i * cols) by (nonlinear_arith)
            requires
                0 <= i,
                0 <= cols,
        ;
        if i < p {
            lemma_cell_inside(p as nat, cols, i, j);
        }
    }
}

/// Every place of an array belongs to a cell.
pub proof fn lemma_place_cell(rows: nat, cols: nat, place: int)
    requires
        0 <= place < rows * cols,
    ensures
        0 < cols,
        0 <= place / (cols as int) < rows,
        0 <= place % (cols as int) < cols,
        place == (place / (cols as int)) * cols + place % (cols as int),
{
    assert(cols > 0) by (nonlinear_arith)
        requires
            0 <= place < rows * cols,
            0 <= cols,
    ;
    vstd::arithmetic::div_mod::lemma_fundamental_div_mod(place, cols as int);
    vstd::arithmetic::div_mod::lemma_div_pos_is_pos(place, cols as int);
    let q = place / (cols as int);
    let r = place % (cols as int);
    assert(cols * q == q * cols) by (nonlinear_arith);
    assert(q < rows) by (nonlinear_arith)
        requires
            place < rows * cols,
            place == q * cols + r,
            0 <= r,
            0 < cols,
    ;
}

} // verus!
