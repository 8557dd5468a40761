//! Geometry of the blocks that a frame is cut into: block `k` is the `k`-th
//! block in row-major order, `s` by `s` pixels.
use vstd::arithmetic::div_mod::{
    lemma_fundamental_div_mod,
    lemma_fundamental_div_mod_converse,
};
use vstd::prelude::*;

verus! {

/// Column of the top-left pixel of block `k`.
pub open spec fn block_x(s: int, cols: int, k: int) -> int {
    (k % cols) * s
}

/// Row of the top-left pixel of block `k`.
pub open spec fn block_y(s: int, cols: int, k: int) -> int {
    (k / cols) * s
}

/// The block that pixel `(x, y)` lies in.
pub open spec fn block_of(s: int, cols: int, x: int, y: int) -> int {
    (y / s) * cols + x / s
}

/// Pixel `(x, y)` lies in one of the `cols` by `rows` blocks.
pub open spec fn in_blocks(s: int, cols: int, rows: int, x: int, y: int) -> bool {
    0 <= x < cols * s && 0 <= y < rows * s
}

/// Pixel `(x, y)` lies in the `s` by `s` square whose top-left pixel is
/// `(x0, y0)`.
pub open spec fn in_square(x0: int, y0: int, s: int, x: int, y: int) -> bool {
    x0 <= x < x0 + s && y0 <= y < y0 + s
}

/// Block `k` of a `cols` by `rows` grid lies inside the grid.
pub proof fn lemma_block_inside(s: int, cols: int, rows: int, k: int)
    requires
        s > 0,
        cols > 0,
        rows >= 0,
        0 <= k < cols * rows,
    ensures
        0 <= k % cols < cols,
        0 <= k / cols < rows,
        0 <= block_x(s, cols, k),
        block_x(s, cols, k) + s <= cols * s,
        0 <= block_y(s, cols, k),
        block_y(s, cols, k) + s <= rows * s,
{
    lemma_fundamental_div_mod(k, cols);
    let bx = k % cols;
    let by = k / cols;
    assert(0 <= bx < cols);
    assert(0 <= by) by (nonlinear_arith)
        requires
            k == cols * by + bx,
            0 <= k,
            bx < cols,
            cols > 0,
    ;
    assert(by < rows) by (nonlinear_arith)
        requires
            k == cols * by + bx,
            k < cols * rows,
            0 <= bx,
            cols > 0,
    ;
    assert(0 <= bx * s && bx * s + s <= cols * s) by (nonlinear_arith)
        requires
            0 <= bx < cols,
            s > 0,
    ;
    assert(0 <= by * s && by * s + s <= rows * s) by (nonlinear_arith)
        requires
            0 <= by < rows,
            s > 0,
    ;
}

/// A pixel lies in the square of block `k` exactly when it lies in the grid
/// and its block is `k`.
pub proof fn lemma_block_square(s: int, cols: int, rows: int, k: int, x: int, y: int)
    requires
        s > 0,
        cols > 0,
        rows >= 0,
        0 <= k < cols * rows,
        0 <= x,
        0 <= y,
    ensures
        in_square(block_x(s, cols, k), block_y(s, cols, k), s, x, y) <==> (in_blocks(
            s,
            cols,
            rows,
            x,
            y,
        ) && block_of(s, cols, x, y) == k),
{
    lemma_block_inside(s, cols, rows, k);
    lemma_fundamental_div_mod(k, cols);
    lemma_fundamental_div_mod(x, s);
    lemma_fundamental_div_mod(y, s);
    let bx = k % cols;
    let by = k / cols;
    if in_square(block_x(s, cols, k), block_y(s, cols, k), s, x, y) {
        lemma_fundamental_div_mod_converse(x, s, bx, x - bx * s);
        lemma_fundamental_div_mod_converse(y, s, by, y - by * s);
        assert(by * cols + bx == k) by (nonlinear_arith)
            requires
                k == cols * by + bx,
        ;
    }
    if in_blocks(s, cols, rows, x, y) && block_of(s, cols, x, y) == k {
        let qx = x / s;
        let qy = y / s;
        assert(0 <= qx < cols) by (nonlinear_arith)
            requires
                x == s * qx + x % s,
                0 <= x % s < s,
                0 <= x < cols * s,
                s > 0,
        ;
        lemma_fundamental_div_mod_converse(k, cols, qy, qx);
        assert(bx * s <= x < bx * s + s) by (nonlinear_arith)
            requires
                x == s * qx + x % s,
                0 <= x % s < s,
                qx == bx,
        ;
        assert(by * s <= y < by * s + s) by (nonlinear_arith)
            requires
                y == s * qy + y % s,
                0 <= y % s < s,
                qy == by,
        ;
    }
}

/// Every pixel of the grid lies in one of its blocks.
pub proof fn lemma_block_of_bound(s: int, cols: int, rows: int, x: int, y: int)
    requires
        s > 0,
        cols > 0,
        rows >= 0,
        in_blocks(s, cols, rows, x, y),
    ensures
        0 <= block_of(s, cols, x, y) < cols * rows,
{
    lemma_fundamental_div_mod(x, s);
    lemma_fundamental_div_mod(y, s);
    let qx = x / s;
    let qy = y / s;
    assert(0 <= qx < cols) by (nonlinear_arith)
        requires
            x == s * qx + x % s,
            0 <= x % s < s,
            0 <= x < cols * s,
            s > 0,
    ;
    assert(0 <= qy < rows) by (nonlinear_arith)
        requires
            y == s * qy + y % s,
            0 <= y % s < s,
            0 <= y < rows * s,
            s > 0,
    ;
    assert(0 <= qy * cols + qx < cols * rows) by (nonlinear_arith)
        requires
            0 <= qx < cols,
            0 <= qy < rows,
    ;
}

/// The part of a side that whole blocks cover is the number of blocks
/// times the block size.
pub proof fn lemma_covered(w: int, s: int)
    requires
        w >= 0,
        s > 0,
    ensures
        w - w % s == (w / s) * s,
        0 <= w / s,
        (w / s) * s <= w,
{
    lemma_fundamental_div_mod(w, s);
    assert((w / s) * s == s * (w / s)) by (nonlinear_arith);
    assert(0 <= w / s) by (nonlinear_arith)
        requires
            w == s * (w / s) + w % s,
            0 <= w % s < s,
            w >= 0,
            s > 0,
    ;
}

} // verus!
