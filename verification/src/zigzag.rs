//! Zigzag ordering of square matrices stored row by row.
//!
//! The zigzag sequence visits an `n` by `n` matrix one anti-diagonal (`row + col == d`)
//! at a time, for `d` from `0` to `2n - 2`. Odd diagonals are walked from the top row
//! down, even ones from the bottom row up, so that for an 8 by 8 matrix the sequence is
//! the one of JPEG: `(0,0), (0,1), (1,0), (2,0), (1,1), (0,2), ...`.
use vstd::prelude::*;
use vstd::arithmetic::div_mod::lemma_fundamental_div_mod_converse;

verus! {

/// Number of cells on anti-diagonal `d` of an `n` by `n` matrix.
pub open spec fn diag_len(n: int, d: int) -> int {
    if d < n {
        d + 1
    } else {
        2 * n - 1 - d
    }
}

/// Number of cells on the anti-diagonals before `d` of an `n` by `n` matrix.
pub open spec fn diag_start(n: int, d: int) -> int {
    if d <= n {
        d * (d + 1) / 2
    } else {
        n * n - (2 * n - d) * (2 * n - d - 1) / 2
    }
}

/// Position of cell `(r, c)` of an `n` by `n` matrix in the zigzag sequence.
pub open spec fn zigzag_rank(n: int, r: int, c: int) -> int {
    let d = r + c;
    let top = if d < n { 0 } else { d - n + 1 };
    let bottom = if d < n { d } else { n - 1 };
    diag_start(n, d) + if d % 2 == 1 { r - top } else { bottom - r }
}

/// `n` squared.
pub open spec fn square(n: nat) -> nat {
    n * n
}

/// Whether `len` is the number of cells of a square matrix.
pub open spec fn is_square(len: nat) -> bool {
    exists|n: nat| #[trigger] square(n) == len
}

/// The side of the square matrix with `len` cells.
pub open spec fn square_side(len: nat) -> nat {
    choose|n: nat| #[trigger] square(n) == len
}

/// The rank in the zigzag sequence of the cell at row-major position `p` of an `n` by
/// `n` matrix.
pub open spec fn position_rank(n: nat, p: int) -> int {
    zigzag_rank(n as int, p / n as int, p % n as int)
}

/// The row-major position of the cell of rank `k` in the zigzag sequence of an `n` by `n`
/// matrix.
pub open spec fn zigzag_cell(n: nat, k: int) -> int {
    choose|p: int| 0 <= p < n * n && #[trigger] position_rank(n, p) == k
}

/// The entries of `s`, an `n` by `n` matrix stored row by row, in zigzag sequence.
pub open spec fn zigzag_order<T>(n: nat, s: Seq<T>) -> Seq<T> {
    Seq::new(n * n, |k: int| s[zigzag_cell(n, k)])
}

proof fn lemma_square_side_unique(n: nat, m: nat)
    requires
        n * n == m * m,
    ensures
        n == m,
{
    if n < m {
        assert(n * n < m * m) by (nonlinear_arith)
            requires
                n < m,
        ;
    } else if m < n {
        assert(m * m < n * n) by (nonlinear_arith)
            requires
                m < n,
        ;
    }
}

/// `d * (d + 1)` is even.
proof fn lemma_triangle_even(d: int)
    ensures
        2 * (d * (d + 1) / 2) == d * (d + 1),
{
    let h = d / 2;
    if d % 2 == 0 {
        assert(d * (d + 1) == 2 * (h * (d + 1))) by (nonlinear_arith)
            requires
                d == 2 * h,
        ;
    } else {
        assert(d * (d + 1) == 2 * (d * (h + 1))) by (nonlinear_arith)
            requires
                d == 2 * h + 1,
        ;
    }
}

proof fn lemma_diag_start_step(n: int, d: int)
    requires
        0 <= d < 2 * n - 1,
    ensures
        diag_start(n, d + 1) == diag_start(n, d) + diag_len(n, d),
{
    if d + 1 <= n {
        assert((d + 1) * (d + 2) / 2 == d * (d + 1) / 2 + (d + 1)) by (nonlinear_arith)
            requires
                0 <= d,
        ;
    } else {
        let e = 2 * n - d;
        assert((e - 1) * (e - 2) / 2 + (e - 1) == e * (e - 1) / 2) by (nonlinear_arith)
            requires
                1 <= e,
        ;
        if d == n {
            lemma_triangle_even(n);
            lemma_triangle_even(n - 1);
            assert(n * (n + 1) == (n - 1) * (n - 1 + 1) + 2 * n) by (nonlinear_arith);
            assert(n * n == (n - 1) * (n - 1 + 1) + n) by (nonlinear_arith);
            assert(n * (n - 1) == (n - 1) * (n - 1 + 1)) by (nonlinear_arith);
        }
    }
}

proof fn lemma_diag_start_bounds(n: int, d: int)
    requires
        0 <= d <= 2 * n - 1,
    ensures
        0 <= diag_start(n, d) <= n * n,
        d == 2 * n - 1 ==> diag_start(n, d) == n * n,
{
    if d == 2 * n - 1 && d <= n {
        assert(n == 1);
        assert(d * (d + 1) / 2 == 1) by (nonlinear_arith)
            requires
                d == 1,
        ;
    }
    if d == 2 * n - 1 && d > n {
        assert((2 * n - d) * (2 * n - d - 1) / 2 == 0) by (nonlinear_arith)
            requires
                2 * n - d == 1,
        ;
    }
    if d <= n {
        assert(0 <= d * (d + 1) <= n * (n + 1)) by (nonlinear_arith)
            requires
                0 <= d <= n,
        ;
        assert(n * (n + 1) <= 2 * (n * n)) by (nonlinear_arith)
            requires
                0 <= n,
                0 <= d <= 2 * n - 1,
        ;
    } else {
        let e = 2 * n - d;
        assert(0 <= e * (e - 1) <= n * (n - 1)) by (nonlinear_arith)
            requires
                1 <= e <= n,
        ;
        assert(n * (n - 1) <= 2 * (n * n)) by (nonlinear_arith)
            requires
                0 <= n,
        ;
    }
}

/// The rank of a cell lies on its diagonal's stretch of the zigzag sequence.
proof fn lemma_rank_on_diagonal(n: int, r: int, c: int)
    requires
        0 <= r < n,
        0 <= c < n,
    ensures
        diag_start(n, r + c) <= zigzag_rank(n, r, c) < diag_start(n, r + c) + diag_len(n, r + c),
        diag_start(n, r + c) + diag_len(n, r + c) <= n * n,
{
    lemma_diag_start_step(n, r + c);
    lemma_diag_start_bounds(n, r + c + 1);
}

proof fn lemma_rank_in_range(n: int, r: int, c: int)
    requires
        0 <= r < n,
        0 <= c < n,
    ensures
        0 <= zigzag_rank(n, r, c) < n * n,
{
    lemma_rank_on_diagonal(n, r, c);
    lemma_diag_start_bounds(n, r + c);
}

/// Turns a square matrix stored row by row into zigzag order: entry `k` of the result is
/// the entry of the `k`-th cell of the zigzag sequence. Numbering each cell of a 4 by 4
/// matrix by its place in that sequence gives
///
/// ```text
///  0  1  5  6
///  2  4  7 12
///  3  8 11 13
///  9 10 14 15
/// ```
///
/// so the 4 by 4 matrix `0, 1, ..., 15` becomes `0, 1, 4, 8, 5, 2, 3, 6, 9, 12, 13, 10,
/// 7, 11, 14, 15`, and an 8 by 8 one follows the JPEG sequence `0, 1, 8, 16, 9, 2, ...,
/// 62, 63`.
pub fn zigzag<T: Copy>(vec: Vec<T>) -> (res: Vec<T>)
    requires
        is_square(vec@.len()),
    ensures
        res@ == zigzag_order(square_side(vec@.len()), vec@),
{
    let len = vec.len();
    let ghost side = square_side(len as nat);
    let mut n: usize = 0;
    proof {
        if side >= 1 {
            assert(side <= side * side) by (nonlinear_arith)
                requires
                    side >= 1,
            ;
        }
    }
    while n * n < len
        invariant
            square(side) == len,
            side * side == len,
            side <= usize::MAX,
            n <= side,
            n * n <= len,
        decreases side - n,
    {
        proof {
            if n >= side {
                assert(n * n >= side * side) by (nonlinear_arith)
                    requires
                        n >= side,
                ;
            }
            assert((n + 1) * (n + 1) <= side * side) by (nonlinear_arith)
                requires
                    n < side,
            ;
        }
        n = n + 1;
    }
    proof {
        if n < side {
            assert(n * n < side * side) by (nonlinear_arith)
                requires
                    n < side,
            ;
        }
        assert(n == side);
    }
    let mut res: Vec<T> = Vec::with_capacity(len);
    if n == 0 {
        assert(res@ =~= zigzag_order(side, vec@));
        return res;
    }
    proof {
        assert(2 * n - 1 <= n * n) by (nonlinear_arith)
            requires
                n >= 1,
        ;
    }
    let diags = n + (n - 1);
    let mut d: usize = 0;
    while d < diags
        invariant
            n * n == len,
            n == side,
            n >= 1,
            diags == 2 * n - 1,
            len == vec@.len(),
            d <= diags,
            res@.len() == diag_start(n as int, d as int),
            forall|k: int|
                0 <= k < res@.len() ==> #[trigger] res@[k] == vec@[zigzag_cell(n as nat, k)],
        decreases diags - d,
    {
        let top: usize = if d < n {
            0
        } else {
            d - n + 1
        };
        let bottom: usize = if d < n {
            d
        } else {
            n - 1
        };
        let count = bottom - top + 1;
        proof {
            lemma_diag_start_step(n as int, d as int);
            lemma_diag_start_bounds(n as int, d + 1);
        }
        let mut t: usize = 0;
        while t < count
            invariant
                n * n == len,
                n >= 1,
                len == vec@.len(),
                d < 2 * n - 1,
                top == (if d < n { 0int } else { d - n + 1 }),
                bottom == (if d < n { d as int } else { n - 1 }),
                count == diag_len(n as int, d as int),
                diag_start(n as int, d as int) + count <= n * n,
                t <= count,
                res@.len() == diag_start(n as int, d as int) + t,
                forall|k: int|
                    0 <= k < res@.len() ==> #[trigger] res@[k] == vec@[zigzag_cell(n as nat, k)],
            decreases count - t,
        {
            let r = if d % 2 == 1 {
                top + t
            } else {
                bottom - t
            };
            let c = d - r;
            proof {
                assert(r * n + c < n * n) by (nonlinear_arith)
                    requires
                        r < n,
                        c < n,
                ;
                let p = r * n + c;
                lemma_fundamental_div_mod_converse(p as int, n as int, r as int, c as int);
                assert(position_rank(n as nat, p as int) == diag_start(n as int, d as int) + t);
                lemma_cell_of_rank(n as nat, p as int);
            }
            res.push(vec[r * n + c]);
            t = t + 1;
        }
        d = d + 1;
    }
    proof {
        lemma_diag_start_bounds(n as int, 2 * n - 1);
    }
    assert(res@ =~= zigzag_order(side, vec@));
    res
}

/// Diagonal stretches of the zigzag sequence come in diagonal order.
proof fn lemma_diag_start_monotone(n: int, d1: int, d2: int)
    requires
        0 <= d1 <= d2 <= 2 * n - 1,
    ensures
        diag_start(n, d1) <= diag_start(n, d2),
    decreases d2 - d1,
{
    if d1 < d2 {
        lemma_diag_start_step(n, d2 - 1);
        lemma_diag_start_monotone(n, d1, d2 - 1);
    }
}

/// Two cells with the same rank are the same cell.
proof fn lemma_rank_injective(n: int, r1: int, c1: int, r2: int, c2: int)
    requires
        0 <= r1 < n,
        0 <= c1 < n,
        0 <= r2 < n,
        0 <= c2 < n,
        zigzag_rank(n, r1, c1) == zigzag_rank(n, r2, c2),
    ensures
        r1 == r2,
        c1 == c2,
{
    lemma_rank_on_diagonal(n, r1, c1);
    lemma_rank_on_diagonal(n, r2, c2);
    let d1 = r1 + c1;
    let d2 = r2 + c2;
    if d1 < d2 {
        lemma_diag_start_step(n, d1);
        lemma_diag_start_monotone(n, d1 + 1, d2);
    } else if d2 < d1 {
        lemma_diag_start_step(n, d2);
        lemma_diag_start_monotone(n, d2 + 1, d1);
    }
}

/// The diagonal whose stretch of the zigzag sequence holds position `k`.
proof fn lemma_find_diagonal(n: int, k: int, d: int) -> (e: int)
    requires
        0 <= d <= 2 * n - 2,
        diag_start(n, d) <= k < n * n,
    ensures
        d <= e <= 2 * n - 2,
        diag_start(n, e) <= k < diag_start(n, e) + diag_len(n, e),
    decreases 2 * n - 2 - d,
{
    lemma_diag_start_step(n, d);
    if k < diag_start(n, d) + diag_len(n, d) {
        d
    } else {
        if d == 2 * n - 2 {
            lemma_diag_start_bounds(n, 2 * n - 1);
        }
        lemma_find_diagonal(n, k, d + 1)
    }
}

/// Every position of the zigzag sequence is the rank of a cell.
proof fn lemma_rank_surjective(n: int, k: int) -> (cell: (int, int))
    requires
        0 <= n,
        0 <= k < n * n,
    ensures
        0 <= cell.0 < n,
        0 <= cell.1 < n,
        zigzag_rank(n, cell.0, cell.1) == k,
{
    assert(n >= 1) by (nonlinear_arith)
        requires
            0 <= n,
            0 <= k < n * n,
    ;
    assert(diag_start(n, 0) == 0);
    let d = lemma_find_diagonal(n, k, 0);
    let top = if d < n { 0 } else { d - n + 1 };
    let bottom = if d < n { d } else { n - 1 };
    let off = k - diag_start(n, d);
    let r = if d % 2 == 1 { top + off } else { bottom - off };
    (r, d - r)
}

/// Two positions of the same rank are the same position.
proof fn lemma_position_rank_injective(n: nat, p1: int, p2: int)
    requires
        0 <= p1 < n * n,
        0 <= p2 < n * n,
        position_rank(n, p1) == position_rank(n, p2),
    ensures
        p1 == p2,
{
    lemma_cell_of_position(n, p1);
    lemma_cell_of_position(n, p2);
    lemma_rank_injective(n as int, p1 / n as int, p1 % n as int, p2 / n as int, p2 % n as int);
}

/// The cell of the rank of position `p` is `p`.
proof fn lemma_cell_of_rank(n: nat, p: int)
    requires
        0 <= p < n * n,
    ensures
        zigzag_cell(n, position_rank(n, p)) == p,
{
    let q = zigzag_cell(n, position_rank(n, p));
    assert(0 <= q < n * n && position_rank(n, q) == position_rank(n, p));
    lemma_position_rank_injective(n, p, q);
}

/// Zigzag order is a rearrangement: entry `k` comes from a position of the input whose
/// rank is `k`, no two entries come from the same position, and the entry at each
/// position `p` of the input goes to entry `position_rank(n, p)`.
pub proof fn lemma_zigzag_order_permutes<T>(n: nat, s: Seq<T>)
    requires
        s.len() == n * n,
    ensures
        zigzag_order(n, s).len() == s.len(),
        forall|k: int|
            0 <= k < n * n ==> 0 <= #[trigger] zigzag_cell(n, k) < n * n && position_rank(
                n,
                zigzag_cell(n, k),
            ) == k && zigzag_order(n, s)[k] == s[zigzag_cell(n, k)],
        forall|k1: int, k2: int|
            0 <= k1 < n * n && 0 <= k2 < n * n && #[trigger] zigzag_cell(n, k1)
                == #[trigger] zigzag_cell(n, k2) ==> k1 == k2,
        forall|p: int|
            0 <= p < n * n ==> 0 <= #[trigger] position_rank(n, p) < n * n && zigzag_cell(
                n,
                position_rank(n, p),
            ) == p,
{
    assert forall|k: int| 0 <= k < n * n implies 0 <= #[trigger] zigzag_cell(n, k) < n * n
        && position_rank(n, zigzag_cell(n, k)) == k && zigzag_order(n, s)[k] == s[zigzag_cell(
        n,
        k,
    )] by {
        let (r, c) = lemma_rank_surjective(n as int, k);
        let p = r * n + c;
        assert(0 <= p < n * n) by (nonlinear_arith)
            requires
                0 <= r < n,
                0 <= c < n,
                p == r * n + c,
        ;
        lemma_fundamental_div_mod_converse(p, n as int, r, c);
        assert(position_rank(n, p) == k);
        lemma_cell_of_rank(n, p);
    }
    assert forall|p: int| 0 <= p < n * n implies 0 <= #[trigger] position_rank(n, p) < n * n
        && zigzag_cell(n, position_rank(n, p)) == p by {
        lemma_cell_of_position(n, p);
        lemma_rank_in_range(n as int, p / n as int, p % n as int);
        lemma_cell_of_rank(n, p);
    }
}

/// Position `p` of an `n` by `n` grid, stored row by row, is in row `p / n` and column
/// `p % n`, and `p == (p / n) * n + p % n`.
proof fn lemma_cell_of_position(n: nat, p: int)
    requires
        0 <= p < n * n,
    ensures
        0 <= (p / n as int) < n,
        0 <= (p % n as int) < n,
        p == (p / n as int) * n + p % n as int,
{
    assert(n > 0) by (nonlinear_arith)
        requires
            0 <= p < n * n,
    ;
    let q = p / n as int;
    let r = p % n as int;
    assert(p == q * n + r && 0 <= r && r < n) by (nonlinear_arith)
        requires
            n > 0,
            q == p / n as int,
            r == p % n as int,
    ;
    assert(0 <= q < n) by (nonlinear_arith)
        requires
            p == q * n + r,
            0 <= r < n,
            0 <= p < n * n,
    ;
}

} // verus!
