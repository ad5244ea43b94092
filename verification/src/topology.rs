//! Extracts the closed combinatorial circuit that a valid grid diagram
//! induces, and resolves its crossings.
//!
//! Cells are addressed by absolute indices: cell `(i, j)` has index
//! `i + j * n`.  The circuit alternates column edges (over-mark to
//! under-mark within one column) and row edges (under-mark to over-mark
//! within one row), starting and ending at column zero's over-mark.

use vstd::prelude::*;

use crate::diagram::{find_unique, Diagram};
use crate::grid::{column, lemma_count_one_unique, marker_pos, valid_grid, OVER_MARK, UNDER_MARK};
use vstd::arithmetic::div_mod::{
    lemma_fundamental_div_mod, lemma_fundamental_div_mod_converse, lemma_multiply_divide_lt,
};
use vstd::set_lib::{lemma_int_range, lemma_len_subset, set_int_range};

verus! {

/// The row a cell's absolute index decodes to.
pub open spec fn row_of(a: int, n: int) -> int {
    a % n
}

/// The column a cell's absolute index decodes to.
pub open spec fn col_of(a: int, n: int) -> int {
    a / n
}

/// The absolute index of the cell at row `i`, column `j`.
pub open spec fn abs_index(i: int, j: int, n: int) -> int {
    i + j * n
}

/// Encoding a cell and decoding it again are mutually inverse.
pub proof fn lemma_abs_index(i: int, j: int, n: int)
    requires
        0 <= i < n,
        0 <= j,
    ensures
        row_of(abs_index(i, j, n), n) == i,
        col_of(abs_index(i, j, n), n) == j,
{
    lemma_fundamental_div_mod_converse(i + j * n, n, j, i);
}

/// Both decoded coordinates of an in-range absolute index are in range.
pub proof fn lemma_abs_bounds(a: int, n: int)
    requires
        0 < n,
        0 <= a < n * n,
    ensures
        0 <= row_of(a, n) < n,
        0 <= col_of(a, n) < n,
{
    lemma_multiply_divide_lt(a, n, n);
}

/// The marker a valid grid holds at the cell an absolute index names.
pub open spec fn cell_at(m: Seq<Seq<char>>, n: int, a: int) -> char {
    m[row_of(a, n)][col_of(a, n)]
}

/// What the extractor promises of a base circuit over the grid `m`: it has
/// exactly `2n + 1` entries, starts and ends at the same cell, its even
/// entries are over-marks and its odd entries under-marks, consecutive
/// entries alternate column edges and row edges, and no cell repeats
/// before the closing entry.
pub open spec fn base_circuit_ok(c: Seq<usize>, m: Seq<Seq<char>>) -> bool {
    let n = m.len() as int;
    &&& c.len() == 2 * n + 1
    &&& c[0] == c[2 * n]
    &&& forall|k: int| 0 <= k < c.len() ==> #[trigger] (c[k] as int) < n * n
    &&& forall|k: int|
        0 <= k < c.len() && k % 2 == 0 ==> #[trigger] cell_at(m, n, c[k] as int) == OVER_MARK
    &&& forall|k: int|
        0 <= k < c.len() && k % 2 == 1 ==> #[trigger] cell_at(m, n, c[k] as int) == UNDER_MARK
    &&& forall|k: int|
        0 <= k < c.len() - 1 && k % 2 == 0 ==> col_of(#[trigger] c[k] as int, n) == col_of(
            c[k + 1] as int,
            n,
        )
    &&& forall|k: int|
        0 <= k < c.len() - 1 && k % 2 == 1 ==> row_of(#[trigger] c[k] as int, n) == row_of(
            c[k + 1] as int,
            n,
        )
    &&& forall|k1: int, k2: int|
        #![trigger c[k1], c[k2]]
        0 <= k1 < k2 < 2 * n ==> c[k1] != c[k2]
}

/// The smaller of two endpoints.
pub open spec fn norm_lo(a: int, b: int) -> int {
    if a <= b {
        a
    } else {
        b
    }
}

/// The larger of two endpoints.
pub open spec fn norm_hi(a: int, b: int) -> int {
    if a <= b {
        b
    } else {
        a
    }
}

/// Whether column edge `t` of the circuit crosses row edge `u`: the
/// column's index lies strictly between the row edge's column bounds and
/// the row's index strictly between the column edge's row bounds, so the
/// two segments cross transversally.  Rows pass under columns.
pub open spec fn crossing_cond(c: Seq<usize>, n: int, t: int, u: int) -> bool {
    let cs = norm_lo(c[2 * t] as int, c[2 * t + 1] as int);
    let ce = norm_hi(c[2 * t] as int, c[2 * t + 1] as int);
    let rs = norm_lo(c[2 * u + 1] as int, c[2 * u + 2] as int);
    let re = norm_hi(c[2 * u + 1] as int, c[2 * u + 2] as int);
    &&& col_of(cs, n) > col_of(rs, n)
    &&& col_of(cs, n) < col_of(re, n)
    &&& row_of(cs, n) < row_of(rs, n)
    &&& row_of(ce, n) > row_of(rs, n)
}

/// The cell where column edge `t` crosses row edge `u`: the row edge's
/// row, the column edge's column.
pub open spec fn crossing_cell(c: Seq<usize>, n: int, t: int, u: int) -> int {
    let cs = norm_lo(c[2 * t] as int, c[2 * t + 1] as int);
    let rs = norm_lo(c[2 * u + 1] as int, c[2 * u + 2] as int);
    abs_index(row_of(rs, n), col_of(cs, n), n)
}

/// The crossing cells of column edge `t` against the row edges before
/// `u_end`, in row-edge order.
pub open spec fn edge_crossings(c: Seq<usize>, n: int, t: int, u_end: int) -> Seq<usize>
    decreases u_end,
{
    if u_end <= 0 {
        Seq::empty()
    } else {
        edge_crossings(c, n, t, u_end - 1) + if crossing_cond(c, n, t, u_end - 1) {
            seq![crossing_cell(c, n, t, u_end - 1) as usize]
        } else {
            Seq::empty()
        }
    }
}

/// The crossing cells of the column edges before `t_end`, edge by edge.
pub open spec fn all_crossings(c: Seq<usize>, n: int, t_end: int) -> Seq<usize>
    decreases t_end,
{
    if t_end <= 0 {
        Seq::empty()
    } else {
        all_crossings(c, n, t_end - 1) + edge_crossings(c, n, t_end - 1, n)
    }
}

/// Whether `xs` occurs inside `ys` in order: `ys` is `xs` with extra
/// entries spliced in, none removed and none reordered.
pub open spec fn subsequence_of<T>(xs: Seq<T>, ys: Seq<T>) -> bool
    decreases ys.len(),
{
    if xs.len() == 0 {
        true
    } else if ys.len() == 0 {
        false
    } else {
        (xs[0] == ys[0] && subsequence_of(xs.skip(1), ys.skip(1))) || subsequence_of(xs, ys.skip(1))
    }
}

/// Every sequence is a subsequence of itself.
pub proof fn lemma_subsequence_refl<T>(xs: Seq<T>)
    ensures
        subsequence_of(xs, xs),
    decreases xs.len(),
{
    if xs.len() > 0 {
        lemma_subsequence_refl(xs.skip(1));
    }
}

/// Splicing one entry into `ys` keeps every subsequence of `ys` a
/// subsequence.
pub proof fn lemma_subsequence_insert<T>(xs: Seq<T>, ys: Seq<T>, k: int, v: T)
    requires
        subsequence_of(xs, ys),
        0 <= k <= ys.len(),
    ensures
        subsequence_of(xs, ys.insert(k, v)),
    decreases ys.len(),
{
    let ys2 = ys.insert(k, v);
    if xs.len() == 0 {
    } else if k == 0 {
        assert(ys2.skip(1) =~= ys);
        assert(subsequence_of(xs, ys2.skip(1)));
    } else {
        assert(ys.len() > 0);
        assert(ys2[0] == ys[0]);
        assert(ys2.skip(1) =~= ys.skip(1).insert(k - 1, v));
        if xs[0] == ys[0] && subsequence_of(xs.skip(1), ys.skip(1)) {
            lemma_subsequence_insert(xs.skip(1), ys.skip(1), k - 1, v);
        }
        if subsequence_of(xs, ys.skip(1)) {
            lemma_subsequence_insert(xs, ys.skip(1), k - 1, v);
        }
    }
}

/// A subsequence's entries all occur in the longer sequence.
pub proof fn lemma_subsequence_contains<T>(xs: Seq<T>, ys: Seq<T>, x: T)
    requires
        subsequence_of(xs, ys),
        xs.contains(x),
    ensures
        ys.contains(x),
    decreases ys.len(),
{
    if xs.len() > 0 && ys.len() > 0 {
        if xs[0] == ys[0] && subsequence_of(xs.skip(1), ys.skip(1)) {
            if x == xs[0] {
                assert(ys[0] == x);
            } else {
                let i = choose|i: int| 0 <= i < xs.len() && xs[i] == x;
                assert(xs.skip(1)[i - 1] == x);
                lemma_subsequence_contains(xs.skip(1), ys.skip(1), x);
                let p = choose|p: int| 0 <= p < ys.skip(1).len() && ys.skip(1)[p] == x;
                assert(ys[p + 1] == x);
            }
        } else {
            lemma_subsequence_contains(xs, ys.skip(1), x);
            let p = choose|p: int| 0 <= p < ys.skip(1).len() && ys.skip(1)[p] == x;
            assert(ys[p + 1] == x);
        }
    }
}

/// The absolute index of the one over-mark in row `r`.
pub open spec fn over_in_row(m: Seq<Seq<char>>, r: int) -> int {
    abs_index(r, marker_pos(m[r], OVER_MARK), m.len() as int)
}

/// The absolute index of the one under-mark in column `j`.
pub open spec fn under_in_col(m: Seq<Seq<char>>, j: int) -> int {
    abs_index(marker_pos(column(m, j), UNDER_MARK), j, m.len() as int)
}

/// The over-mark the walk starts from: column zero's.
pub open spec fn start_over(m: Seq<Seq<char>>) -> int {
    abs_index(marker_pos(column(m, 0), OVER_MARK), 0, m.len() as int)
}

/// The under-mark the walk rests at after `k + 1` column edges.  The walk
/// enters at column zero; from each under-mark it crosses its row to the
/// row's over-mark, and follows that mark's column to the column's
/// under-mark.
pub open spec fn walk_under(m: Seq<Seq<char>>, k: nat) -> int
    decreases k,
{
    if k == 0 {
        under_in_col(m, 0)
    } else {
        let prev = walk_under(m, (k - 1) as nat);
        under_in_col(m, col_of(over_in_row(m, row_of(prev, m.len() as int)), m.len() as int))
    }
}

/// The over-mark the walk reaches with its `k + 1`th row edge.
pub open spec fn next_over(m: Seq<Seq<char>>, k: nat) -> int {
    over_in_row(m, row_of(walk_under(m, k), m.len() as int))
}

/// Whether the diagram's marks trace a single closed loop: the walk does
/// not return to its starting over-mark before its `n`th row edge.  The
/// extractor succeeds on exactly these diagrams.
pub open spec fn single_loop(m: Seq<Seq<char>>) -> bool {
    forall|k: int| 1 <= k < m.len() ==> #[trigger] next_over(m, (k - 1) as nat) != start_over(m)
}

/// Two under-marks in the same row of a valid grid are the same cell.
pub proof fn lemma_same_row_unders_equal(m: Seq<Seq<char>>, a1: int, a2: int)
    requires
        valid_grid(m),
        0 <= a1 < m.len() * m.len(),
        0 <= a2 < m.len() * m.len(),
        row_of(a1, m.len() as int) == row_of(a2, m.len() as int),
        cell_at(m, m.len() as int, a1) == UNDER_MARK,
        cell_at(m, m.len() as int, a2) == UNDER_MARK,
    ensures
        a1 == a2,
{
    let n = m.len() as int;
    if n == 0 {
        assert(false);
    }
    lemma_abs_bounds(a1, n);
    lemma_abs_bounds(a2, n);
    let r = row_of(a1, n);
    lemma_count_one_unique(m[r], col_of(a1, n), col_of(a2, n), UNDER_MARK);
    lemma_fundamental_div_mod(a1, n);
    lemma_fundamental_div_mod(a2, n);
}

/// Two over-marks in the same column of a valid grid are the same cell.
pub proof fn lemma_same_col_overs_equal(m: Seq<Seq<char>>, a1: int, a2: int)
    requires
        valid_grid(m),
        0 <= a1 < m.len() * m.len(),
        0 <= a2 < m.len() * m.len(),
        col_of(a1, m.len() as int) == col_of(a2, m.len() as int),
        cell_at(m, m.len() as int, a1) == OVER_MARK,
        cell_at(m, m.len() as int, a2) == OVER_MARK,
    ensures
        a1 == a2,
{
    let n = m.len() as int;
    if n == 0 {
        assert(false);
    }
    lemma_abs_bounds(a1, n);
    lemma_abs_bounds(a2, n);
    let j = col_of(a1, n);
    assert(column(m, j)[row_of(a1, n)] == cell_at(m, n, a1));
    assert(column(m, j)[row_of(a2, n)] == cell_at(m, n, a2));
    lemma_count_one_unique(column(m, j), row_of(a1, n), row_of(a2, n), OVER_MARK);
    lemma_fundamental_div_mod(a1, n);
    lemma_fundamental_div_mod(a2, n);
}

/// A range of `n` integers has no room for more than `n` distinct values.
pub proof fn lemma_distinct_values_bounded(vals: Seq<int>, n: int)
    requires
        0 <= n,
        vals.no_duplicates(),
        forall|k: int| 0 <= k < vals.len() ==> 0 <= #[trigger] vals[k] < n,
    ensures
        vals.len() <= n,
{
    vals.unique_seq_to_set();
    assert(vals.to_set().subset_of(set_int_range(0, n))) by {
        assert forall|x: int| vals.to_set().contains(x) implies set_int_range(0, n).contains(
            x,
        ) by {
            assert(vals.contains(x));
            let k = choose|k: int| 0 <= k < vals.len() && vals[k] == x;
            assert(0 <= vals[k] < n);
        }
    }
    lemma_int_range(0, n);
    lemma_len_subset(vals.to_set(), set_int_range(0, n));
}

/// An entry of a sequence with one value spliced in is an old entry or
/// the spliced value.
pub proof fn lemma_contains_insert<T>(s: Seq<T>, k: int, v: T, x: T)
    requires
        0 <= k <= s.len(),
        s.insert(k, v).contains(x),
    ensures
        s.contains(x) || x == v,
{
    let s2 = s.insert(k, v);
    let w = choose|w: int| 0 <= w < s2.len() && s2[w] == x;
    if w < k {
        assert(s[w] == x);
    } else if w == k {
    } else {
        assert(s[w - 1] == x);
    }
}

/// An entry of a sequence stays an entry when more entries follow.
pub proof fn lemma_contains_prefix<T>(s1: Seq<T>, s2: Seq<T>, x: T)
    requires
        s1.contains(x),
    ensures
        (s1 + s2).contains(x),
{
    let i = choose|i: int| 0 <= i < s1.len() && s1[i] == x;
    assert((s1 + s2)[i] == x);
}

/// What holds of every prefix the circuit walk has built: entries are
/// in-range cells, even entries over-marks and odd entries under-marks,
/// consecutive entries alternate column and row edges, and no entry
/// repeats.
pub open spec fn walk_prefix_ok(c: Seq<usize>, m: Seq<Seq<char>>) -> bool {
    let n = m.len() as int;
    &&& 2 <= c.len()
    &&& forall|k: int| 0 <= k < c.len() ==> #[trigger] (c[k] as int) < n * n
    &&& forall|k: int|
        0 <= k < c.len() && k % 2 == 0 ==> #[trigger] cell_at(m, n, c[k] as int) == OVER_MARK
    &&& forall|k: int|
        0 <= k < c.len() && k % 2 == 1 ==> #[trigger] cell_at(m, n, c[k] as int) == UNDER_MARK
    &&& forall|k: int|
        0 <= k < c.len() - 1 && k % 2 == 0 ==> col_of(#[trigger] c[k] as int, n) == col_of(
            c[k + 1] as int,
            n,
        )
    &&& forall|k: int|
        0 <= k < c.len() - 1 && k % 2 == 1 ==> row_of(#[trigger] c[k] as int, n) == row_of(
            c[k + 1] as int,
            n,
        )
    &&& forall|k1: int, k2: int|
        #![trigger c[k1], c[k2]]
        0 <= k1 < k2 < c.len() ==> c[k1] != c[k2]
}

/// A walk prefix with one mark pair per column closes into a base
/// circuit when its starting over-mark is appended and that mark sits in
/// the last under-mark's row.
pub proof fn lemma_walk_closes(m: Seq<Seq<char>>, c: Seq<usize>, tie: usize)
    requires
        walk_prefix_ok(c, m),
        c.len() == 2 * m.len(),
        c[0] == tie,
        (tie as int) < m.len() * m.len(),
        cell_at(m, m.len() as int, tie as int) == OVER_MARK,
        row_of(tie as int, m.len() as int) == row_of(c[c.len() - 1] as int, m.len() as int),
    ensures
        base_circuit_ok(c.push(tie), m),
{
    let n = m.len() as int;
    let c2 = c.push(tie);
    assert(c2.len() == 2 * n + 1);
    assert(c2[2 * n] == tie);
    assert(forall|k: int| 0 <= k < c.len() ==> c2[k] == #[trigger] c[k]);
    assert(row_of(c2[2 * n - 1] as int, n) == row_of(c2[2 * n] as int, n));
}

/// A walk prefix stays one when a fresh over-mark in the last under-mark's
/// row and then a fresh under-mark in that over-mark's column are
/// appended.
pub proof fn lemma_walk_extends(m: Seq<Seq<char>>, c: Seq<usize>, over: usize, under: usize)
    requires
        walk_prefix_ok(c, m),
        c.len() % 2 == 0,
        (over as int) < m.len() * m.len(),
        (under as int) < m.len() * m.len(),
        cell_at(m, m.len() as int, over as int) == OVER_MARK,
        cell_at(m, m.len() as int, under as int) == UNDER_MARK,
        row_of(over as int, m.len() as int) == row_of(c[c.len() - 1] as int, m.len() as int),
        col_of(under as int, m.len() as int) == col_of(over as int, m.len() as int),
        !c.contains(over),
        !c.push(over).contains(under),
    ensures
        walk_prefix_ok(c.push(over).push(under), m),
{
    let n = m.len() as int;
    let c2 = c.push(over).push(under);
    assert(c2.len() == c.len() + 2);
    assert(forall|k: int| 0 <= k < c.len() ==> c2[k] == #[trigger] c[k]);
    assert(c2[c.len() as int] == over);
    assert(c2[c.len() as int + 1] == under);
    assert forall|k1: int, k2: int|
        #![trigger c2[k1], c2[k2]]
        0 <= k1 < k2 < c2.len() implies c2[k1] != c2[k2] by {
        if k2 == c.len() as int {
            assert(!c.contains(over));
        } else if k2 == c.len() as int + 1 {
            assert(!c.push(over).contains(under));
            if k1 < c.len() {
                assert(c.push(over)[k1] == c[k1]);
            }
        }
    }
}

/// The over-mark a row edge reaches is new to the walk unless it is the
/// starting mark: its row already carries one of the walk's under-marks,
/// a row has only one, so an earlier occurrence would repeat an entry.
pub proof fn lemma_next_over_fresh(m: Seq<Seq<char>>, c: Seq<usize>, over: usize)
    requires
        valid_grid(m),
        2 <= c.len(),
        c.len() % 2 == 0,
        forall|k: int| 0 <= k < c.len() ==> #[trigger] (c[k] as int) < m.len() * m.len(),
        forall|k: int|
            0 <= k < c.len() && k % 2 == 1 ==> #[trigger] cell_at(m, m.len() as int, c[k] as int)
                == UNDER_MARK,
        forall|k: int|
            0 <= k < c.len() - 1 && k % 2 == 1 ==> row_of(#[trigger] c[k] as int, m.len() as int)
                == row_of(c[k + 1] as int, m.len() as int),
        forall|k1: int, k2: int|
            #![trigger c[k1], c[k2]]
            0 <= k1 < k2 < c.len() ==> c[k1] != c[k2],
        (over as int) < m.len() * m.len(),
        cell_at(m, m.len() as int, over as int) == OVER_MARK,
        row_of(over as int, m.len() as int) == row_of(c[c.len() - 1] as int, m.len() as int),
        over != c[0],
    ensures
        !c.contains(over),
{
    let n = m.len() as int;
    let last = c.len() - 1;
    if c.contains(over) {
        let w = choose|w: int| 0 <= w < c.len() && c[w] == over;
        if w % 2 == 1 {
            assert(cell_at(m, n, c[w] as int) == UNDER_MARK);
            assert(cell_at(m, n, over as int) == OVER_MARK);
            assert(false);
        } else if w == 0 {
            assert(c[0] == over);
            assert(false);
        } else {
            assert(last % 2 == 1);
            assert(cell_at(m, n, c[w - 1] as int) == UNDER_MARK);
            assert(cell_at(m, n, c[last] as int) == UNDER_MARK);
            assert(row_of(c[w - 1] as int, n) == row_of(c[w] as int, n));
            assert(row_of(c[w] as int, n) == row_of(c[last] as int, n));
            lemma_same_row_unders_equal(m, c[w - 1] as int, c[last] as int);
            assert(c[w - 1] == c[last]);
            assert(false);
        }
    }
}

/// The under-mark a column edge reaches is new to the walk: its column
/// already carries the over-mark the walk just came from, a column has
/// only one, so an earlier occurrence would repeat an entry.
pub proof fn lemma_next_under_fresh(m: Seq<Seq<char>>, c: Seq<usize>, under: usize)
    requires
        valid_grid(m),
        1 <= c.len(),
        c.len() % 2 == 1,
        forall|k: int| 0 <= k < c.len() ==> #[trigger] (c[k] as int) < m.len() * m.len(),
        forall|k: int|
            0 <= k < c.len() && k % 2 == 0 ==> #[trigger] cell_at(m, m.len() as int, c[k] as int)
                == OVER_MARK,
        forall|k: int|
            0 <= k < c.len() - 1 && k % 2 == 0 ==> col_of(#[trigger] c[k] as int, m.len() as int)
                == col_of(c[k + 1] as int, m.len() as int),
        forall|k1: int, k2: int|
            #![trigger c[k1], c[k2]]
            0 <= k1 < k2 < c.len() ==> c[k1] != c[k2],
        (under as int) < m.len() * m.len(),
        cell_at(m, m.len() as int, under as int) == UNDER_MARK,
        col_of(under as int, m.len() as int) == col_of(c[c.len() - 1] as int, m.len() as int),
    ensures
        !c.contains(under),
{
    let n = m.len() as int;
    if c.contains(under) {
        let w = choose|w: int| 0 <= w < c.len() && c[w] == under;
        if w % 2 == 0 {
            assert(cell_at(m, n, c[w] as int) == OVER_MARK);
            assert(false);
        } else {
            assert(col_of(c[w - 1] as int, n) == col_of(c[w] as int, n));
            lemma_same_col_overs_equal(m, c[w - 1] as int, c[c.len() - 1] as int);
            assert(false);
        }
    }
}

/// Once the walk holds one mark pair per column, any further over-mark
/// already lies on it: its column is one of the `n` distinct columns the
/// walk's over-marks occupy, and a column has one over-mark only.
pub proof fn lemma_full_walk_repeats(m: Seq<Seq<char>>, c: Seq<usize>, over: usize)
    requires
        valid_grid(m),
        c.len() == 2 * m.len(),
        2 <= c.len(),
        forall|k: int| 0 <= k < c.len() ==> #[trigger] (c[k] as int) < m.len() * m.len(),
        forall|k: int|
            0 <= k < c.len() && k % 2 == 0 ==> #[trigger] cell_at(m, m.len() as int, c[k] as int)
                == OVER_MARK,
        forall|k1: int, k2: int|
            #![trigger c[k1], c[k2]]
            0 <= k1 < k2 < c.len() ==> c[k1] != c[k2],
        (over as int) < m.len() * m.len(),
        cell_at(m, m.len() as int, over as int) == OVER_MARK,
    ensures
        c.contains(over),
{
    let n = m.len() as int;
    let pairs = c.len() as int / 2;
    if !c.contains(over) {
        let cols = Seq::new(
            (pairs + 1) as nat,
            |p: int|
                if p < pairs {
                    col_of(c[2 * p] as int, n)
                } else {
                    col_of(over as int, n)
                },
        );
        assert forall|p1: int, p2: int|
            0 <= p1 < cols.len() && 0 <= p2 < cols.len() && p1 != p2 implies cols[p1]
            != cols[p2] by {
            if cols[p1] == cols[p2] {
                let a1 = if p1 < pairs {
                    c[2 * p1] as int
                } else {
                    over as int
                };
                let a2 = if p2 < pairs {
                    c[2 * p2] as int
                } else {
                    over as int
                };
                lemma_same_col_overs_equal(m, a1, a2);
                if p1 < pairs && p2 >= pairs {
                    assert(c[2 * p1] == over);
                    assert(c.contains(over));
                }
                if p2 < pairs && p1 >= pairs {
                    assert(c[2 * p2] == over);
                    assert(c.contains(over));
                }
                assert(false);
            }
        }
        assert(cols.no_duplicates());
        assert forall|p: int| 0 <= p < cols.len() implies 0 <= #[trigger] cols[p] < n by {
            if p < pairs {
                lemma_abs_bounds(c[2 * p] as int, n);
            } else {
                lemma_abs_bounds(over as int, n);
            }
        }
        lemma_distinct_values_bounded(cols, n);
        assert(false);
    }
}

/// Whether `x` occurs in the vector.
fn contains_index(v: &Vec<usize>, x: usize) -> (r: bool)
    ensures
        r == v@.contains(x),
{
    let n = v.len();
    for k in 0..n
        invariant
            n == v@.len(),
            forall|p: int| 0 <= p < k ==> v@[p] != x,
    {
        if v[k] == x {
            return true;
        }
    }
    assert(!v@.contains(x));
    false
}

impl Diagram {
    /// Walks the marks of the diagram into the closed base circuit,
    /// starting at column zero's over-mark and alternating row and column
    /// edges.  Succeeds exactly when the marks trace a single closed
    /// loop; on a diagram whose marks fall into several loops (a split
    /// link) the walk closes early and no single circuit exists.
    #[verifier::rlimit(80)]
    pub fn generate_circuit(&self) -> (r: Option<Vec<usize>>)
        requires
            self.wf(),
            self.valid(),
            self.spec_resolution() >= 1,
            self.spec_resolution() * self.spec_resolution() <= usize::MAX,
        ensures
            r is Some <==> single_loop(self.grid()),
            r matches Some(c) ==> base_circuit_ok(c@, self.grid()),
    {
        let ghost m = self.grid();
        let n = self.get_resolution();
        let ghost ni = n as int;

        let first_column = self.get_column(0);
        let s = find_unique(&first_column, OVER_MARK);
        let e = find_unique(&first_column, UNDER_MARK);
        let tie = self.convert_to_absolute_index(s, 0);
        let start_under = self.convert_to_absolute_index(e, 0);
        proof {
            lemma_abs_index(s as int, 0, ni);
            lemma_abs_index(e as int, 0, ni);
            assert(first_column@ == column(m, 0));
            assert(tie as int == start_over(m));
            assert(start_under as int == walk_under(m, 0));
        }

        proof {
            if ni >= 2 {
                assert(2 * ni <= ni * ni) by (nonlinear_arith)
                    requires
                        ni >= 2,
                ;
            }
        }
        let mut circuit: Vec<usize> = Vec::new();
        circuit.push(tie);
        circuit.push(start_under);

        // The row of the under-mark the walk last reached.
        let mut cur_row = e;

        loop
            invariant
                self.wf(),
                self.valid(),
                m == self.grid(),
                ni == self.spec_resolution(),
                n == ni,
                1 <= ni,
                ni * ni <= usize::MAX,
                2 * ni <= usize::MAX,
                2 <= circuit@.len() <= 2 * ni,
                circuit@.len() % 2 == 0,
                circuit@[0] == tie,
                tie as int == abs_index(s as int, 0, ni),
                cell_at(m, ni, tie as int) == OVER_MARK,
                tie as int == start_over(m),
                (circuit@[circuit@.len() - 1] as int) == walk_under(
                    m,
                    (circuit@.len() / 2 - 1) as nat,
                ),
                forall|k: int|
                    1 <= k < circuit@.len() / 2 ==> #[trigger] next_over(m, (k - 1) as nat)
                        != start_over(m),
                cur_row < n,
                cur_row as int == row_of(circuit@[circuit@.len() - 1] as int, ni),
                walk_prefix_ok(circuit@, m),
            decreases 2 * ni - circuit@.len(),
        {
            let ghost pairs0 = circuit@.len() as int / 2;

            // Row edge: from the current under-mark, step to the one
            // over-mark in its row.
            let row_line = self.get_row(cur_row);
            let next_col = find_unique(&row_line, OVER_MARK);
            let over_abs = self.convert_to_absolute_index(cur_row, next_col);
            proof {
                lemma_abs_index(cur_row as int, next_col as int, ni);
                assert(cell_at(m, ni, over_abs as int) == OVER_MARK);
                // This step is the walk's row edge number `pairs0`.
                assert(over_abs as int == next_over(m, (pairs0 - 1) as nat));
            }

            if over_abs == tie {
                // The walk has come back to its start: close the loop.
                let ghost before_close = circuit@;
                circuit.push(tie);
                if circuit.len() == 2 * n + 1 {
                    proof {
                        lemma_walk_closes(m, before_close, tie);
                        assert(circuit@ == before_close.push(tie));
                        assert(single_loop(m));
                    }
                    return Some(circuit);
                } else {
                    // The walk closed early: the marks fall into more than
                    // one loop, which no single circuit can represent.
                    proof {
                        assert(1 <= pairs0 < ni);
                        assert(next_over(m, (pairs0 - 1) as nat) == start_over(m));
                        assert(!single_loop(m));
                    }
                    return None;
                }
            }
            proof {
                // A repeat other than the start would repeat a row's one
                // under-mark; a full walk forces the next over-mark onto
                // the circuit.  Either way the two checks below cannot
                // fire: they guard a defect that cannot occur.
                lemma_next_over_fresh(m, circuit@, over_abs);
                if circuit@.len() >= 2 * ni {
                    lemma_full_walk_repeats(m, circuit@, over_abs);
                }
            }
            if contains_index(&circuit, over_abs) {
                proof {
                    assert(false);
                }
                return None;
            }
            if circuit.len() >= 2 * n {
                proof {
                    assert(false);
                }
                return None;
            }
            let ghost before_pair = circuit@;
            circuit.push(over_abs);

            // Column edge: from that over-mark, step to the one
            // under-mark in its column.
            let col_line = self.get_column(next_col);
            let next_row = find_unique(&col_line, UNDER_MARK);
            let under_abs = self.convert_to_absolute_index(next_row, next_col);
            proof {
                lemma_abs_index(next_row as int, next_col as int, ni);
                assert(column(m, next_col as int)[next_row as int] == m[next_row as int][
                    next_col as int]);
                assert(cell_at(m, ni, under_abs as int) == UNDER_MARK);
                assert(under_abs as int == under_in_col(m, next_col as int));
            }
            proof {
                assert(col_of(circuit@[circuit@.len() - 1] as int, ni) == next_col as int);
                lemma_next_under_fresh(m, circuit@, under_abs);
            }
            if contains_index(&circuit, under_abs) {
                proof {
                    assert(false);
                }
                return None;
            }
            circuit.push(under_abs);
            cur_row = next_row;
            proof {
                lemma_walk_extends(m, before_pair, over_abs, under_abs);
                assert(circuit@ == before_pair.push(over_abs).push(under_abs));
                // The new under-mark is the walk's next resting point.
                assert(walk_under(m, pairs0 as nat) == under_abs as int);
            }
        }
    }

    /// Splices the crossing cells into the base circuit and returns the
    /// resolved circuit together with the lifted cells: those where the
    /// over-strand must be raised out of the grid plane.  The base circuit
    /// is kept intact — nothing is removed or reordered, crossing cells
    /// are only spliced in — and the lifted sequence records exactly one
    /// cell per crossing, so the resolved circuit is longer than the base
    /// by the number of lifted cells.
    pub fn resolve_crossings(&self, circuit: &Vec<usize>) -> (r: (Vec<usize>, Vec<usize>))
        requires
            self.wf(),
            self.spec_resolution() >= 1,
            self.spec_resolution() * self.spec_resolution() <= usize::MAX,
            circuit@.len() == 2 * self.spec_resolution() + 1,
            forall|k: int|
                0 <= k < circuit@.len() ==> #[trigger] (circuit@[k] as int)
                    < self.spec_resolution() * self.spec_resolution(),
        ensures
            subsequence_of(circuit@, r.0@),
            r.0@.len() == circuit@.len() + r.1@.len(),
            r.1@ == all_crossings(circuit@, self.spec_resolution(), self.spec_resolution()),
            forall|x: usize|
                #[trigger] r.0@.contains(x) ==> circuit@.contains(x) || r.1@.contains(x),
    {
        let ghost c = circuit@;
        let n = self.get_resolution();
        let ghost ni = n as int;
        proof {
            if ni >= 2 {
                assert(2 * ni <= ni * ni) by (nonlinear_arith)
                    requires
                        ni >= 2,
                ;
            }
        }

        let mut resolved = clone_indices(circuit);
        let mut lifted: Vec<usize> = Vec::new();
        proof {
            lemma_subsequence_refl(c);
        }

        for t in 0..n
            invariant
                self.wf(),
                ni == self.spec_resolution(),
                n == ni,
                1 <= ni,
                ni * ni <= usize::MAX,
                2 * ni <= usize::MAX,
                c == circuit@,
                c.len() == 2 * ni + 1,
                forall|k: int| 0 <= k < c.len() ==> #[trigger] (c[k] as int) < ni * ni,
                subsequence_of(c, resolved@),
                resolved@.len() == c.len() + lifted@.len(),
                lifted@ == all_crossings(c, ni, t as int),
                forall|x: usize|
                    #[trigger] resolved@.contains(x) ==> c.contains(x) || lifted@.contains(x),
        {
            let ghost lift_pre = lifted@;
            let ghost res_pre = resolved@;

            // Normalize the column edge so it runs from the smaller to
            // the larger absolute index, remembering the swap.
            let mut col_s = circuit[2 * t];
            let mut col_e = circuit[2 * t + 1];
            let mut oriented_upwards = false;
            if col_s > col_e {
                let held = col_s;
                col_s = col_e;
                col_e = held;
                oriented_upwards = true;
            }
            proof {
                lemma_abs_bounds(col_s as int, ni);
                lemma_abs_bounds(col_e as int, ni);
            }
            let (cs_i, cs_j) = self.convert_to_grid_indices(col_s);
            let (ce_i, _ce_j) = self.convert_to_grid_indices(col_e);

            // Gather this column edge's crossings with every row edge.
            let mut intersections: Vec<(usize, usize)> = Vec::new();
            for u in 0..n
                invariant
                    self.wf(),
                    ni == self.spec_resolution(),
                    n == ni,
                    1 <= ni,
                    ni * ni <= usize::MAX,
                    2 * ni <= usize::MAX,
                    c == circuit@,
                    c.len() == 2 * ni + 1,
                    forall|k: int| 0 <= k < c.len() ==> #[trigger] (c[k] as int) < ni * ni,
                    t < n,
                    col_s as int == norm_lo(c[2 * t as int] as int, c[2 * t as int + 1] as int),
                    col_e as int == norm_hi(c[2 * t as int] as int, c[2 * t as int + 1] as int),
                    cs_i as int == row_of(col_s as int, ni),
                    cs_j as int == col_of(col_s as int, ni),
                    ce_i as int == row_of(col_e as int, ni),
                    lifted@ == lift_pre + edge_crossings(c, ni, t as int, u as int),
                    intersections@.len() == edge_crossings(c, ni, t as int, u as int).len(),
                    forall|q: int|
                        0 <= q < intersections@.len() ==> lifted@.contains(
                            #[trigger] intersections@[q].1,
                        ),
            {
                let mut row_s = circuit[2 * u + 1];
                let mut row_e = circuit[2 * u + 2];
                if row_s > row_e {
                    let held = row_s;
                    row_s = row_e;
                    row_e = held;
                }
                proof {
                    lemma_abs_bounds(row_s as int, ni);
                    lemma_abs_bounds(row_e as int, ni);
                }
                let (rs_i, rs_j) = self.convert_to_grid_indices(row_s);
                let (re_i, re_j) = self.convert_to_grid_indices(row_e);

                if cs_j > rs_j && cs_j < re_j && cs_i < rs_i && ce_i > rs_i {
                    let intersect = self.convert_to_absolute_index(rs_i, cs_j);
                    let ghost ints_pre = intersections@;
                    let ghost lifted_at = lifted@;
                    intersections.push((rs_i, intersect));
                    lifted.push(intersect);
                    proof {
                        assert(crossing_cond(c, ni, t as int, u as int));
                        assert(intersect as int == crossing_cell(c, ni, t as int, u as int));
                        assert forall|q: int| 0 <= q < intersections@.len() implies lifted@.contains(
                            #[trigger] intersections@[q].1,
                        ) by {
                            if q < ints_pre.len() {
                                let i = choose|i: int|
                                    0 <= i < lifted_at.len() && lifted_at[i] == ints_pre[q].1;
                                assert(lifted@[i] == intersections@[q].1);
                            } else {
                                assert(lifted@[lifted@.len() - 1] == intersect);
                            }
                        }
                    }
                } else {
                    proof {
                        assert(!crossing_cond(c, ni, t as int, u as int));
                    }
                }
                proof {
                    assert(lifted@ =~= lift_pre + edge_crossings(c, ni, t as int, u as int + 1));
                }
            }

            // Sort the crossings by row, top to bottom, then restore the
            // edge's own traversal order: ascending rows when the edge
            // runs upward, descending otherwise; splicing then reverses
            // the order once more.
            let ghost before_sort = intersections@;
            sort_by_row(&mut intersections);
            proof {
                assert forall|q: int| 0 <= q < intersections@.len() implies lifted@.contains(
                    #[trigger] intersections@[q].1,
                ) by {
                    assert(before_sort.contains(intersections@[q]));
                    let p = choose|p: int|
                        0 <= p < before_sort.len() && before_sort[p] == intersections@[q];
                    assert(lifted@.contains(before_sort[p].1));
                }
            }
            if !oriented_upwards {
                let ghost before_reverse = intersections@;
                reverse_pairs(&mut intersections);
                proof {
                    assert forall|q: int| 0 <= q < intersections@.len() implies lifted@.contains(
                        #[trigger] intersections@[q].1,
                    ) by {
                        assert(before_reverse.contains(intersections@[q]));
                        let p = choose|p: int|
                            0 <= p < before_reverse.len() && before_reverse[p] == intersections@[q];
                        assert(lifted@.contains(before_reverse[p].1));
                    }
                }
            }
            proof {
                // Everything the resolved circuit held still traces back
                // to the base circuit or to the (now longer) lifted list.
                assert forall|x: usize| #[trigger] resolved@.contains(x) implies c.contains(x)
                    || lifted@.contains(x) by {
                    if lift_pre.contains(x) {
                        lemma_contains_prefix(
                            lift_pre,
                            edge_crossings(c, ni, t as int, n as int),
                            x,
                        );
                    }
                }
            }

            // Splice the crossings in right after whichever endpoint of
            // the column edge a forward scan meets first.
            proof {
                assert(c[2 * t as int] == col_s || c[2 * t as int] == col_e);
                assert(c.contains(c[2 * t as int]));
                if c[2 * t as int] == col_s {
                    lemma_subsequence_contains(c, resolved@, col_s);
                } else {
                    lemma_subsequence_contains(c, resolved@, col_e);
                }
                let w = choose|w: int|
                    0 <= w < resolved@.len() && (resolved@[w] == col_s || resolved@[w] == col_e);
            }
            let mut pos: usize = 0;
            while resolved[pos] != col_s && resolved[pos] != col_e
                invariant
                    pos < resolved@.len(),
                    exists|w: int|
                        pos <= w < resolved@.len() && (resolved@[w] == col_s || resolved@[w]
                            == col_e),
                decreases resolved@.len() - pos,
            {
                proof {
                    assert(resolved@.len() <= usize::MAX) by {
                        assert(resolved.len() == resolved@.len());
                    }
                }
                pos = pos + 1;
                proof {
                    let w = choose|w: int|
                        pos - 1 <= w < resolved@.len() && (resolved@[w] == col_s || resolved@[w]
                            == col_e);
                    assert(pos <= w < resolved@.len() && (resolved@[w] == col_s || resolved@[w]
                        == col_e));
                }
            }

            let count = intersections.len();
            for q in 0..count
                invariant
                    c == circuit@,
                    count == intersections@.len(),
                    subsequence_of(c, resolved@),
                    resolved@.len() == res_pre.len() + q,
                    pos < resolved@.len(),
                    forall|p: int|
                        0 <= p < intersections@.len() ==> lifted@.contains(
                            #[trigger] intersections@[p].1,
                        ),
                    forall|x: usize|
                        #[trigger] resolved@.contains(x) ==> c.contains(x) || lifted@.contains(x),
            {
                let cell = intersections[q].1;
                let ghost res_now = resolved@;
                proof {
                    assert(resolved@.len() <= usize::MAX) by {
                        assert(resolved.len() == resolved@.len());
                    }
                    lemma_subsequence_insert(c, resolved@, pos + 1, cell);
                }
                resolved.insert(pos + 1, cell);
                proof {
                    assert forall|x: usize| #[trigger] resolved@.contains(x) implies c.contains(x)
                        || lifted@.contains(x) by {
                        lemma_contains_insert(res_now, pos + 1, cell, x);
                    }
                }
            }
            proof {
                assert(lifted@ =~= all_crossings(c, ni, t as int + 1));
            }
        }
        (resolved, lifted)
    }

    /// Extracts the full topology of the diagram: the resolved circuit and
    /// the lifted crossing cells, ready to be mapped to a space curve.
    /// Succeeds exactly when the diagram's marks trace a single closed
    /// loop.
    pub fn generate_topology(&self) -> (r: Option<(Vec<usize>, Vec<usize>)>)
        requires
            self.wf(),
            self.valid(),
            self.spec_resolution() >= 1,
            self.spec_resolution() * self.spec_resolution() <= usize::MAX,
        ensures
            r is Some <==> single_loop(self.grid()),
            r matches Some(p) ==> exists|base: Seq<usize>|
                {
                    &&& #[trigger] base_circuit_ok(base, self.grid())
                    &&& subsequence_of(base, p.0@)
                    &&& p.0@.len() == base.len() + p.1@.len()
                    &&& p.1@ == all_crossings(base, self.spec_resolution(), self.spec_resolution())
                    &&& forall|x: usize|
                        #[trigger] p.0@.contains(x) ==> base.contains(x) || p.1@.contains(x)
                },
    {
        match self.generate_circuit() {
            Some(circuit) => {
                let ghost base = circuit@;
                let (resolved, lifted) = self.resolve_crossings(&circuit);
                proof {
                    assert(base_circuit_ok(base, self.grid()));
                }
                Some((resolved, lifted))
            },
            None => None,
        }
    }
}

/// A fresh copy of a vector of cell indices.
fn clone_indices(v: &Vec<usize>) -> (r: Vec<usize>)
    ensures
        r@ == v@,
{
    let mut out: Vec<usize> = Vec::new();
    let n = v.len();
    for k in 0..n
        invariant
            n == v@.len(),
            out@ == v@.subrange(0, k as int),
    {
        out.push(v[k]);
        assert(out@ =~= v@.subrange(0, k + 1 as int));
    }
    assert(out@ =~= v@);
    out
}

/// Sorts `(row, cell)` pairs by row, ascending; pairs with equal rows keep
/// their order.
fn sort_by_row(v: &mut Vec<(usize, usize)>)
    ensures
        final(v)@.len() == old(v)@.len(),
        forall|p: int, q: int|
            #![trigger final(v)@[p], final(v)@[q]]
            0 <= p < q < final(v)@.len() ==> final(v)@[p].0 <= final(v)@[q].0,
        forall|q: int| 0 <= q < final(v)@.len() ==> old(v)@.contains(#[trigger] final(v)@[q]),
{
    let n = v.len();
    if n == 0 {
        return ;
    }
    for a in 1..n
        invariant
            n == v@.len(),
            forall|p: int, q: int|
                #![trigger v@[p], v@[q]]
                0 <= p < q < a ==> v@[p].0 <= v@[q].0,
            forall|q: int| 0 <= q < n ==> old(v)@.contains(#[trigger] v@[q]),
    {
        let mut b = a;
        while b > 0 && v[b - 1].0 > v[b].0
            invariant
                b <= a < n,
                n == v@.len(),
                forall|p: int, q: int|
                    #![trigger v@[p], v@[q]]
                    0 <= p < q <= a as int && q != b ==> v@[p].0 <= v@[q].0,
                forall|q: int| 0 <= q < n ==> old(v)@.contains(#[trigger] v@[q]),
            decreases b,
        {
            let ghost pre = v@;
            let lo = v[b - 1];
            let hi = v[b];
            v.set(b - 1, hi);
            v.set(b, lo);
            proof {
                assert forall|q: int| 0 <= q < n implies old(v)@.contains(#[trigger] v@[q]) by {
                    if q == b - 1 {
                        assert(v@[q] == pre[b as int]);
                    } else if q == b as int {
                        assert(v@[q] == pre[b - 1]);
                    } else {
                        assert(v@[q] == pre[q]);
                    }
                }
            }
            b = b - 1;
        }
    }
}

/// Reverses the order of `(row, cell)` pairs.
fn reverse_pairs(v: &mut Vec<(usize, usize)>)
    ensures
        final(v)@.len() == old(v)@.len(),
        forall|p: int|
            0 <= p < final(v)@.len() ==> #[trigger] final(v)@[p] == old(v)@[old(v)@.len() - 1 - p],
        forall|q: int| 0 <= q < final(v)@.len() ==> old(v)@.contains(#[trigger] final(v)@[q]),
{
    let n = v.len();
    let mut out: Vec<(usize, usize)> = Vec::new();
    for k in 0..n
        invariant
            n == v@.len(),
            v@ == old(v)@,
            out@.len() == k,
            forall|p: int| 0 <= p < k ==> #[trigger] out@[p] == v@[n - 1 - p],
    {
        out.push(v[n - 1 - k]);
    }
    *v = out;
    proof {
        assert forall|q: int| 0 <= q < v@.len() implies old(v)@.contains(#[trigger] v@[q]) by {
            assert(v@[q] == old(v)@[v@.len() - 1 - q]);
        }
    }
}

} // verus!
