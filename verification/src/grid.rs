//! The mathematical model of a grid diagram: a square matrix of cell
//! markers, with exactly one over-mark and one under-mark in every row and
//! every column.  The spec functions here describe grids and the whole-grid
//! transformations that the Cromwell moves perform; the lemmas show that
//! each transformation preserves the one-mark-per-line invariant.

use vstd::prelude::*;

verus! {

/// The over-mark: the strand that passes over at a crossing.
pub const OVER_MARK: char = 'x';

/// The under-mark: the strand that passes under at a crossing.
pub const UNDER_MARK: char = 'o';

/// The blank cell.
pub const EMPTY_MARK: char = ' ';

/// A cell is a mark when it carries the over- or the under-marker; any
/// other character counts as blank.
pub open spec fn is_mark(c: char) -> bool {
    c == OVER_MARK || c == UNDER_MARK
}

/// How many cells of the line carry the marker `c`.
pub open spec fn count_marker(line: Seq<char>, c: char) -> int
    decreases line.len(),
{
    if line.len() == 0 {
        0
    } else {
        count_marker(line.drop_last(), c) + if line.last() == c { 1int } else { 0int }
    }
}

/// A line (row or column) is legal when it carries exactly one over-mark
/// and exactly one under-mark.
pub open spec fn line_ok(line: Seq<char>) -> bool {
    count_marker(line, OVER_MARK) == 1 && count_marker(line, UNDER_MARK) == 1
}

/// Every row of the matrix is as long as the matrix is tall.
pub open spec fn is_square(m: Seq<Seq<char>>) -> bool {
    forall|i: int| 0 <= i < m.len() ==> #[trigger] m[i].len() == m.len()
}

/// The `j`th column of the matrix, read top to bottom.
pub open spec fn column(m: Seq<Seq<char>>, j: int) -> Seq<char> {
    Seq::new(m.len(), |i: int| m[i][j])
}

/// A valid grid diagram: square, with every row and every column legal.
pub open spec fn valid_grid(m: Seq<Seq<char>>) -> bool {
    &&& is_square(m)
    &&& forall|i: int| 0 <= i < m.len() ==> line_ok(#[trigger] m[i])
    &&& forall|j: int| 0 <= j < m.len() ==> line_ok(#[trigger] column(m, j))
}

/// Counting a marker distributes over concatenation.
pub proof fn lemma_count_append(s1: Seq<char>, s2: Seq<char>, c: char)
    ensures
        count_marker(s1 + s2, c) == count_marker(s1, c) + count_marker(s2, c),
    decreases s2.len(),
{
    if s2.len() == 0 {
        assert(s1 + s2 =~= s1);
    } else {
        assert((s1 + s2).drop_last() =~= s1 + s2.drop_last());
        lemma_count_append(s1, s2.drop_last(), c);
    }
}

/// Counting a marker over a single-cell line.
pub proof fn lemma_count_singleton(v: char, c: char)
    ensures
        count_marker(seq![v], c) == if v == c { 1int } else { 0int },
{
    let s = seq![v];
    assert(s.last() == v);
    assert(s.drop_last() =~= Seq::<char>::empty());
    assert(count_marker(s.drop_last(), c) == 0);
}

/// How overwriting one cell changes a marker's count.
pub proof fn lemma_count_update(line: Seq<char>, k: int, v: char, c: char)
    requires
        0 <= k < line.len(),
    ensures
        count_marker(line.update(k, v), c) == count_marker(line, c)
            - (if line[k] == c { 1int } else { 0int })
            + (if v == c { 1int } else { 0int }),
    decreases line.len(),
{
    if k == line.len() - 1 {
        assert(line.update(k, v).drop_last() =~= line.drop_last());
        assert(line.update(k, v).last() == v);
    } else {
        assert(line.update(k, v).drop_last() =~= line.drop_last().update(k, v));
        assert(line.update(k, v).last() == line.last());
        lemma_count_update(line.drop_last(), k, v, c);
    }
}

/// A marker's count never exceeds the line's length.
pub proof fn lemma_count_le_len(line: Seq<char>, c: char)
    ensures
        0 <= count_marker(line, c) <= line.len(),
    decreases line.len(),
{
    if line.len() > 0 {
        lemma_count_le_len(line.drop_last(), c);
    }
}

/// Counting one more cell of the line adds one exactly when that cell
/// carries the marker.
pub proof fn lemma_count_take_step(line: Seq<char>, k: int, c: char)
    requires
        0 <= k < line.len(),
    ensures
        count_marker(line.take(k + 1), c) == count_marker(line.take(k), c) + if line[k] == c {
            1int
        } else {
            0int
        },
{
    assert(line.take(k + 1).drop_last() =~= line.take(k));
    assert(line.take(k + 1).last() == line[k]);
}

/// A line that carries the marker `c` somewhere counts it at least once.
pub proof fn lemma_count_at_least_one(line: Seq<char>, k: int, c: char)
    requires
        0 <= k < line.len(),
        line[k] == c,
    ensures
        count_marker(line, c) >= 1,
    decreases line.len(),
{
    if k == line.len() - 1 {
        lemma_count_le_len(line.drop_last(), c);
    } else {
        lemma_count_at_least_one(line.drop_last(), k, c);
    }
}

/// A line whose count of `c` is positive carries `c` somewhere.
pub proof fn lemma_count_one_exists(line: Seq<char>, c: char)
    requires
        count_marker(line, c) >= 1,
    ensures
        exists|k: int| 0 <= k < line.len() && line[k] == c,
    decreases line.len(),
{
    if line.last() == c {
        assert(line[line.len() - 1] == c);
    } else {
        lemma_count_one_exists(line.drop_last(), c);
        let k = choose|k: int| 0 <= k < line.drop_last().len() && line.drop_last()[k] == c;
        assert(line[k] == c);
    }
}

/// A line that counts `c` exactly once carries it at one position only.
pub proof fn lemma_count_one_unique(line: Seq<char>, k1: int, k2: int, c: char)
    requires
        count_marker(line, c) == 1,
        0 <= k1 < line.len(),
        0 <= k2 < line.len(),
        line[k1] == c,
        line[k2] == c,
    ensures
        k1 == k2,
    decreases line.len(),
{
    if k1 != k2 {
        let front = line.drop_last();
        if k1 == line.len() - 1 {
            lemma_count_at_least_one(front, k2, c);
        } else if k2 == line.len() - 1 {
            lemma_count_at_least_one(front, k1, c);
        } else {
            lemma_count_le_len(front, c);
            if line.last() == c {
                lemma_count_at_least_one(front, k1, c);
            } else {
                lemma_count_one_unique(front, k1, k2, c);
            }
        }
    }
}

/// The position of the marker `c` in a line that carries it exactly once.
pub open spec fn marker_pos(line: Seq<char>, c: char) -> int {
    choose|k: int| 0 <= k < line.len() && line[k] == c
}

/// Whether two legal lines are interleaved: each line's two marks span an
/// interval, and the lines interleave unless one interval is strictly
/// contained in the other, or the intervals are disjoint.
pub open spec fn interleaved(a: Seq<char>, b: Seq<char>) -> bool {
    let ax = marker_pos(a, OVER_MARK);
    let ao = marker_pos(a, UNDER_MARK);
    let bx = marker_pos(b, OVER_MARK);
    let bo = marker_pos(b, UNDER_MARK);
    let a0 = if ax <= ao {
        ax
    } else {
        ao
    };
    let a1 = if ax <= ao {
        ao
    } else {
        ax
    };
    let b0 = if bx <= bo {
        bx
    } else {
        bo
    };
    let b1 = if bx <= bo {
        bo
    } else {
        bx
    };
    !((b0 < a0 && a1 < b1) || (a0 < b0 && b1 < a1) || a1 < b0 || b1 < a0)
}

/// Swapping the cells at `a` and `b` leaves every marker's count unchanged.
pub proof fn lemma_count_swap(s: Seq<char>, a: int, b: int, c: char)
    requires
        0 <= a < s.len(),
        0 <= b < s.len(),
    ensures
        count_marker(s.update(a, s[b]).update(b, s[a]), c) == count_marker(s, c),
{
    if a == b {
        assert(s.update(a, s[b]).update(b, s[a]) =~= s);
    } else {
        lemma_count_update(s, a, s[b], c);
        lemma_count_update(s.update(a, s[b]), b, s[a], c);
    }
}

/// A cyclic rotation that carries the first entry to the end.
pub open spec fn rotate_fwd<T>(s: Seq<T>) -> Seq<T> {
    if s.len() == 0 {
        s
    } else {
        s.subrange(1, s.len() as int) + seq![s[0]]
    }
}

/// A cyclic rotation that carries the last entry to the front.
pub open spec fn rotate_back<T>(s: Seq<T>) -> Seq<T> {
    if s.len() == 0 {
        s
    } else {
        seq![s.last()] + s.drop_last()
    }
}

/// The two cyclic rotations are mutually inverse.
pub proof fn lemma_rotate_inverse<T>(s: Seq<T>)
    ensures
        rotate_back(rotate_fwd(s)) == s,
        rotate_fwd(rotate_back(s)) == s,
{
    assert(rotate_back(rotate_fwd(s)) =~= s);
    assert(rotate_fwd(rotate_back(s)) =~= s);
}

/// Rotating a line leaves every marker's count unchanged.
pub proof fn lemma_count_rotate(s: Seq<char>, c: char)
    ensures
        count_marker(rotate_fwd(s), c) == count_marker(s, c),
        count_marker(rotate_back(s), c) == count_marker(s, c),
{
    if s.len() > 0 {
        let head = seq![s[0]];
        let tail = s.subrange(1, s.len() as int);
        lemma_count_append(tail, head, c);
        lemma_count_append(head, tail, c);
        lemma_count_singleton(s[0], c);
        assert(head + tail =~= s);
        let lastv = seq![s.last()];
        let front = s.drop_last();
        lemma_count_append(lastv, front, c);
        lemma_count_append(front, lastv, c);
        lemma_count_singleton(s.last(), c);
        assert(front + lastv =~= s);
    }
}

/// The whole grid after a translation move: rows rotate for up and down,
/// the cells of every row rotate for left and right.
pub open spec fn rotate_rows_up(m: Seq<Seq<char>>) -> Seq<Seq<char>> {
    rotate_fwd(m)
}

/// See `rotate_rows_up`.
pub open spec fn rotate_rows_down(m: Seq<Seq<char>>) -> Seq<Seq<char>> {
    rotate_back(m)
}

/// See `rotate_rows_up`.
pub open spec fn rotate_cols_left(m: Seq<Seq<char>>) -> Seq<Seq<char>> {
    m.map_values(|r: Seq<char>| rotate_fwd(r))
}

/// See `rotate_rows_up`.
pub open spec fn rotate_cols_right(m: Seq<Seq<char>>) -> Seq<Seq<char>> {
    m.map_values(|r: Seq<char>| rotate_back(r))
}

/// Translation is a bijection on grids: a translation followed by the
/// opposite translation restores the grid exactly.
pub proof fn lemma_translation_round_trip(m: Seq<Seq<char>>)
    ensures
        rotate_rows_down(rotate_rows_up(m)) == m,
        rotate_rows_up(rotate_rows_down(m)) == m,
        rotate_cols_right(rotate_cols_left(m)) == m,
        rotate_cols_left(rotate_cols_right(m)) == m,
{
    lemma_rotate_inverse(m);
    assert forall|i: int| 0 <= i < m.len() implies #[trigger] rotate_cols_right(
        rotate_cols_left(m),
    )[i] == m[i] by {
        lemma_rotate_inverse(m[i]);
    }
    assert(rotate_cols_right(rotate_cols_left(m)) =~= m);
    assert forall|i: int| 0 <= i < m.len() implies #[trigger] rotate_cols_left(
        rotate_cols_right(m),
    )[i] == m[i] by {
        lemma_rotate_inverse(m[i]);
    }
    assert(rotate_cols_left(rotate_cols_right(m)) =~= m);
}

/// Rotating the rows of a grid preserves validity: the rows themselves are
/// merely permuted, and every column is rotated as a line.
pub proof fn lemma_rotate_rows_valid(m: Seq<Seq<char>>)
    requires
        valid_grid(m),
    ensures
        valid_grid(rotate_rows_up(m)),
        valid_grid(rotate_rows_down(m)),
{
    let up = rotate_rows_up(m);
    let down = rotate_rows_down(m);
    assert forall|j: int| 0 <= j < up.len() implies line_ok(#[trigger] column(up, j)) by {
        assert(column(up, j) =~= rotate_fwd(column(m, j)));
        lemma_count_rotate(column(m, j), OVER_MARK);
        lemma_count_rotate(column(m, j), UNDER_MARK);
    }
    assert forall|j: int| 0 <= j < down.len() implies line_ok(#[trigger] column(down, j)) by {
        assert(column(down, j) =~= rotate_back(column(m, j)));
        lemma_count_rotate(column(m, j), OVER_MARK);
        lemma_count_rotate(column(m, j), UNDER_MARK);
    }
}

/// Rotating the cells of every row preserves validity: every row is rotated
/// as a line, and the columns are merely permuted.
pub proof fn lemma_rotate_cols_valid(m: Seq<Seq<char>>)
    requires
        valid_grid(m),
    ensures
        valid_grid(rotate_cols_left(m)),
        valid_grid(rotate_cols_right(m)),
{
    let n = m.len() as int;
    let left = rotate_cols_left(m);
    let right = rotate_cols_right(m);
    assert forall|i: int| 0 <= i < n implies line_ok(#[trigger] left[i]) && left[i].len() == n by {
        lemma_count_rotate(m[i], OVER_MARK);
        lemma_count_rotate(m[i], UNDER_MARK);
        assert(rotate_fwd(m[i]).len() == m[i].len());
    }
    assert forall|i: int| 0 <= i < n implies line_ok(#[trigger] right[i]) && right[i].len()
        == n by {
        lemma_count_rotate(m[i], OVER_MARK);
        lemma_count_rotate(m[i], UNDER_MARK);
        assert(rotate_back(m[i]).len() == m[i].len());
    }
    assert(is_square(left));
    assert(is_square(right));
    assert forall|j: int| 0 <= j < n implies line_ok(#[trigger] column(left, j)) by {
        if j < n - 1 {
            assert(column(left, j) =~= column(m, j + 1));
        } else {
            assert(column(left, j) =~= column(m, 0));
        }
    }
    assert forall|j: int| 0 <= j < n implies line_ok(#[trigger] column(right, j)) by {
        if j == 0 {
            assert(column(right, j) =~= column(m, n - 1));
        } else {
            assert(column(right, j) =~= column(m, j - 1));
        }
    }
}

/// The grid with the whole lines `a` and `b` exchanged along the given
/// axis: rows for `swap_rows`, columns for `swap_cols`.
pub open spec fn swap_rows(m: Seq<Seq<char>>, a: int, b: int) -> Seq<Seq<char>> {
    m.update(a, m[b]).update(b, m[a])
}

/// See `swap_rows`.
pub open spec fn swap_cols(m: Seq<Seq<char>>, a: int, b: int) -> Seq<Seq<char>> {
    Seq::new(m.len(), |i: int| m[i].update(a, m[i][b]).update(b, m[i][a]))
}

/// Exchanging two whole rows preserves validity: the rows are permuted, and
/// each column has two of its cells swapped.
pub proof fn lemma_swap_rows_valid(m: Seq<Seq<char>>, a: int, b: int)
    requires
        valid_grid(m),
        0 <= a < m.len(),
        0 <= b < m.len(),
    ensures
        valid_grid(swap_rows(m, a, b)),
{
    let sw = swap_rows(m, a, b);
    assert forall|j: int| 0 <= j < sw.len() implies line_ok(#[trigger] column(sw, j)) by {
        let s = column(m, j);
        assert(column(sw, j) =~= s.update(a, s[b]).update(b, s[a]));
        lemma_count_swap(s, a, b, OVER_MARK);
        lemma_count_swap(s, a, b, UNDER_MARK);
    }
}

/// Exchanging two whole columns preserves validity: each row has two of its
/// cells swapped, and the columns are permuted.
pub proof fn lemma_swap_cols_valid(m: Seq<Seq<char>>, a: int, b: int)
    requires
        valid_grid(m),
        0 <= a < m.len(),
        0 <= b < m.len(),
    ensures
        valid_grid(swap_cols(m, a, b)),
{
    let n = m.len() as int;
    let sw = swap_cols(m, a, b);
    assert forall|i: int| 0 <= i < n implies line_ok(#[trigger] sw[i]) by {
        lemma_count_swap(m[i], a, b, OVER_MARK);
        lemma_count_swap(m[i], a, b, UNDER_MARK);
    }
    assert forall|j: int| 0 <= j < n implies line_ok(#[trigger] column(sw, j)) by {
        if j == a && j == b {
            assert(column(sw, j) =~= column(m, j));
        } else if j == a {
            assert(column(sw, j) =~= column(m, b));
        } else if j == b {
            assert(column(sw, j) =~= column(m, a));
        } else {
            assert(column(sw, j) =~= column(m, j));
        }
    }
}

/// A sequence with one entry spliced in; the entries at and after `k` move
/// one place toward the end.
pub open spec fn splice<T>(s: Seq<T>, k: int, v: T) -> Seq<T> {
    s.subrange(0, k) + seq![v] + s.subrange(k, s.len() as int)
}

/// How splicing one cell in changes a marker's count.
pub proof fn lemma_count_splice(line: Seq<char>, k: int, v: char, c: char)
    requires
        0 <= k <= line.len(),
    ensures
        count_marker(splice(line, k, v), c) == count_marker(line, c)
            + (if v == c { 1int } else { 0int }),
{
    lemma_count_append(line.subrange(0, k) + seq![v], line.subrange(k, line.len() as int), c);
    lemma_count_append(line.subrange(0, k), seq![v], c);
    lemma_count_singleton(v, c);
    lemma_count_append(line.subrange(0, k), line.subrange(k, line.len() as int), c);
    assert(line.subrange(0, k) + line.subrange(k, line.len() as int) =~= line);
}

/// A row of `len` blank cells.
pub open spec fn blank_row(len: nat) -> Seq<char> {
    Seq::new(len, |k: int| EMPTY_MARK)
}

/// A blank row carries no marker at all.
pub proof fn lemma_count_blank_row(len: nat, c: char)
    requires
        c != EMPTY_MARK,
    ensures
        count_marker(blank_row(len), c) == 0,
    decreases len,
{
    if len > 0 {
        assert(blank_row(len).drop_last() =~= blank_row((len - 1) as nat));
        lemma_count_blank_row((len - 1) as nat, c);
    }
}

/// The grid after a stabilization at the over-mark in cell `(i, j)`.  A
/// blank column is spliced in at `jc` (`j` or `j + 1`, by the requested
/// corner) and a new row at `ir` (`i` or `i + 1`).  In row `i` the original
/// over-mark moves into the new column; the new row carries an over-mark
/// under the surviving copy of column `j` and an under-mark under the new
/// column, so the replaced mark becomes a two-by-two block of one
/// over-mark and one under-mark.
pub open spec fn stabilized(m: Seq<Seq<char>>, i: int, j: int, ir: int, jc: int) -> Seq<
    Seq<char>,
> {
    let other = if jc == j {
        j + 1
    } else {
        j
    };
    let with_col = m.map_values(|r: Seq<char>| splice(r, jc, EMPTY_MARK));
    let row_i = splice(m[i], jc, EMPTY_MARK).update(other, EMPTY_MARK).update(jc, OVER_MARK);
    let extra = blank_row((m.len() + 1) as nat).update(other, OVER_MARK).update(jc, UNDER_MARK);
    splice(with_col.update(i, row_i), ir, extra)
}

/// Stabilization raises the resolution by one and preserves the
/// one-mark-per-line invariant.
pub proof fn lemma_stabilized_valid(m: Seq<Seq<char>>, i: int, j: int, ir: int, jc: int)
    requires
        valid_grid(m),
        0 <= i < m.len(),
        0 <= j < m.len(),
        m[i][j] == OVER_MARK,
        ir == i || ir == i + 1,
        jc == j || jc == j + 1,
    ensures
        stabilized(m, i, j, ir, jc).len() == m.len() + 1,
        valid_grid(stabilized(m, i, j, ir, jc)),
{
    let n = m.len() as int;
    let other = if jc == j {
        j + 1
    } else {
        j
    };
    let with_col = m.map_values(|r: Seq<char>| splice(r, jc, EMPTY_MARK));
    let row_i = splice(m[i], jc, EMPTY_MARK).update(other, EMPTY_MARK).update(jc, OVER_MARK);
    let extra = blank_row((n + 1) as nat).update(other, OVER_MARK).update(jc, UNDER_MARK);
    let mid = with_col.update(i, row_i);
    let st = stabilized(m, i, j, ir, jc);
    assert(st == splice(mid, ir, extra));
    assert(st.len() == n + 1);

    // Every row of the new grid is legal and has the new width.
    assert forall|r: int| 0 <= r < n + 1 implies #[trigger] st[r].len() == n + 1 && line_ok(
        st[r],
    ) by {
        lemma_count_blank_row((n + 1) as nat, OVER_MARK);
        lemma_count_blank_row((n + 1) as nat, UNDER_MARK);
        lemma_count_update(blank_row((n + 1) as nat), other, OVER_MARK, OVER_MARK);
        lemma_count_update(blank_row((n + 1) as nat), other, OVER_MARK, UNDER_MARK);
        lemma_count_update(blank_row((n + 1) as nat).update(other, OVER_MARK), jc, UNDER_MARK, OVER_MARK);
        lemma_count_update(blank_row((n + 1) as nat).update(other, OVER_MARK), jc, UNDER_MARK, UNDER_MARK);
        assert(line_ok(extra));
        let old_row = if r < ir {
            r
        } else {
            r - 1
        };
        if r == ir {
            assert(st[r] == extra);
        } else {
            assert(st[r] == mid[old_row]);
            if old_row == i {
                let sp = splice(m[i], jc, EMPTY_MARK);
                lemma_count_splice(m[i], jc, EMPTY_MARK, OVER_MARK);
                lemma_count_splice(m[i], jc, EMPTY_MARK, UNDER_MARK);
                assert(sp[other] == m[i][j]);
                assert(sp[jc] == EMPTY_MARK);
                lemma_count_update(sp, other, EMPTY_MARK, OVER_MARK);
                lemma_count_update(sp, other, EMPTY_MARK, UNDER_MARK);
                lemma_count_update(sp.update(other, EMPTY_MARK), jc, OVER_MARK, OVER_MARK);
                lemma_count_update(sp.update(other, EMPTY_MARK), jc, OVER_MARK, UNDER_MARK);
                assert(line_ok(row_i));
            } else {
                lemma_count_splice(m[old_row], jc, EMPTY_MARK, OVER_MARK);
                lemma_count_splice(m[old_row], jc, EMPTY_MARK, UNDER_MARK);
            }
        }
    }

    // Every column of the new grid is legal.
    assert forall|cx: int| 0 <= cx < n + 1 implies line_ok(#[trigger] column(st, cx)) by {
        // The new column is the old one (or blank, for `jc`) with row `i`
        // rewritten and the new row's cell spliced in at `ir`.
        let base = if cx == jc {
            blank_row(n as nat)
        } else if cx < jc {
            column(m, cx)
        } else {
            column(m, cx - 1)
        };
        assert(column(st, cx) =~= splice(base.update(i, row_i[cx]), ir, extra[cx]));
        if cx == jc {
            lemma_count_blank_row(n as nat, OVER_MARK);
            lemma_count_blank_row(n as nat, UNDER_MARK);
            assert(row_i[cx] == OVER_MARK);
            assert(extra[cx] == UNDER_MARK);
            lemma_count_update(base, i, OVER_MARK, OVER_MARK);
            lemma_count_update(base, i, OVER_MARK, UNDER_MARK);
            lemma_count_splice(base.update(i, OVER_MARK), ir, UNDER_MARK, OVER_MARK);
            lemma_count_splice(base.update(i, OVER_MARK), ir, UNDER_MARK, UNDER_MARK);
        } else if cx == other {
            assert(base == column(m, j));
            assert(base[i] == m[i][j]);
            assert(row_i[cx] == EMPTY_MARK);
            assert(extra[cx] == OVER_MARK);
            lemma_count_update(base, i, EMPTY_MARK, OVER_MARK);
            lemma_count_update(base, i, EMPTY_MARK, UNDER_MARK);
            lemma_count_splice(base.update(i, EMPTY_MARK), ir, OVER_MARK, OVER_MARK);
            lemma_count_splice(base.update(i, EMPTY_MARK), ir, OVER_MARK, UNDER_MARK);
        } else {
            let oldc = if cx < jc {
                cx
            } else {
                cx - 1
            };
            assert(row_i[cx] == splice(m[i], jc, EMPTY_MARK)[cx]);
            assert(row_i[cx] == m[i][oldc]);
            assert(base[i] == m[i][oldc]);
            assert(base.update(i, row_i[cx]) =~= base);
            assert(extra[cx] == EMPTY_MARK);
            lemma_count_splice(base, ir, EMPTY_MARK, OVER_MARK);
            lemma_count_splice(base, ir, EMPTY_MARK, UNDER_MARK);
        }
    }
    assert(is_square(st));
}

/// Where an index of the old grid lands after a line is inserted at `at`:
/// indices before the insertion point stay, the rest move one place on.
pub open spec fn shifted(k: int, at: int) -> int {
    if k < at {
        k
    } else {
        k + 1
    }
}

/// Outside the two-by-two insertion block, stabilization moves every cell
/// of the old grid to its shifted position and changes nothing else: rows
/// at or below `ir` move down by one, columns at or right of `jc` move
/// right by one.
pub proof fn lemma_stabilized_preserves_cells(m: Seq<Seq<char>>, i: int, j: int, ir: int, jc: int)
    requires
        is_square(m),
        0 <= i < m.len(),
        0 <= j < m.len(),
        ir == i || ir == i + 1,
        jc == j || jc == j + 1,
    ensures
        forall|r: int, c: int|
            0 <= r < m.len() && 0 <= c < m.len() && !(r == i && c == j)
                ==> #[trigger] stabilized(m, i, j, ir, jc)[shifted(r, ir)][shifted(c, jc)]
                == m[r][c],
{
    let st = stabilized(m, i, j, ir, jc);
    let other = if jc == j {
        j + 1
    } else {
        j
    };
    assert forall|r: int, c: int|
        0 <= r < m.len() && 0 <= c < m.len() && !(r == i && c == j) implies #[trigger] st[shifted(
        r,
        ir,
    )][shifted(c, jc)] == m[r][c] by {
        let rr = shifted(r, ir);
        let cc = shifted(c, jc);
        let row_i = splice(m[i], jc, EMPTY_MARK).update(other, EMPTY_MARK).update(jc, OVER_MARK);
        assert(rr != ir);
        assert(cc != jc);
        if r == i {
            assert(st[rr] == row_i);
            assert(cc != other);
            assert(row_i[cc] == splice(m[i], jc, EMPTY_MARK)[cc]);
            assert(row_i[cc] == m[i][c]);
        } else {
            assert(st[rr] == splice(m[r], jc, EMPTY_MARK));
            assert(st[rr][cc] == m[r][c]);
        }
    }
}

} // verus!
