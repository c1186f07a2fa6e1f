//! The n-queens puzzle: ray legality checks, whole-board legality, the
//! solution predicate, and a backtracking placement that restores the board
//! exactly when it fails.

use vstd::prelude::*;

verus! {

/// A square board of side `n` with one character per square.
pub open spec fn board_ok(b: Seq<Vec<char>>, n: int) -> bool {
    b.len() == n && forall|r: int| 0 <= r < n ==> (#[trigger] b[r])@.len() == n
}

/// How many steps a ray can still take before leaving an `n`-board,
/// judged by whichever coordinate is moving.
pub open spec fn ray_steps(n: int, r: int, c: int, dr: int, dc: int) -> int {
    let raw = if dr > 0 {
        n - r
    } else if dr < 0 {
        r + 1
    } else if dc > 0 {
        n - c
    } else {
        c + 1
    };
    if raw >= 0 {
        raw
    } else {
        0
    }
}

/// The number of queens on the ray from `(r, c)` in direction `(dr, dc)`,
/// walked until it leaves the board.
pub open spec fn ray_queens(b: Seq<Vec<char>>, n: int, r: int, c: int, dr: int, dc: int) -> int
    decreases ray_steps(n, r, c, dr, dc),
        when dr != 0 || dc != 0
{
    if !(0 <= r < n && 0 <= c < n) {
        0
    } else {
        (if b[r]@[c] == 'Q' {
            1int
        } else {
            0int
        }) + ray_queens(b, n, r + dr, c + dc, dr, dc)
    }
}

/// A ray never counts negatively.
pub proof fn lemma_ray_nonneg(b: Seq<Vec<char>>, n: int, r: int, c: int, dr: int, dc: int)
    requires
        dr != 0 || dc != 0,
    ensures
        0 <= ray_queens(b, n, r, c, dr, dc),
    decreases ray_steps(n, r, c, dr, dc),
{
    if 0 <= r < n && 0 <= c < n {
        lemma_ray_nonneg(b, n, r + dr, c + dc, dr, dc);
    }
}

/// The queens on the left-leaning diagonal that starts at the right edge
/// of row `r`.
pub open spec fn left_diag_queens(b: Seq<Vec<char>>, n: int, r: int) -> int {
    ray_queens(b, n, r, n - 1, 1, -1)
}

/// The queens on the left-leaning diagonal that starts at the top of
/// column `c`.
pub open spec fn down_left_queens(b: Seq<Vec<char>>, n: int, c: int) -> int {
    ray_queens(b, n, 0, c, 1, -1)
}

/// Legality of a board: every row, every column, and every diagonal in
/// both orientations carries at most one queen.
pub open spec fn board_legal(b: Seq<Vec<char>>, n: int) -> bool {
    &&& forall|r: int| 0 <= r < n ==> ray_queens(b, n, r, 0, 0, 1) <= 1
    &&& forall|c: int| 0 <= c < n ==> ray_queens(b, n, 0, c, 1, 0) <= 1
    &&& forall|r: int| 0 <= r < n ==> ray_queens(b, n, r, 0, 1, 1) <= 1
    &&& forall|c: int| 0 <= c < n ==> ray_queens(b, n, 0, c, 1, 1) <= 1
    &&& forall|r: int| 0 <= r < n ==> left_diag_queens(b, n, r) <= 1
    &&& forall|c: int| 0 <= c < n ==> down_left_queens(b, n, c) <= 1
}

/// Queens in the first `j` squares of one row.
pub open spec fn row_queens(row: Seq<char>, j: int) -> int
    decreases j,
{
    if j <= 0 {
        0
    } else {
        row_queens(row, j - 1) + (if row[j - 1] == 'Q' {
            1int
        } else {
            0int
        })
    }
}

/// Queens in the first `i` rows of the board.
pub open spec fn total_queens(b: Seq<Vec<char>>, i: int, n: int) -> int
    decreases i,
{
    if i <= 0 {
        0
    } else {
        total_queens(b, i - 1, n) + row_queens(b[i - 1]@, n)
    }
}

/// Queens in column `cq` among the first `i` rows.
pub open spec fn col_prefix_queens(b: Seq<Vec<char>>, cq: int, i: int) -> int
    decreases i,
{
    if i <= 0 {
        0
    } else {
        col_prefix_queens(b, cq, i - 1) + (if b[i - 1]@[cq] == 'Q' {
            1int
        } else {
            0int
        })
    }
}

/// Queens in the first `k` columns, counted column by column.
pub open spec fn cols_total(b: Seq<Vec<char>>, n: int, k: int) -> int
    decreases k,
{
    if k <= 0 {
        0
    } else {
        cols_total(b, n, k - 1) + ray_queens(b, n, 0, k - 1, 1, 0)
    }
}

/// A column's ray count is its prefix count over all rows.
proof fn lemma_col_split(b: Seq<Vec<char>>, n: int, cq: int, i: int)
    requires
        0 <= i <= n,
        b.len() == n,
        0 <= cq < n,
    ensures
        col_prefix_queens(b, cq, i) + ray_queens(b, n, i, cq, 1, 0) == ray_queens(
            b,
            n,
            0,
            cq,
            1,
            0,
        ),
    decreases i,
{
    if i > 0 {
        lemma_col_split(b, n, cq, i - 1);
        assert(ray_queens(b, n, i - 1, cq, 1, 0) == (if b[i - 1]@[cq] == 'Q' {
            1int
        } else {
            0int
        }) + ray_queens(b, n, i, cq, 1, 0));
    }
}

/// An empty column prefix counts nothing; rows up to column zero count
/// nothing.
proof fn lemma_total_zero(b: Seq<Vec<char>>, i: int, n: int)
    ensures
        total_queens_upto(b, i, 0) == 0,
    decreases i,
{
    if i > 0 {
        lemma_total_zero(b, i - 1, n);
    }
}

/// Queens in the first `i` rows, counting only the first `k` squares of
/// each row.
pub open spec fn total_queens_upto(b: Seq<Vec<char>>, i: int, k: int) -> int
    decreases i,
{
    if i <= 0 {
        0
    } else {
        total_queens_upto(b, i - 1, k) + row_queens(b[i - 1]@, k)
    }
}

/// Widening the per-row window by one column adds exactly that column's
/// queens.
proof fn lemma_total_col_step(b: Seq<Vec<char>>, i: int, k: int)
    requires
        1 <= k,
    ensures
        total_queens_upto(b, i, k) == total_queens_upto(b, i, k - 1) + col_prefix_queens(
            b,
            k - 1,
            i,
        ),
    decreases i,
{
    if i > 0 {
        lemma_total_col_step(b, i - 1, k);
        assert(row_queens(b[i - 1]@, k) == row_queens(b[i - 1]@, k - 1) + (if b[i - 1]@[k - 1]
            == 'Q' {
            1int
        } else {
            0int
        }));
    }
}

/// Double counting: summing the columns gives the same total as summing
/// the rows.
proof fn lemma_row_col_swap(b: Seq<Vec<char>>, n: int, k: int)
    requires
        b.len() == n,
        0 <= k <= n,
    ensures
        cols_total(b, n, k) == total_queens_upto(b, n, k),
    decreases k,
{
    if k == 0 {
        lemma_total_zero(b, n, n);
    } else {
        lemma_row_col_swap(b, n, k - 1);
        lemma_total_col_step(b, n, k);
        lemma_col_split(b, n, k - 1, n);
        assert(ray_queens(b, n, n, k - 1, 1, 0) == 0);
    }
}

/// The row totals agree with `total_queens` over full rows.
proof fn lemma_total_upto_full(b: Seq<Vec<char>>, i: int, n: int)
    ensures
        total_queens_upto(b, i, n) == total_queens(b, i, n),
    decreases i,
{
    if i > 0 {
        lemma_total_upto_full(b, i - 1, n);
    }
}

/// With at most one queen per column and `n` queens on an `n`-board, every
/// column carries exactly one.
proof fn lemma_column_pigeonhole(b: Seq<Vec<char>>, n: int, k: int)
    requires
        b.len() == n,
        0 <= k <= n,
        forall|cq: int| 0 <= cq < n ==> ray_queens(b, n, 0, cq, 1, 0) <= 1,
    ensures
        cols_total(b, n, k) <= k,
        (exists|cq: int| 0 <= cq < k && #[trigger] ray_queens(b, n, 0, cq, 1, 0) <= 0)
            ==> cols_total(b, n, k) <= k - 1,
    decreases k,
{
    if k > 0 {
        lemma_column_pigeonhole(b, n, k - 1);
        if exists|cq: int| 0 <= cq < k && #[trigger] ray_queens(b, n, 0, cq, 1, 0) <= 0 {
            let cq = choose|cq: int| 0 <= cq < k && #[trigger] ray_queens(b, n, 0, cq, 1, 0)
                <= 0;
            if cq == k - 1 {
            } else {
                assert(exists|c2: int|
                    0 <= c2 < k - 1 && #[trigger] ray_queens(b, n, 0, c2, 1, 0) <= 0);
            }
        }
    }
}

/// A positive column prefix exhibits a queen.
proof fn lemma_col_witness(b: Seq<Vec<char>>, cq: int, i: int)
    requires
        0 < col_prefix_queens(b, cq, i),
    ensures
        exists|rr: int| 0 <= rr < i && (#[trigger] b[rr]@[cq]) == 'Q',
    decreases i,
{
    if i > 0 {
        if b[i - 1]@[cq] == 'Q' {
            assert(0 <= i - 1 < i && b[i - 1]@[cq] == 'Q');
        } else {
            lemma_col_witness(b, cq, i - 1);
        }
    }
}

/// Two queens in one column push its count to two.
proof fn lemma_col_two_queens(b: Seq<Vec<char>>, n: int, cq: int, r1: int, r2: int)
    requires
        b.len() == n,
        0 <= cq < n,
        0 <= r1 < r2 < n,
        b[r1]@[cq] == 'Q',
        b[r2]@[cq] == 'Q',
    ensures
        2 <= ray_queens(b, n, 0, cq, 1, 0),
{
    lemma_col_prefix_monotone(b, cq, r1 + 1, r2);
    lemma_col_prefix_nonneg(b, cq, r1);
    lemma_col_split(b, n, cq, n);
    lemma_col_prefix_monotone(b, cq, r2 + 1, n);
    lemma_ray_nonneg(b, n, n, cq, 1, 0);
}

/// Column prefixes never shrink as the prefix grows.
proof fn lemma_col_prefix_monotone(b: Seq<Vec<char>>, cq: int, i: int, j: int)
    requires
        i <= j,
    ensures
        col_prefix_queens(b, cq, i) <= col_prefix_queens(b, cq, j),
    decreases j - i,
{
    if i < j {
        lemma_col_prefix_monotone(b, cq, i, j - 1);
    }
}

/// Column prefixes are non-negative.
proof fn lemma_col_prefix_nonneg(b: Seq<Vec<char>>, cq: int, i: int)
    ensures
        0 <= col_prefix_queens(b, cq, i),
    decreases i,
{
    if i > 0 {
        lemma_col_prefix_nonneg(b, cq, i - 1);
    }
}

/// Two boards place queens identically in every column below `upto`.
pub open spec fn queens_match(a: Seq<Vec<char>>, b: Seq<Vec<char>>, n: int, upto: int) -> bool {
    forall|rr: int, cc: int|
        0 <= rr < n && 0 <= cc < upto ==> (((#[trigger] a[rr]@[cc]) == 'Q') <==> ((
        #[trigger] b[rr]@[cc]) == 'Q'))
}

/// Every queen of `a` also stands on `b`.
pub open spec fn q_subset(a: Seq<Vec<char>>, b: Seq<Vec<char>>, n: int) -> bool {
    forall|rr: int, cc: int|
        0 <= rr < n && 0 <= cc < n && (#[trigger] a[rr]@[cc]) == 'Q' ==> (#[trigger] b[rr]@[cc])
            == 'Q'
}

/// Adding queens never shrinks a ray's count.
proof fn lemma_ray_monotone(a: Seq<Vec<char>>, b: Seq<Vec<char>>, n: int, r: int, c: int, dr: int, dc: int)
    requires
        q_subset(a, b, n),
        dr != 0 || dc != 0,
    ensures
        ray_queens(a, n, r, c, dr, dc) <= ray_queens(b, n, r, c, dr, dc),
    decreases ray_steps(n, r, c, dr, dc),
{
    if 0 <= r < n && 0 <= c < n {
        lemma_ray_monotone(a, b, n, r + dr, c + dc, dr, dc);
    }
}

/// An illegal board stays illegal when queens are added.
proof fn lemma_illegal_monotone(a: Seq<Vec<char>>, b: Seq<Vec<char>>, n: int)
    requires
        q_subset(a, b, n),
        !board_legal(a, n),
    ensures
        !board_legal(b, n),
{
    if !(forall|r: int| 0 <= r < n ==> ray_queens(a, n, r, 0, 0, 1) <= 1) {
        let r = choose|r: int| 0 <= r < n && !(#[trigger] ray_queens(a, n, r, 0, 0, 1) <= 1);
        lemma_ray_monotone(a, b, n, r, 0, 0, 1);
    } else if !(forall|c: int| 0 <= c < n ==> ray_queens(a, n, 0, c, 1, 0) <= 1) {
        let c = choose|c: int| 0 <= c < n && !(#[trigger] ray_queens(a, n, 0, c, 1, 0) <= 1);
        lemma_ray_monotone(a, b, n, 0, c, 1, 0);
    } else if !(forall|r: int| 0 <= r < n ==> ray_queens(a, n, r, 0, 1, 1) <= 1) {
        let r = choose|r: int| 0 <= r < n && !(#[trigger] ray_queens(a, n, r, 0, 1, 1) <= 1);
        lemma_ray_monotone(a, b, n, r, 0, 1, 1);
    } else if !(forall|c: int| 0 <= c < n ==> ray_queens(a, n, 0, c, 1, 1) <= 1) {
        let c = choose|c: int| 0 <= c < n && !(#[trigger] ray_queens(a, n, 0, c, 1, 1) <= 1);
        lemma_ray_monotone(a, b, n, 0, c, 1, 1);
    } else if !(forall|r: int| 0 <= r < n ==> left_diag_queens(a, n, r) <= 1) {
        let r = choose|r: int| 0 <= r < n && !(#[trigger] left_diag_queens(a, n, r) <= 1);
        lemma_ray_monotone(a, b, n, r, n - 1, 1, -1);
        assert(left_diag_queens(b, n, r) > 1);
    } else {
        let c = choose|c: int| 0 <= c < n && !(#[trigger] down_left_queens(a, n, c) <= 1);
        lemma_ray_monotone(a, b, n, 0, c, 1, -1);
        assert(down_left_queens(b, n, c) > 1);
    }
}

/// Boards with the same queens everywhere have equal rays.
proof fn lemma_ray_q_congruent(a: Seq<Vec<char>>, b: Seq<Vec<char>>, n: int, r: int, c: int, dr: int, dc: int)
    requires
        queens_match(a, b, n, n),
        dr != 0 || dc != 0,
    ensures
        ray_queens(a, n, r, c, dr, dc) == ray_queens(b, n, r, c, dr, dc),
    decreases ray_steps(n, r, c, dr, dc),
{
    if 0 <= r < n && 0 <= c < n {
        lemma_ray_q_congruent(a, b, n, r + dr, c + dc, dr, dc);
    }
}

/// Boards with the same queens everywhere agree on legality and on the
/// queen totals.
proof fn lemma_match_congruent(a: Seq<Vec<char>>, b: Seq<Vec<char>>, n: int)
    requires
        queens_match(a, b, n, n),
        a.len() == n,
        b.len() == n,
    ensures
        board_legal(a, n) == board_legal(b, n),
        total_queens(a, n, n) == total_queens(b, n, n),
{
    assert forall|r: int|
        #![trigger ray_queens(a, n, r, 0, 0, 1)]
        #![trigger ray_queens(b, n, r, 0, 0, 1)]
        0 <= r < n implies ray_queens(a, n, r, 0, 0, 1) == ray_queens(b, n, r, 0, 0, 1) by {
        lemma_ray_q_congruent(a, b, n, r, 0, 0, 1);
    }
    assert forall|c: int|
        #![trigger ray_queens(a, n, 0, c, 1, 0)]
        #![trigger ray_queens(b, n, 0, c, 1, 0)]
        0 <= c < n implies ray_queens(a, n, 0, c, 1, 0) == ray_queens(b, n, 0, c, 1, 0) by {
        lemma_ray_q_congruent(a, b, n, 0, c, 1, 0);
    }
    assert forall|r: int|
        #![trigger ray_queens(a, n, r, 0, 1, 1)]
        #![trigger ray_queens(b, n, r, 0, 1, 1)]
        0 <= r < n implies ray_queens(a, n, r, 0, 1, 1) == ray_queens(b, n, r, 0, 1, 1) by {
        lemma_ray_q_congruent(a, b, n, r, 0, 1, 1);
    }
    assert forall|c: int|
        #![trigger ray_queens(a, n, 0, c, 1, 1)]
        #![trigger ray_queens(b, n, 0, c, 1, 1)]
        0 <= c < n implies ray_queens(a, n, 0, c, 1, 1) == ray_queens(b, n, 0, c, 1, 1) by {
        lemma_ray_q_congruent(a, b, n, 0, c, 1, 1);
    }
    assert forall|r: int|
        #![trigger left_diag_queens(a, n, r)]
        #![trigger left_diag_queens(b, n, r)]
        0 <= r < n implies left_diag_queens(a, n, r) == left_diag_queens(b, n, r) by {
        lemma_ray_q_congruent(a, b, n, r, n - 1, 1, -1);
    }
    assert forall|c: int|
        #![trigger down_left_queens(a, n, c)]
        #![trigger down_left_queens(b, n, c)]
        0 <= c < n implies down_left_queens(a, n, c) == down_left_queens(b, n, c) by {
        lemma_ray_q_congruent(a, b, n, 0, c, 1, -1);
    }
    lemma_total_q_congruent(a, b, n, n);
}

proof fn lemma_total_q_congruent(a: Seq<Vec<char>>, b: Seq<Vec<char>>, n: int, i: int)
    requires
        queens_match(a, b, n, n),
        i <= n,
    ensures
        total_queens(a, i, n) == total_queens(b, i, n),
    decreases i,
{
    if i > 0 {
        lemma_total_q_congruent(a, b, n, i - 1);
        lemma_row_q_congruent(a, b, n, i - 1, n);
    }
}

proof fn lemma_row_q_congruent(a: Seq<Vec<char>>, b: Seq<Vec<char>>, n: int, rr: int, j: int)
    requires
        queens_match(a, b, n, n),
        0 <= rr < n,
        j <= n,
    ensures
        row_queens(a[rr]@, j) == row_queens(b[rr]@, j),
    decreases j,
{
    if j > 0 {
        lemma_row_q_congruent(a, b, n, rr, j - 1);
    }
}

/// Walk one ray — in any nonzero direction, of any step size — and report
/// whether it carries at most one queen.
pub fn series_is_legal(board: &Vec<Vec<char>>, r0: i32, c0: i32, dr: i32, dc: i32) -> (res: bool)
    requires
        board_ok(board@, board@.len() as int),
        board@.len() < 0x8000_0000,
        0 <= r0 < board@.len(),
        0 <= c0 < board@.len(),
        dr != 0 || dc != 0,
    ensures
        res == (ray_queens(board@, board@.len() as int, r0 as int, c0 as int, dr as int, dc as int)
            <= 1),
{
    let ghost b = board@;
    let ghost n = board@.len() as int;
    let ghost total = ray_queens(b, n, r0 as int, c0 as int, dr as int, dc as int);
    let n_w = board.len() as i64;
    let dr_w = dr as i64;
    let dc_w = dc as i64;
    let mut has_queen = false;
    let mut r: i64 = r0 as i64;
    let mut c: i64 = c0 as i64;
    let ghost mut seen: int = 0;
    while r >= 0 && r < n_w && c >= 0 && c < n_w
        invariant
            board@ == b,
            n == b.len(),
            n_w == n,
            n < 0x8000_0000,
            board_ok(b, n),
            dr_w == dr,
            dc_w == dc,
            dr != 0 || dc != 0,
            -0x8000_0000 <= r <= 0x1_0000_0000,
            -0x8000_0000 <= c <= 0x1_0000_0000,
            0 <= seen <= 1,
            has_queen == (seen == 1),
            seen + ray_queens(b, n, r as int, c as int, dr as int, dc as int) == total,
            total == ray_queens(b, n, r0 as int, c0 as int, dr as int, dc as int),
            board@.len() == n,
        decreases ray_steps(n, r as int, c as int, dr as int, dc as int),
    {
        proof {
            lemma_ray_nonneg(b, n, r + dr, c + dc, dr as int, dc as int);
        }
        if board[r as usize][c as usize] == 'Q' {
            proof {
                assert(ray_queens(b, n, r as int, c as int, dr as int, dc as int) == 1
                    + ray_queens(b, n, r + dr, c + dc, dr as int, dc as int));
            }
            if has_queen {
                return false;
            }
            has_queen = true;
            proof {
                seen = seen + 1;
            }
        }
        r = r + dr_w;
        c = c + dc_w;
    }
    true
}

/// Check every row, column and diagonal of the board for at most one queen
/// apiece.
pub fn board_is_legal(board: &Vec<Vec<char>>) -> (res: bool)
    requires
        board_ok(board@, board@.len() as int),
        0 < board@.len() < 0x8000_0000,
    ensures
        res == board_legal(board@, board@.len() as int),
{
    let ghost b = board@;
    let ghost n = board@.len() as int;
    let n_i = board.len() as i32;
    let mut k: i32 = 0;
    while k < n_i
        invariant
            board@ == b,
            n == b.len(),
            n_i == n,
            0 < n < 0x8000_0000,
            board_ok(b, n),
            0 <= k <= n_i,
            forall|r: int| 0 <= r < k ==> ray_queens(b, n, r, 0, 0, 1) <= 1,
        decreases n_i - k,
    {
        if !series_is_legal(board, k, 0, 0, 1) {
            return false;
        }
        k = k + 1;
    }
    let mut k: i32 = 0;
    while k < n_i
        invariant
            board@ == b,
            n == b.len(),
            n_i == n,
            0 < n < 0x8000_0000,
            board_ok(b, n),
            0 <= k <= n_i,
            forall|r: int| 0 <= r < n ==> ray_queens(b, n, r, 0, 0, 1) <= 1,
            forall|c: int| 0 <= c < k ==> ray_queens(b, n, 0, c, 1, 0) <= 1,
        decreases n_i - k,
    {
        if !series_is_legal(board, 0, k, 1, 0) {
            return false;
        }
        k = k + 1;
    }
    let mut k: i32 = 0;
    while k < n_i
        invariant
            board@ == b,
            n == b.len(),
            n_i == n,
            0 < n < 0x8000_0000,
            board_ok(b, n),
            0 <= k <= n_i,
            forall|r: int| 0 <= r < n ==> ray_queens(b, n, r, 0, 0, 1) <= 1,
            forall|c: int| 0 <= c < n ==> ray_queens(b, n, 0, c, 1, 0) <= 1,
            forall|r: int| 0 <= r < k ==> ray_queens(b, n, r, 0, 1, 1) <= 1,
        decreases n_i - k,
    {
        if !series_is_legal(board, k, 0, 1, 1) {
            return false;
        }
        k = k + 1;
    }
    let mut k: i32 = 0;
    while k < n_i
        invariant
            board@ == b,
            n == b.len(),
            n_i == n,
            0 < n < 0x8000_0000,
            board_ok(b, n),
            0 <= k <= n_i,
            forall|r: int| 0 <= r < n ==> ray_queens(b, n, r, 0, 0, 1) <= 1,
            forall|c: int| 0 <= c < n ==> ray_queens(b, n, 0, c, 1, 0) <= 1,
            forall|r: int| 0 <= r < n ==> ray_queens(b, n, r, 0, 1, 1) <= 1,
            forall|c: int| 0 <= c < k ==> ray_queens(b, n, 0, c, 1, 1) <= 1,
        decreases n_i - k,
    {
        if !series_is_legal(board, 0, k, 1, 1) {
            return false;
        }
        k = k + 1;
    }
    let mut k: i32 = 0;
    while k < n_i
        invariant
            board@ == b,
            n == b.len(),
            n_i == n,
            0 < n < 0x8000_0000,
            board_ok(b, n),
            0 <= k <= n_i,
            forall|r: int| 0 <= r < n ==> ray_queens(b, n, r, 0, 0, 1) <= 1,
            forall|c: int| 0 <= c < n ==> ray_queens(b, n, 0, c, 1, 0) <= 1,
            forall|r: int| 0 <= r < n ==> ray_queens(b, n, r, 0, 1, 1) <= 1,
            forall|c: int| 0 <= c < n ==> ray_queens(b, n, 0, c, 1, 1) <= 1,
            forall|r: int| 0 <= r < k ==> left_diag_queens(b, n, r) <= 1,
        decreases n_i - k,
    {
        if !series_is_legal(board, k, n_i - 1, 1, -1) {
            proof {
                assert(left_diag_queens(b, n, k as int) > 1);
            }
            return false;
        }
        proof {
            assert(left_diag_queens(b, n, k as int) <= 1);
        }
        k = k + 1;
    }
    let mut k: i32 = 0;
    while k < n_i
        invariant
            board@ == b,
            n == b.len(),
            n_i == n,
            0 < n < 0x8000_0000,
            board_ok(b, n),
            0 <= k <= n_i,
            forall|r: int| 0 <= r < n ==> ray_queens(b, n, r, 0, 0, 1) <= 1,
            forall|c: int| 0 <= c < n ==> ray_queens(b, n, 0, c, 1, 0) <= 1,
            forall|r: int| 0 <= r < n ==> ray_queens(b, n, r, 0, 1, 1) <= 1,
            forall|c: int| 0 <= c < n ==> ray_queens(b, n, 0, c, 1, 1) <= 1,
            forall|r: int| 0 <= r < n ==> left_diag_queens(b, n, r) <= 1,
            forall|c: int| 0 <= c < k ==> down_left_queens(b, n, c) <= 1,
        decreases n_i - k,
    {
        if !series_is_legal(board, 0, k, 1, -1) {
            proof {
                assert(down_left_queens(b, n, k as int) > 1);
            }
            return false;
        }
        proof {
            assert(down_left_queens(b, n, k as int) <= 1);
        }
        k = k + 1;
    }
    true
}

/// A board is a solution when it is legal and carries exactly one queen per
/// row in total.
pub fn board_is_a_solution(board: &Vec<Vec<char>>) -> (res: bool)
    requires
        board_ok(board@, board@.len() as int),
        0 < board@.len() < 0x8000_0000,
    ensures
        res == (board_legal(board@, board@.len() as int) && total_queens(
            board@,
            board@.len() as int,
            board@.len() as int,
        ) == board@.len()),
{
    let ghost b = board@;
    let ghost n = board@.len() as int;
    if !board_is_legal(board) {
        return false;
    }
    let mut num_queens: u64 = 0;
    let mut r: usize = 0;
    while r < board.len()
        invariant
            board@ == b,
            n == b.len(),
            0 < n < 0x8000_0000,
            board_ok(b, n),
            0 <= r <= n,
            num_queens == total_queens(b, r as int, n),
            num_queens <= r * n,
        decreases n - r,
    {
        let mut c: usize = 0;
        let row_start = num_queens;
        while c < board.len()
            invariant
                board@ == b,
                n == b.len(),
                0 < n < 0x8000_0000,
                board_ok(b, n),
                0 <= r < n,
                0 <= c <= n,
                num_queens == row_start + row_queens(b[r as int]@, c as int),
                row_start == total_queens(b, r as int, n),
                row_start <= r * n,
                num_queens <= row_start + c,
            decreases n - c,
        {
            if board[r][c] == 'Q' {
                proof {
                    assert(r * n + n <= n * n) by (nonlinear_arith)
                        requires
                            0 <= r < n,
                    ;
                    assert(n * n < 0x4000_0000_0000_0000) by (nonlinear_arith)
                        requires
                            0 <= n < 0x8000_0000,
                    ;
                }
                num_queens = num_queens + 1;
            }
            c = c + 1;
        }
        proof {
            assert((r + 1) * n == r * n + n) by (nonlinear_arith);
        }
        r = r + 1;
    }
    num_queens == board.len() as u64
}

/// Two boards look the same square for square.
pub open spec fn boards_match(a: Seq<Vec<char>>, b: Seq<Vec<char>>) -> bool {
    a.len() == b.len() && forall|r: int| 0 <= r < a.len() ==> (#[trigger] a[r])@ == b[r]@
}

/// Matching boards have the same rays.
proof fn lemma_ray_match(a: Seq<Vec<char>>, b: Seq<Vec<char>>, n: int, r: int, c: int, dr: int, dc: int)
    requires
        boards_match(a, b),
        n == a.len(),
        dr != 0 || dc != 0,
    ensures
        ray_queens(a, n, r, c, dr, dc) == ray_queens(b, n, r, c, dr, dc),
    decreases ray_steps(n, r, c, dr, dc),
{
    if 0 <= r < n && 0 <= c < n {
        lemma_ray_match(a, b, n, r + dr, c + dc, dr, dc);
    }
}

/// Matching boards have the same queen totals.
proof fn lemma_total_match(a: Seq<Vec<char>>, b: Seq<Vec<char>>, i: int, n: int)
    requires
        boards_match(a, b),
    ensures
        i <= a.len() ==> total_queens(a, i, n) == total_queens(b, i, n),
    decreases i,
{
    if 0 < i <= a.len() {
        lemma_total_match(a, b, i - 1, n);
        assert(a[i - 1]@ == b[i - 1]@);
    }
}

/// Try to fill the board column by column from `c` on.  On success the
/// board is a legal full solution; on failure every square is as it was.
pub fn place_queens_4(board: &mut Vec<Vec<char>>, c: i32) -> (res: bool)
    requires
        board_ok(old(board)@, old(board)@.len() as int),
        0 < old(board)@.len() < 0x8000_0000,
        0 <= c <= old(board)@.len(),
        forall|r: int, cc: int|
            0 <= r < old(board)@.len() && c <= cc < old(board)@.len() ==> (#[trigger] old(
                board,
            )@[r]@[cc]) == '.',
    ensures
        final(board)@.len() == old(board)@.len(),
        board_ok(final(board)@, old(board)@.len() as int),
        !res ==> boards_match(final(board)@, old(board)@),
        res ==> board_legal(final(board)@, old(board)@.len() as int) && total_queens(
            final(board)@,
            old(board)@.len() as int,
            old(board)@.len() as int,
        ) == old(board)@.len(),
        res ==> forall|rr: int, cc: int|
            0 <= rr < old(board)@.len() && 0 <= cc < c ==> (#[trigger] final(board)@[rr]@[cc])
                == old(board)@[rr]@[cc],
        c == old(board)@.len() ==> res == (board_legal(old(board)@, old(board)@.len() as int)
            && total_queens(old(board)@, old(board)@.len() as int, old(board)@.len() as int)
            == old(board)@.len()),
        !res ==> forall|sol: Seq<Vec<char>>|
            #![trigger queens_match(old(board)@, sol, old(board)@.len() as int, c as int)]
            board_ok(sol, old(board)@.len() as int) && queens_match(
                old(board)@,
                sol,
                old(board)@.len() as int,
                c as int,
            ) && board_legal(sol, old(board)@.len() as int) ==> total_queens(
                sol,
                old(board)@.len() as int,
                old(board)@.len() as int,
            ) != old(board)@.len(),
    decreases old(board)@.len() - c,
{
    let ghost b0 = old(board)@;
    let ghost n = old(board)@.len() as int;
    let n_i = board.len() as i32;
    if c == n_i {
        let res = board_is_a_solution(board);
        proof {
            if !res {
                assert forall|sol: Seq<Vec<char>>|
                    #![trigger queens_match(b0, sol, n, c as int)]
                    board_ok(sol, n) && queens_match(b0, sol, n, c as int) && board_legal(
                        sol,
                        n,
                    ) implies total_queens(sol, n, n) != n by {
                    if total_queens(sol, n, n) == n {
                        lemma_match_congruent(b0, sol, n);
                    }
                }
            }
        }
        return res;
    }
    if !board_is_legal(board) {
        proof {
            assert forall|sol: Seq<Vec<char>>|
                #![trigger queens_match(b0, sol, n, c as int)]
                board_ok(sol, n) && queens_match(b0, sol, n, c as int) && board_legal(
                    sol,
                    n,
                ) implies total_queens(sol, n, n) != n by {
                assert(q_subset(b0, sol, n)) by {
                    assert forall|rr: int, cc: int|
                        0 <= rr < n && 0 <= cc < n && (#[trigger] b0[rr]@[cc]) == 'Q' implies (
                    #[trigger] sol[rr]@[cc]) == 'Q' by {
                        assert(cc < c);
                    }
                }
                lemma_illegal_monotone(b0, sol, n);
            }
        }
        return false;
    }
    let mut r: i32 = 0;
    while r < n_i
        invariant
            boards_match(board@, b0),
            old(board)@ == b0,
            n == b0.len(),
            n_i == n,
            0 < n < 0x8000_0000,
            board_ok(board@, n),
            board_ok(b0, n),
            0 <= c < n,
            0 <= r <= n_i,
            forall|rr: int, cc: int|
                0 <= rr < n && c <= cc < n ==> (#[trigger] b0[rr]@[cc]) == '.',
            forall|sol: Seq<Vec<char>>, rr: int|
                #![trigger queens_match(b0, sol, n, c as int), sol[rr]]
                0 <= rr < r && board_ok(sol, n) && queens_match(b0, sol, n, c as int)
                    && board_legal(sol, n) && sol[rr]@[c as int] == 'Q' ==> total_queens(
                    sol,
                    n,
                    n,
                ) != n,
        decreases n_i - r,
    {
        board[r as usize][c as usize] = 'Q';
        let ghost b1 = board@;
        proof {
            assert(board_ok(b1, n));
            assert forall|rr: int, cc: int|
                0 <= rr < n && c + 1 <= cc < n implies (#[trigger] b1[rr]@[cc]) == '.' by {
                assert(b1[rr]@[cc] == b0[rr]@[cc]);
            }
        }
        proof {
            assert(board@.len() == n);
        }
        if place_queens_4(board, c + 1) {
            proof {
                assert(final(board)@.len() == n);
            }
            return true;
        }
        board[r as usize][c as usize] = '.';
        proof {
            assert forall|rr: int| 0 <= rr < n implies (#[trigger] board@[rr])@ == b0[rr]@ by {
                if rr == r {
                    assert(board@[rr]@ =~= b0[rr]@);
                } else {
                    assert(board@[rr]@ == b1[rr]@);
                }
            }
            // The failed extension rules out every solution that puts the
            // column's queen on this row.
            assert forall|sol: Seq<Vec<char>>, rr: int|
                #![trigger queens_match(b0, sol, n, c as int), sol[rr]]
                0 <= rr < r + 1 && board_ok(sol, n) && queens_match(b0, sol, n, c as int)
                    && board_legal(sol, n) && sol[rr]@[c as int] == 'Q' implies total_queens(
                sol,
                n,
                n,
            ) != n by {
                if rr == r && total_queens(sol, n, n) == n {
                    assert(queens_match(b1, sol, n, c + 1)) by {
                        assert forall|r2: int, c2: int|
                            0 <= r2 < n && 0 <= c2 < c + 1 implies (((#[trigger] b1[r2]@[c2])
                                == 'Q') <==> ((#[trigger] sol[r2]@[c2]) == 'Q')) by {
                            if c2 == c {
                                assert(b1[r2]@[c2] == 'Q' <==> r2 == r);
                                if sol[r2]@[c2] == 'Q' && r2 != r {
                                    if r2 < r {
                                        lemma_col_two_queens(sol, n, c as int, r2, r as int);
                                    } else {
                                        lemma_col_two_queens(sol, n, c as int, r as int, r2);
                                    }
                                }
                            } else {
                                assert(b1[r2]@[c2] == b0[r2]@[c2]);
                            }
                        }
                    }
                }
            }
        }
        r = r + 1;
    }
    proof {
        // No row of this column works, yet any full legal solution must put
        // exactly one queen in it.
        assert forall|sol: Seq<Vec<char>>|
            #![trigger queens_match(b0, sol, n, c as int)]
            board_ok(sol, n) && queens_match(b0, sol, n, c as int) && board_legal(
                sol,
                n,
            ) implies total_queens(sol, n, n) != n by {
            if total_queens(sol, n, n) == n {
                lemma_total_upto_full(sol, n, n);
                lemma_row_col_swap(sol, n, n);
                lemma_column_pigeonhole(sol, n, n);
                assert(ray_queens(sol, n, 0, c as int, 1, 0) >= 1) by {
                    if ray_queens(sol, n, 0, c as int, 1, 0) <= 0 {
                        assert(exists|cq: int|
                            0 <= cq < n && #[trigger] ray_queens(sol, n, 0, cq, 1, 0) <= 0);
                    }
                }
                lemma_col_split(sol, n, c as int, n);
                assert(ray_queens(sol, n, n, c as int, 1, 0) == 0);
                lemma_col_witness(sol, c as int, n);
                let rq = choose|rq: int| 0 <= rq < n && (#[trigger] sol[rq]@[c as int]) == 'Q';
                assert(total_queens(sol, n, n) != n);
            }
        }
    }
    false
}

} // verus!
