//! A knight's tour by backtracking: each square records the step at which
//! the knight visited it, with `-1` for squares not yet reached.  Success
//! means every square was visited; failure restores the board exactly.

use vstd::prelude::*;

verus! {

/// The marker for a square the knight has not reached.
pub const UNVISITED: i64 = -1;

/// A square board of side `n` with one step number per square.
pub open spec fn tour_board_ok(b: Seq<Vec<i64>>, n: int) -> bool {
    b.len() == n && forall|r: int| 0 <= r < n ==> (#[trigger] b[r])@.len() == n
}

/// Visited squares in the first `j` squares of one row.
pub open spec fn row_visited(row: Seq<i64>, j: int) -> int
    decreases j,
{
    if j <= 0 {
        0
    } else {
        row_visited(row, j - 1) + (if row[j - 1] != UNVISITED {
            1int
        } else {
            0int
        })
    }
}

/// Visited squares in the first `i` rows of the board.
pub open spec fn board_visited(b: Seq<Vec<i64>>, i: int, n: int) -> int
    decreases i,
{
    if i <= 0 {
        0
    } else {
        board_visited(b, i - 1, n) + row_visited(b[i - 1]@, n)
    }
}

/// Two boards look the same square for square.
pub open spec fn tour_boards_match(a: Seq<Vec<i64>>, b: Seq<Vec<i64>>) -> bool {
    a.len() == b.len() && forall|r: int| 0 <= r < a.len() ==> (#[trigger] a[r])@ == b[r]@
}

/// Every visited square carries a step number below `m`.
pub open spec fn marks_bounded(b: Seq<Vec<i64>>, n: int, m: int) -> bool {
    forall|r: int, c: int|
        0 <= r < n && 0 <= c < n ==> (#[trigger] b[r]@[c]) == UNVISITED || (0 <= b[r]@[c]
            && b[r]@[c] < m)
}

/// No two visited squares carry the same step number.
pub open spec fn marks_distinct(b: Seq<Vec<i64>>, n: int) -> bool {
    forall|r1: int, c1: int, r2: int, c2: int|
        0 <= r1 < n && 0 <= c1 < n && 0 <= r2 < n && 0 <= c2 < n && (r1 != r2 || c1 != c2)
            && (#[trigger] b[r1]@[c1]) != UNVISITED && (#[trigger] b[r2]@[c2]) != UNVISITED
            ==> b[r1]@[c1] != b[r2]@[c2]
}

/// A legal knight move: one square one way and two the other.
pub open spec fn knight_adjacent(r1: int, c1: int, r2: int, c2: int) -> bool {
    let a = if r2 >= r1 {
        r2 - r1
    } else {
        r1 - r2
    };
    let b = if c2 >= c1 {
        c2 - c1
    } else {
        c1 - c2
    };
    (a == 1 && b == 2) || (a == 2 && b == 1)
}

/// Step `k` extends the path: somewhere on the board, the squares numbered
/// `k - 1` and `k` sit a knight's move apart.
pub open spec fn path_step(b: Seq<Vec<i64>>, n: int, k: int) -> bool {
    exists|r1: int, c1: int, r2: int, c2: int|
        0 <= r1 < n && 0 <= c1 < n && 0 <= r2 < n && 0 <= c2 < n && (#[trigger] square_pair(
            k,
            r1,
            c1,
            r2,
            c2,
        )) && b[r1]@[c1] == k - 1 && b[r2]@[c2] == k && knight_adjacent(r1, c1, r2, c2)
}

/// The step numbers below `m` trace a knight's path: each one sits a
/// knight's move from its predecessor.
pub open spec fn path_ok(b: Seq<Vec<i64>>, n: int, m: int) -> bool {
    forall|k: int| 1 <= k < m ==> #[trigger] path_step(b, n, k)
}

/// A trigger anchor for the path witnesses.
pub open spec fn square_pair(k: int, r1: int, c1: int, r2: int, c2: int) -> bool {
    true
}

/// `t_board` is a finished tour that extends `base`: a well-formed board,
/// every square visited, the marks distinct, in range and forming a
/// knight's path, and every square `base` had already numbered keeps its
/// number.
pub open spec fn full_tour_extending(base: Seq<Vec<i64>>, t_board: Seq<Vec<i64>>, n: int) -> bool {
    &&& tour_board_ok(t_board, n)
    &&& marks_bounded(t_board, n, n * n)
    &&& marks_distinct(t_board, n)
    &&& path_ok(t_board, n, n * n)
    &&& forall|r: int, c: int|
        0 <= r < n && 0 <= c < n ==> (#[trigger] t_board[r]@[c]) != UNVISITED
    &&& forall|r: int, c: int|
        0 <= r < n && 0 <= c < n && (#[trigger] base[r]@[c]) != UNVISITED ==> t_board[r]@[c]
            == base[r]@[c]
}

/// Changing one square changes the row count by exactly that square's
/// contribution.
proof fn lemma_row_update(row: Seq<i64>, c: int, v: i64, j: int)
    requires
        0 <= c < row.len(),
    ensures
        c < j <= row.len() ==> row_visited(row.update(c, v), j) == row_visited(row, j) - (
        if row[c] != UNVISITED {
            1int
        } else {
            0int
        }) + (if v != UNVISITED {
            1int
        } else {
            0int
        }),
        j <= c ==> row_visited(row.update(c, v), j) == row_visited(row, j),
    decreases j,
{
    if j > 0 {
        lemma_row_update(row, c, v, j - 1);
    }
}

/// Changing one square changes the board count by exactly that square's
/// contribution.
proof fn lemma_board_update(b: Seq<Vec<i64>>, b2: Seq<Vec<i64>>, r: int, c: int, v: i64, i: int, n: int)
    requires
        tour_board_ok(b, n),
        0 <= r < n,
        0 <= c < n,
        b2.len() == n,
        b2[r]@ == b[r]@.update(c, v),
        forall|t: int| 0 <= t < n && t != r ==> (#[trigger] b2[t])@ == b[t]@,
    ensures
        r < i <= n ==> board_visited(b2, i, n) == board_visited(b, i, n) - (if b[r]@[c]
            != UNVISITED {
            1int
        } else {
            0int
        }) + (if v != UNVISITED {
            1int
        } else {
            0int
        }),
        i <= r ==> board_visited(b2, i, n) == board_visited(b, i, n),
    decreases i,
{
    if i > 0 {
        lemma_board_update(b, b2, r, c, v, i - 1, n);
        if i - 1 == r {
            lemma_row_update(b[r]@, c, v, n);
        }
    }
}

/// The visit count never exceeds the number of squares scanned, and a full
/// count means every square is visited.
proof fn lemma_board_full(b: Seq<Vec<i64>>, i: int, n: int)
    requires
        tour_board_ok(b, n),
        0 <= i <= n,
    ensures
        board_visited(b, i, n) <= i * n,
        board_visited(b, i, n) == i * n ==> forall|r: int, c: int|
            0 <= r < i && 0 <= c < n ==> (#[trigger] b[r]@[c]) != UNVISITED,
    decreases i,
{
    if i > 0 {
        lemma_board_full(b, i - 1, n);
        lemma_row_full(b[i - 1]@, n);
        assert(i * n == (i - 1) * n + n) by (nonlinear_arith);
    }
}

proof fn lemma_row_full(row: Seq<i64>, j: int)
    requires
        0 <= j <= row.len(),
    ensures
        row_visited(row, j) <= j,
        row_visited(row, j) == j ==> forall|c: int| 0 <= c < j ==> (#[trigger] row[c])
            != UNVISITED,
    decreases j,
{
    if j > 0 {
        lemma_row_full(row, j - 1);
    }
}

/// Try to extend a knight's tour from `(cur_row, cur_col)`, with
/// `num_visited` squares already marked with their step numbers.  Returns
/// whether a full tour was found: on success every square is visited, on
/// failure the board is exactly as it was.  `num_calls` counts the
/// recursive calls made.
pub fn find_tour(
    board: &mut Vec<Vec<i64>>,
    offsets: &Vec<(i32, i32)>,
    cur_row: i32,
    cur_col: i32,
    num_visited: i64,
    num_calls: &mut u64,
) -> (res: bool)
    requires
        tour_board_ok(old(board)@, old(board)@.len() as int),
        0 < old(board)@.len() < 0x4000_0000,
        forall|t: int|
            0 <= t < offsets@.len() ==> knight_adjacent(
                0,
                0,
                (#[trigger] offsets@[t]).0 as int,
                offsets@[t].1 as int,
            ),
        forall|dr: int, dc: int|
            #[trigger] knight_adjacent(0, 0, dr, dc) ==> exists|t: int|
                0 <= t < offsets@.len() && (#[trigger] offsets@[t]).0 == dr && offsets@[t].1
                    == dc,
        1 <= num_visited <= old(board)@.len() * old(board)@.len(),
        num_visited == board_visited(old(board)@, old(board)@.len() as int, old(
            board,
        )@.len() as int),
        marks_bounded(old(board)@, old(board)@.len() as int, num_visited as int),
        marks_distinct(old(board)@, old(board)@.len() as int),
        path_ok(old(board)@, old(board)@.len() as int, num_visited as int),
        0 <= cur_row < old(board)@.len(),
        0 <= cur_col < old(board)@.len(),
        old(board)@[cur_row as int]@[cur_col as int] == num_visited - 1,
    ensures
        final(board)@.len() == old(board)@.len(),
        tour_board_ok(final(board)@, old(board)@.len() as int),
        *old(num_calls) <= *final(num_calls),
        *old(num_calls) < u64::MAX ==> *old(num_calls) < *final(num_calls),
        !res ==> tour_boards_match(final(board)@, old(board)@),
        res ==> forall|r: int, c: int|
            0 <= r < old(board)@.len() && 0 <= c < old(board)@.len()
                ==> (#[trigger] final(board)@[r]@[c]) != UNVISITED,
        res ==> forall|r: int, c: int|
            0 <= r < old(board)@.len() && 0 <= c < old(board)@.len() && (#[trigger] old(
                board,
            )@[r]@[c]) != UNVISITED ==> final(board)@[r]@[c] == old(board)@[r]@[c],
        res ==> marks_bounded(
            final(board)@,
            old(board)@.len() as int,
            (old(board)@.len() * old(board)@.len()) as int,
        ) && marks_distinct(final(board)@, old(board)@.len() as int) && path_ok(
            final(board)@,
            old(board)@.len() as int,
            (old(board)@.len() * old(board)@.len()) as int,
        ),
        !res ==> forall|t_board: Seq<Vec<i64>>|
            !(#[trigger] full_tour_extending(old(board)@, t_board, old(board)@.len() as int)),
    decreases old(board)@.len() * old(board)@.len() - num_visited,
{
    let ghost b0 = old(board)@;
    let ghost n = old(board)@.len() as int;
    if *num_calls < u64::MAX {
        *num_calls = *num_calls + 1;
    }
    let n_i = board.len() as i32;
    proof {
        assert(n * n < 0x4000_0000_0000_0000) by (nonlinear_arith)
            requires
                0 <= n < 0x4000_0000,
        ;
    }
    if num_visited == (n_i as i64) * (n_i as i64) {
        proof {
            lemma_board_full(b0, n, n);
        }
        return true;
    }
    let mut m: usize = 0;
    while m < offsets.len()
        invariant
            tour_boards_match(board@, b0),
            old(board)@ == b0,
            tour_board_ok(board@, n),
            tour_board_ok(b0, n),
            n == b0.len(),
            n_i == n,
            0 < n < 0x4000_0000,
            n * n < 0x4000_0000_0000_0000,
            forall|t: int|
                0 <= t < offsets@.len() ==> -2 <= (#[trigger] offsets@[t]).0 <= 2 && -2
                    <= offsets@[t].1 <= 2,
            1 <= num_visited < n * n,
            num_visited == board_visited(b0, n, n),
            marks_bounded(b0, n, num_visited as int),
            marks_distinct(b0, n),
            path_ok(b0, n, num_visited as int),
            b0[cur_row as int]@[cur_col as int] == num_visited - 1,
            forall|t: int|
                0 <= t < offsets@.len() ==> knight_adjacent(
                    0,
                    0,
                    (#[trigger] offsets@[t]).0 as int,
                    offsets@[t].1 as int,
                ),
            0 <= cur_row < n,
            0 <= cur_col < n,
            0 <= m <= offsets@.len(),
            *old(num_calls) <= *num_calls,
            *old(num_calls) < u64::MAX ==> *old(num_calls) < *num_calls,
            forall|dr: int, dc: int|
                #[trigger] knight_adjacent(0, 0, dr, dc) ==> exists|t: int|
                    0 <= t < offsets@.len() && (#[trigger] offsets@[t]).0 == dr
                        && offsets@[t].1 == dc,
            forall|t_board: Seq<Vec<i64>>, t: int|
                #![trigger full_tour_extending(b0, t_board, n), offsets@[t]]
                0 <= t < m && full_tour_extending(b0, t_board, n) && 0 <= cur_row
                    + offsets@[t].0 < n && 0 <= cur_col + offsets@[t].1 < n && t_board[cur_row
                    + offsets@[t].0]@[cur_col + offsets@[t].1] == num_visited ==> false,
        decreases offsets@.len() - m,
    {
        let (dr, dc) = offsets[m];
        let row = cur_row + dr;
        let col = cur_col + dc;
        // A candidate square must be on the board and unvisited.
        let candidate_ok = row >= 0 && row < n_i && col >= 0 && col < n_i
            && board[row as usize][col as usize] == UNVISITED;
        if candidate_ok {
            let ghost before = board@;
            board[row as usize][col as usize] = num_visited;
            let ghost b1 = board@;
            proof {
                lemma_board_update(
                    before,
                    b1,
                    row as int,
                    col as int,
                    num_visited,
                    n,
                    n,
                );
                lemma_count_match(before, b0, n);
                assert(board@.len() == n);
                assert(board_visited(b1, n, n) == num_visited + 1);
                // The fresh mark keeps the marks bounded, distinct, and on
                // a knight's path ending at the new square.
                assert(forall|r: int, c: int|
                    0 <= r < n && 0 <= c < n && (r != row || c != col)
                        ==> (#[trigger] b1[r]@[c]) == b0[r]@[c]);
                assert(b1[row as int]@[col as int] == num_visited);
                assert(marks_bounded(b1, n, num_visited + 1));
                assert(marks_distinct(b1, n));
                assert forall|k: int| 1 <= k < num_visited + 1 implies #[trigger] path_step(
                    b1,
                    n,
                    k,
                ) by {
                    if k < num_visited {
                        assert(path_step(b0, n, k));
                        let (r1, c1, r2, c2) = choose|r1: int, c1: int, r2: int, c2: int|
                            0 <= r1 < n && 0 <= c1 < n && 0 <= r2 < n && 0 <= c2 < n && (
                            #[trigger] square_pair(k, r1, c1, r2, c2)) && b0[r1]@[c1] == k - 1
                                && b0[r2]@[c2] == k && knight_adjacent(r1, c1, r2, c2);
                        assert(b1[r1]@[c1] == k - 1 && b1[r2]@[c2] == k);
                        assert(square_pair(k, r1, c1, r2, c2));
                    } else {
                        assert(b1[cur_row as int]@[cur_col as int] == num_visited - 1);
                        assert(knight_adjacent(
                            cur_row as int,
                            cur_col as int,
                            row as int,
                            col as int,
                        ));
                        assert(square_pair(
                            k,
                            cur_row as int,
                            cur_col as int,
                            row as int,
                            col as int,
                        ));
                    }
                }
                assert(path_ok(b1, n, num_visited + 1));
            }
            if find_tour(board, offsets, row, col, num_visited + 1, num_calls) {
                proof {
                    // Everything already marked kept its number through the
                    // successful extension.
                    assert forall|r: int, c: int|
                        0 <= r < n && 0 <= c < n && (#[trigger] b0[r]@[c])
                            != UNVISITED implies final(board)@[r]@[c] == b0[r]@[c] by {
                        assert(b1[r]@[c] == b0[r]@[c]);
                    }
                }
                return true;
            }
            let ghost b2 = board@;
            board[row as usize][col as usize] = UNVISITED;
            proof {
                assert forall|t: int| 0 <= t < n implies (#[trigger] board@[t])@ == b0[t]@ by {
                    if t == row {
                        assert(board@[t]@ =~= b0[t]@);
                    } else {
                        assert(board@[t]@ == b2[t]@ && b2[t]@ == b1[t]@ && b1[t]@ == b0[t]@);
                    }
                }
                // Any finished tour that puts step `num_visited` on this
                // square would extend the failed branch.
                assert forall|t_board: Seq<Vec<i64>>|
                    full_tour_extending(b0, t_board, n) && t_board[row as int]@[col as int]
                        == num_visited implies false by {
                    assert(full_tour_extending(b1, t_board, n)) by {
                        assert forall|r: int, c: int|
                            0 <= r < n && 0 <= c < n && (#[trigger] b1[r]@[c])
                                != UNVISITED implies t_board[r]@[c] == b1[r]@[c] by {
                            if r == row && c == col {
                            } else {
                                assert(b1[r]@[c] == b0[r]@[c]);
                            }
                        }
                    }
                }
            }
        } else {
            proof {
                // Off the board nothing can be numbered; an already-visited
                // square keeps its smaller number in every extension.
                assert forall|t_board: Seq<Vec<i64>>|
                    full_tour_extending(b0, t_board, n) && 0 <= row < n && 0 <= col < n
                        && t_board[row as int]@[col as int] == num_visited implies false by {
                    assert(b0[row as int]@[col as int] != UNVISITED);
                    assert(t_board[row as int]@[col as int] == b0[row as int]@[col as int]);
                    assert(b0[row as int]@[col as int] < num_visited);
                }
            }
        }
        proof {
            assert(cur_row + offsets@[m as int].0 == row && cur_col + offsets@[m as int].1
                == col);
        }
        m = m + 1;
    }
    proof {
        // Every move away from the path's head was ruled out, and any
        // finished tour must make one of them its next step.
        assert forall|t_board: Seq<Vec<i64>>|
            !(#[trigger] full_tour_extending(b0, t_board, n)) by {
            if full_tour_extending(b0, t_board, n) {
                assert(path_step(t_board, n, num_visited as int));
                let (r1, c1, r2, c2) = choose|r1: int, c1: int, r2: int, c2: int|
                    0 <= r1 < n && 0 <= c1 < n && 0 <= r2 < n && 0 <= c2 < n && (
                    #[trigger] square_pair(num_visited as int, r1, c1, r2, c2))
                        && t_board[r1]@[c1] == num_visited - 1 && t_board[r2]@[c2]
                        == num_visited && knight_adjacent(r1, c1, r2, c2);
                assert(t_board[cur_row as int]@[cur_col as int] == num_visited - 1);
                assert(r1 == cur_row && c1 == cur_col);
                let dr = r2 - cur_row;
                let dc = c2 - cur_col;
                assert(knight_adjacent(0, 0, dr, dc));
                let t = choose|t: int|
                    0 <= t < offsets@.len() && (#[trigger] offsets@[t]).0 == dr
                        && offsets@[t].1 == dc;
                assert(0 <= cur_row + offsets@[t].0 < n && 0 <= cur_col + offsets@[t].1 < n);
                assert(t_board[cur_row + offsets@[t].0]@[cur_col + offsets@[t].1]
                    == num_visited);
            }
        }
    }
    false
}

/// Boards that look alike count alike.
proof fn lemma_count_match(a: Seq<Vec<i64>>, b: Seq<Vec<i64>>, n: int)
    requires
        tour_boards_match(a, b),
        n <= a.len(),
    ensures
        forall|i: int| 0 <= i <= n ==> board_visited(a, i, n) == #[trigger] board_visited(b, i, n),
{
    assert forall|i: int| 0 <= i <= n implies board_visited(a, i, n) == #[trigger] board_visited(
        b,
        i,
        n,
    ) by {
        lemma_count_match_rec(a, b, i, n);
    }
}

proof fn lemma_count_match_rec(a: Seq<Vec<i64>>, b: Seq<Vec<i64>>, i: int, n: int)
    requires
        tour_boards_match(a, b),
        i <= a.len(),
    ensures
        board_visited(a, i, n) == board_visited(b, i, n),
    decreases i,
{
    if i > 0 {
        lemma_count_match_rec(a, b, i - 1, n);
        assert(a[i - 1]@ == b[i - 1]@);
    }
}

} // verus!
