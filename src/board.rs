use crate::grid::MoveDirection;
use crate::line::{
    all_nonneg, lemma_merge_cap, lemma_playable_line_moves, lemma_slid_len, lemma_stuck_line,
    lemma_total_prepend, lemma_total_zeros, line_gain, pair_playable, slid, total,
};
use vstd::prelude::*;

verus! {

/// A board model whose rows all have as many cells as there are rows.
pub open spec fn square(b: Seq<Seq<int>>) -> bool {
    forall|i: int| 0 <= i < b.len() ==> #[trigger] b[i].len() == b.len()
}

/// The cell of `b` that lands at row `i`, column `j` after `k` quarter turns.
pub open spec fn rotation_source(n: int, k: int, i: int, j: int) -> (int, int) {
    let r = k % 4;
    if r == 1 {
        (j, n - 1 - i)
    } else if r == 2 {
        (n - 1 - i, n - 1 - j)
    } else if r == 3 {
        (n - 1 - j, i)
    } else {
        (i, j)
    }
}

/// The board turned by `k` quarter turns: one turn brings the last column
/// to the first row.
pub open spec fn rotated(b: Seq<Seq<int>>, k: int) -> Seq<Seq<int>> {
    let n = b.len() as int;
    Seq::new(
        b.len(),
        |i: int|
            Seq::new(
                b.len(),
                |j: int| b[rotation_source(n, k, i, j).0][rotation_source(n, k, i, j).1],
            ),
    )
}

/// Column `j` of the board, from the first row to the last.
pub open spec fn column(b: Seq<Seq<int>>, j: int) -> Seq<int> {
    Seq::new(b.len(), |i: int| b[i][j])
}

/// A line read from its end to its start.
pub open spec fn reversed(s: Seq<int>) -> Seq<int> {
    Seq::new(s.len(), |k: int| s[s.len() - 1 - k])
}

/// Line `i` of the board for a move in direction `d`, ordered so that the
/// tiles move toward its end: row `i` for Left and Right, column `i` for Up
/// and Down.
pub open spec fn line(b: Seq<Seq<int>>, d: MoveDirection, i: int) -> Seq<int> {
    match d {
        MoveDirection::Right => b[i],
        MoveDirection::Left => reversed(b[i]),
        MoveDirection::Down => column(b, i),
        MoveDirection::Up => reversed(column(b, i)),
    }
}

/// The board after a move in direction `d`: every row (Left, Right) or
/// column (Up, Down) slid and merged toward the side that `d` names.
pub open spec fn moved(b: Seq<Seq<int>>, d: MoveDirection) -> Seq<Seq<int>> {
    let n = b.len();
    match d {
        MoveDirection::Right => Seq::new(n, |i: int| slid(b[i])),
        MoveDirection::Left => Seq::new(n, |i: int| reversed(slid(reversed(b[i])))),
        MoveDirection::Down => Seq::new(n, |i: int| Seq::new(n, |j: int| slid(column(b, j))[i])),
        MoveDirection::Up => Seq::new(
            n,
            |i: int| Seq::new(n, |j: int| reversed(slid(reversed(column(b, j))))[i]),
        ),
    }
}

/// The score that a move in direction `d` earns: the value of every tile
/// that a merge forms, over all lines.
pub open spec fn move_gain(b: Seq<Seq<int>>, d: MoveDirection) -> int {
    total(Seq::new(b.len(), |i: int| line_gain(line(b, d, i))))
}

/// Every row of a board slid and merged toward its end.
pub open spec fn rows_slid(b: Seq<Seq<int>>) -> Seq<Seq<int>> {
    Seq::new(b.len(), |i: int| slid(b[i]))
}

/// The score that sliding each row toward its end earns.
pub open spec fn row_gains(b: Seq<Seq<int>>) -> Seq<int> {
    Seq::new(b.len(), |i: int| line_gain(b[i]))
}

/// The quarter turns that bring direction `d` to Right.
pub open spec fn turns(d: MoveDirection) -> int {
    match d {
        MoveDirection::Right => 0,
        MoveDirection::Down => 1,
        MoveDirection::Left => 2,
        MoveDirection::Up => 3,
    }
}

/// No cell of the board holds a negative value.
pub open spec fn nonneg_board(b: Seq<Seq<int>>) -> bool {
    forall|i: int| 0 <= i < b.len() ==> all_nonneg(#[trigger] b[i])
}

/// Reading a line backwards keeps its sum.
pub proof fn lemma_total_reversed(s: Seq<int>)
    ensures
        total(reversed(s)) == total(s),
    decreases s.len(),
{
    if s.len() > 0 {
        assert(reversed(s) =~= seq![s.last()] + reversed(s.drop_last()));
        lemma_total_prepend(s.last(), reversed(s.drop_last()));
        lemma_total_reversed(s.drop_last());
    }
}

/// A part of a sum of non-negative terms is at most the sum.
pub proof fn lemma_total_prefix(s: Seq<int>, i: int)
    requires
        0 <= i <= s.len(),
        all_nonneg(s),
    ensures
        total(s.subrange(0, i)) <= total(s),
    decreases s.len() - i,
{
    if i < s.len() {
        lemma_total_prefix(s, i + 1);
        assert(s.subrange(0, i + 1).drop_last() =~= s.subrange(0, i));
    } else {
        assert(s.subrange(0, i) =~= s);
    }
}

/// A move in any direction is the move to the Right on the board turned so
/// that the direction points right, turned back afterwards, and earns the
/// same score.
pub proof fn lemma_move_by_rotation(b: Seq<Seq<int>>, d: MoveDirection)
    requires
        square(b),
        nonneg_board(b),
    ensures
        rotated(rows_slid(rotated(b, turns(d))), 4 - turns(d)) == moved(b, d),
        total(row_gains(rotated(b, turns(d)))) == move_gain(b, d),
{
    let n = b.len() as int;
    let k = turns(d);
    let r = rotated(b, k);
    let lines = Seq::new(b.len(), |i: int| line_gain(line(b, d, i)));
    assert forall|i: int| 0 <= i < n implies #[trigger] r[i] =~= (if k == 1 || k == 2 {
        line(b, d, n - 1 - i)
    } else {
        line(b, d, i)
    }) by {}
    assert forall|i: int| 0 <= i < n implies all_nonneg(#[trigger] r[i]) && r[i].len() == n by {
        assert forall|j: int| 0 <= j < n implies r[i][j] >= 0 by {
            let (a, c) = rotation_source(n, k, i, j);
            assert(all_nonneg(b[a]));
        }
    }
    assert forall|i: int| 0 <= i < n implies #[trigger] slid(r[i]).len() == n by {
        lemma_slid_len(r[i]);
    }
    let s = rows_slid(r);
    let out = rotated(s, 4 - k);
    let m = moved(b, d);
    assert forall|i: int| 0 <= i < n implies #[trigger] out[i] =~= m[i] by {
        assert forall|j: int| 0 <= j < n implies out[i][j] == m[i][j] by {
            if k == 1 {
                assert((4 - k) % 4 == 3);
                assert(r[n - 1 - j] =~= column(b, j));
            } else if k == 2 {
                assert((4 - k) % 4 == 2);
                assert(r[n - 1 - i] =~= reversed(b[i]));
            } else if k == 3 {
                assert((4 - k) % 4 == 1);
                assert(r[j] =~= reversed(column(b, j)));
            } else {
                assert((4 - k) % 4 == 0);
                assert(r[i] =~= b[i]);
            }
        }
        if k == 0 {
            assert(r[i] =~= b[i]);
        } else if k == 2 {
            assert(r[n - 1 - i] =~= reversed(b[i]));
        }
    }
    assert(out =~= m);
    let g = row_gains(r);
    if k == 1 || k == 2 {
        assert(g =~= reversed(lines));
        lemma_total_reversed(lines);
    } else {
        assert(g =~= lines);
    }
}

/// Whether a move in direction `d` finds some tile that can slide or merge.
pub open spec fn playable(b: Seq<Seq<int>>, d: MoveDirection) -> bool {
    exists|i: int, k: int|
        0 <= i < b.len() && 0 <= k < b.len() - 1 && #[trigger] pair_playable(line(b, d, i), k)
}

/// No move in any direction finds a tile that can slide or merge.
pub open spec fn no_move_left(b: Seq<Seq<int>>) -> bool {
    !playable(b, MoveDirection::Up) && !playable(b, MoveDirection::Down) && !playable(
        b,
        MoveDirection::Left,
    ) && !playable(b, MoveDirection::Right)
}

/// Every cell holds a tile.
pub open spec fn board_full(b: Seq<Seq<int>>) -> bool {
    forall|i: int, j: int| 0 <= i < b.len() && 0 <= j < b.len() ==> #[trigger] b[i][j] != 0
}

/// `after` is `before` with one tile of value 2 or 4 added at row `i`,
/// column `j`, a cell that was empty; every other cell is as it was.
pub open spec fn spawned_at(before: Seq<Seq<int>>, after: Seq<Seq<int>>, i: int, j: int) -> bool {
    &&& 0 <= i < before.len()
    &&& 0 <= j < before.len()
    &&& before[i][j] == 0
    &&& after[i][j] == 2 || after[i][j] == 4
    &&& after == before.update(i, before[i].update(j, after[i][j]))
}

/// A move in a direction where no tile can slide or merge leaves the board
/// as it is and earns nothing.
pub proof fn lemma_no_op_move(b: Seq<Seq<int>>, d: MoveDirection)
    requires
        square(b),
        !playable(b, d),
    ensures
        moved(b, d) == b,
        move_gain(b, d) == 0,
{
    let n = b.len() as int;
    assert forall|i: int| 0 <= i < n implies #[trigger] slid(line(b, d, i)) == line(b, d, i)
        && line_gain(line(b, d, i)) == 0 by {
        assert forall|k: int| 0 <= k < line(b, d, i).len() - 1 implies !#[trigger] pair_playable(
            line(b, d, i),
            k,
        ) by {
            if pair_playable(line(b, d, i), k) {
                assert(playable(b, d));
            }
        }
        lemma_stuck_line(line(b, d, i));
    }
    let m = moved(b, d);
    assert forall|i: int| 0 <= i < n implies #[trigger] m[i] =~= b[i] by {
        match d {
            MoveDirection::Right => {
                assert(slid(line(b, d, i)) == line(b, d, i));
            },
            MoveDirection::Left => {
                assert(slid(line(b, d, i)) == line(b, d, i));
            },
            MoveDirection::Down => {
                assert forall|j: int| 0 <= j < n implies m[i][j] == b[i][j] by {
                    assert(slid(line(b, d, j)) == line(b, d, j));
                }
            },
            MoveDirection::Up => {
                assert forall|j: int| 0 <= j < n implies m[i][j] == b[i][j] by {
                    assert(slid(line(b, d, j)) == line(b, d, j));
                }
            },
        }
    }
    assert(m =~= b);
    assert(Seq::new(b.len(), |i: int| line_gain(line(b, d, i))) =~= Seq::new(
        b.len(),
        |k: int| 0int,
    ));
    lemma_total_zeros(b.len());
}

/// A move in a direction where some tile can slide or merge changes the board.
pub proof fn lemma_playable_move_changes(b: Seq<Seq<int>>, d: MoveDirection)
    requires
        square(b),
        nonneg_board(b),
        playable(b, d),
    ensures
        moved(b, d) != b,
{
    let n = b.len() as int;
    let (i, k) = choose|i: int, k: int|
        0 <= i < n && 0 <= k < n - 1 && #[trigger] pair_playable(line(b, d, i), k);
    let l = line(b, d, i);
    lemma_playable_line_moves(l, k);
    assert(all_nonneg(l)) by {
        assert forall|j: int| 0 <= j < l.len() implies l[j] >= 0 by {
            match d {
                MoveDirection::Right => {},
                MoveDirection::Left => {
                    assert(all_nonneg(b[i]));
                },
                MoveDirection::Down => {
                    assert(all_nonneg(b[j]));
                },
                MoveDirection::Up => {
                    assert(all_nonneg(b[n - 1 - j]));
                },
            }
        }
    }
    lemma_slid_len(l);
    let m = moved(b, d);
    if m == b {
        match d {
            MoveDirection::Right => {
                assert(m[i] == b[i]);
            },
            MoveDirection::Left => {
                assert(m[i] == b[i]);
                assert(slid(l) =~= l) by {
                    assert forall|j: int| 0 <= j < n implies slid(l)[j] == l[j] by {
                        assert(m[i][n - 1 - j] == b[i][n - 1 - j]);
                    }
                }
            },
            MoveDirection::Down => {
                assert(slid(l) =~= l) by {
                    assert forall|j: int| 0 <= j < n implies slid(l)[j] == l[j] by {
                        assert(m[j][i] == b[j][i]);
                    }
                }
            },
            MoveDirection::Up => {
                assert(slid(l) =~= l) by {
                    assert forall|j: int| 0 <= j < n implies slid(l)[j] == l[j] by {
                        assert(m[n - 1 - j][i] == b[n - 1 - j][i]);
                    }
                }
            },
        }
    }
}

/// The game is over exactly when no move in any direction would change the
/// board.
pub proof fn lemma_game_over_iff_no_change(b: Seq<Seq<int>>)
    requires
        square(b),
        nonneg_board(b),
    ensures
        no_move_left(b) <==> (moved(b, MoveDirection::Up) == b && moved(b, MoveDirection::Down)
            == b && moved(b, MoveDirection::Left) == b && moved(b, MoveDirection::Right) == b),
{
    assert forall|d: MoveDirection| #[trigger] playable(b, d) <==> moved(b, d) != b by {
        if playable(b, d) {
            lemma_playable_move_changes(b, d);
        } else {
            lemma_no_op_move(b, d);
        }
    }
}

/// On a full board where no two neighbours in a row or a column are equal,
/// no move is left.
pub proof fn lemma_locked_board_is_over(b: Seq<Seq<int>>)
    requires
        square(b),
        board_full(b),
        forall|i: int, j: int|
            0 <= i < b.len() && 0 <= j < b.len() - 1 ==> #[trigger] b[i][j] != b[i][j + 1],
        forall|i: int, j: int|
            0 <= i < b.len() - 1 && 0 <= j < b.len() ==> #[trigger] b[i][j] != b[i + 1][j],
    ensures
        no_move_left(b),
{
    let n = b.len() as int;
    assert forall|d: MoveDirection, i: int, k: int|
        0 <= i < n && 0 <= k < n - 1 implies !#[trigger] pair_playable(line(b, d, i), k) by {
        match d {
            MoveDirection::Right => {
                assert(b[i][k] != b[i][k + 1] && b[i][k + 1] != 0);
            },
            MoveDirection::Left => {
                assert(b[i][n - 2 - k] != b[i][n - 2 - k + 1] && b[i][n - 2 - k] != 0);
            },
            MoveDirection::Down => {
                assert(b[k][i] != b[k + 1][i] && b[k + 1][i] != 0);
            },
            MoveDirection::Up => {
                assert(b[n - 2 - k][i] != b[n - 2 - k + 1][i] && b[n - 2 - k][i] != 0);
            },
        }
    }
}

/// In a line that starts with a tile and ends with an empty cell, some tile
/// is followed by an empty cell.
proof fn lemma_tile_before_gap(p: Seq<int>) -> (k: int)
    requires
        p.len() > 0,
        p[0] != 0,
        p[p.len() - 1] == 0,
    ensures
        0 <= k < p.len() - 1,
        p[k] != 0,
        p[k + 1] == 0,
    decreases p.len(),
{
    if p[1] == 0 {
        0
    } else {
        let k = lemma_tile_before_gap(p.drop_first());
        k + 1
    }
}

/// A board with both an empty cell and a tile has a move left: some tile has
/// an empty neighbour, and the move toward that neighbour slides it.
pub proof fn lemma_gap_leaves_move(b: Seq<Seq<int>>, ei: int, ej: int, oi: int, oj: int)
    requires
        square(b),
        0 <= ei < b.len(),
        0 <= ej < b.len(),
        0 <= oi < b.len(),
        0 <= oj < b.len(),
        b[ei][ej] == 0,
        b[oi][oj] != 0,
    ensures
        !no_move_left(b),
{
    let n = b.len() as int;
    if b[oi][ej] == 0 {
        if oj < ej {
            let p = b[oi].subrange(oj, ej + 1);
            let k = lemma_tile_before_gap(p);
            assert(pair_playable(line(b, MoveDirection::Right, oi), oj + k));
        } else {
            let l = line(b, MoveDirection::Left, oi);
            let p = l.subrange(n - 1 - oj, n - ej);
            let k = lemma_tile_before_gap(p);
            assert(pair_playable(l, n - 1 - oj + k));
        }
    } else {
        if oi < ei {
            let l = line(b, MoveDirection::Down, ej);
            let p = l.subrange(oi, ei + 1);
            let k = lemma_tile_before_gap(p);
            assert(pair_playable(l, oi + k));
        } else {
            let l = line(b, MoveDirection::Up, ej);
            let p = l.subrange(n - 1 - oi, n - ei);
            let k = lemma_tile_before_gap(p);
            assert(pair_playable(l, n - 1 - oi + k));
        }
    }
}

/// A sum of `s.len()` terms, each between 0 and `c`, is at most `s.len() * c`.
pub proof fn lemma_total_bound(s: Seq<int>, c: int)
    requires
        forall|k: int| 0 <= k < s.len() ==> 0 <= #[trigger] s[k] <= c,
    ensures
        0 <= total(s) <= s.len() * c,
    decreases s.len(),
{
    if s.len() > 0 {
        lemma_total_bound(s.drop_last(), c);
        let m = s.len() - 1;
        assert(m * c + c == s.len() * c) by (nonlinear_arith)
            requires
                m == s.len() - 1,
        ;
    }
}

/// A move earns at most `n * n` times the largest tile of the board.
pub proof fn lemma_gain_bound(b: Seq<Seq<int>>, d: MoveDirection, top: int)
    requires
        square(b),
        forall|i: int, j: int|
            0 <= i < b.len() && 0 <= j < b.len() ==> 0 <= #[trigger] b[i][j] <= top,
    ensures
        move_gain(b, d) <= b.len() * (b.len() * top),
{
    let n = b.len() as int;
    let gains = Seq::new(b.len(), |i: int| line_gain(line(b, d, i)));
    assert forall|i: int| 0 <= i < n implies 0 <= #[trigger] gains[i] <= n * top by {
        let l = line(b, d, i);
        assert forall|k: int| 0 <= k < l.len() implies 0 <= #[trigger] l[k] <= top by {
            match d {
                MoveDirection::Right => {},
                MoveDirection::Left => {
                    assert(b[i][n - 1 - k] == l[k]);
                },
                MoveDirection::Down => {
                    assert(b[k][i] == l[k]);
                },
                MoveDirection::Up => {
                    assert(b[n - 1 - k][i] == l[k]);
                },
            }
        }
        lemma_total_bound(l, top);
        lemma_merge_cap(l);
    }
    lemma_total_bound(gains, n * top);
}

/// Cell `a` comes before cell `b` when the board is read row by row.
pub open spec fn before_in_rows(a: (usize, usize), b: (usize, usize)) -> bool {
    a.0 < b.0 || (a.0 == b.0 && a.1 < b.1)
}

/// `m` is the largest value on the board, or 0 on a board without cells.
pub open spec fn is_largest(b: Seq<Seq<int>>, m: int) -> bool {
    &&& forall|i: int, j: int| 0 <= i < b.len() && 0 <= j < b.len() ==> #[trigger] b[i][j] <= m
    &&& (b.len() == 0 && m == 0) || exists|i: int, j: int|
        0 <= i < b.len() && 0 <= j < b.len() && #[trigger] b[i][j] == m
}

/// Turning a board by `k` quarter turns and back by `k` gives the board
/// again, and four quarter turns give the board unchanged.
pub proof fn lemma_rotation_round_trip(b: Seq<Seq<int>>, k: int)
    requires
        square(b),
    ensures
        rotated(rotated(b, k), -k) == b,
        rotated(b, 4) == b,
{
    let n = b.len() as int;
    let r = rotated(b, k);
    let back = rotated(r, -k);
    assert forall|i: int| 0 <= i < n implies #[trigger] back[i] =~= b[i] by {
        assert forall|j: int| 0 <= j < n implies back[i][j] == b[i][j] by {
            let (a, c) = rotation_source(n, -k, i, j);
            let (a2, c2) = rotation_source(n, k, a, c);
            assert((-k) % 4 == (4 - k % 4) % 4);
            assert(a2 == i && c2 == j);
        }
    }
    assert(back =~= b);
    let four = rotated(b, 4);
    assert forall|i: int| 0 <= i < n implies #[trigger] four[i] =~= b[i] by {}
    assert(four =~= b);
}

/// Quarter turn counts that agree modulo four turn a board alike.
pub proof fn lemma_rotated_mod(b: Seq<Seq<int>>, k1: int, k2: int)
    requires
        k1 % 4 == k2 % 4,
    ensures
        rotated(b, k1) == rotated(b, k2),
{
    let r1 = rotated(b, k1);
    let r2 = rotated(b, k2);
    assert forall|i: int| 0 <= i < b.len() implies #[trigger] r1[i] =~= r2[i] by {}
    assert(r1 =~= r2);
}

} // verus!
