use crate::board::{
    before_in_rows, board_full, is_largest, lemma_gain_bound, lemma_move_by_rotation,
    lemma_no_op_move, lemma_playable_move_changes, lemma_rotated_mod, lemma_total_prefix, line,
    move_gain, moved, no_move_left, nonneg_board, playable, rotated, rotation_source, row_gains,
    rows_slid, spawned_at, square, turns,
};
use crate::line::{all_nonneg, lemma_slid_len, line_of, pair_playable, slid, slide_row, total};
use vstd::prelude::*;

verus! {

/// An N by N board of tiles and the score earned on it. A cell holds 0 when
/// it is empty.
#[derive(Debug, Clone, PartialEq, Eq)]
pub struct Grid<const N: usize> {
    pub tiles: [[u32; N]; N],
    pub score: u32,
}

/// Why a board operation failed.
#[derive(Debug, Clone, Copy, PartialEq, Eq)]
pub enum GridError {
    /// A tile was to be added, and no cell is empty.
    GridFull,
}

/// The side of the board toward which a move pushes the tiles.
#[derive(Debug, Clone, Copy, PartialEq, Eq, Structural)]
pub enum MoveDirection {
    Up,
    Down,
    Left,
    Right,
}

/// The values of all cells, row by row.
pub open spec fn grid_cells<const N: usize>(t: [[u32; N]; N]) -> Seq<Seq<int>> {
    Seq::new(N as nat, |i: int| line_of(t[i]))
}

/// Relies on rand's `Rng::gen_range` with the thread-local generator: a
/// value of the range `0..n`, which must not be empty.
#[verifier::external_body]
fn random_below(n: usize) -> (r: usize)
    requires
        n > 0,
    ensures
        r < n,
{
    rand::Rng::gen_range(&mut rand::thread_rng(), 0..n)
}

/// Relies on rand's `Rng::gen_ratio` with the thread-local generator: true
/// with chance `numerator / denominator`; always true when the two are equal
/// and never when `numerator` is zero. It panics when `denominator` is zero
/// or smaller than `numerator`.
#[verifier::external_body]
fn random_ratio(numerator: u32, denominator: u32) -> (r: bool)
    requires
        0 < denominator,
        numerator <= denominator,
    ensures
        numerator == denominator ==> r,
        numerator == 0 ==> !r,
{
    rand::Rng::gen_ratio(&mut rand::thread_rng(), numerator, denominator)
}

impl MoveDirection {
    /// The four directions.
    pub fn iterator() -> (r: [MoveDirection; 4])
        ensures
            r@ == seq![MoveDirection::Up, MoveDirection::Down, MoveDirection::Left, MoveDirection::Right],
    {
        let r = [MoveDirection::Up, MoveDirection::Down, MoveDirection::Left, MoveDirection::Right];
        assert(r@ =~= seq![MoveDirection::Up, MoveDirection::Down, MoveDirection::Left, MoveDirection::Right]);
        r
    }
}

/// The coordinates of an N by N board, row by row: entry `k` is the cell at
/// row `k / N`, column `k % N`.
pub fn grid_coord_iterator<const N: usize>() -> (r: Vec<(usize, usize)>)
    ensures
        r@.len() == N * N,
        forall|k: int|
            0 <= k < r@.len() ==> (#[trigger] r@[k]).0 < N && r@[k].1 < N && r@[k].0 * N + r@[k].1
                == k,
{
    let mut r: Vec<(usize, usize)> = Vec::new();
    let mut i: usize = 0;
    while i < N
        invariant
            0 <= i <= N,
            r@.len() == i * N,
            forall|k: int|
                0 <= k < r@.len() ==> (#[trigger] r@[k]).0 < N && r@[k].1 < N && r@[k].0 * N
                    + r@[k].1 == k,
        decreases N - i,
    {
        let mut j: usize = 0;
        while j < N
            invariant
                0 <= i < N,
                0 <= j <= N,
                r@.len() == i * N + j,
                forall|k: int|
                    0 <= k < r@.len() ==> (#[trigger] r@[k]).0 < N && r@[k].1 < N && r@[k].0 * N
                        + r@[k].1 == k,
            decreases N - j,
        {
            r.push((i, j));
            j = j + 1;
        }
        assert((i + 1) * N == i * N + N) by (nonlinear_arith);
        i = i + 1;
    }
    r
}

impl<const N: usize> Grid<N> {
    pub open spec fn cells(self) -> Seq<Seq<int>> {
        grid_cells(self.tiles)
    }
}

/// Copies the tiles of `src` turned by `k` quarter turns.
fn rotated_tiles<const N: usize>(src: &[[u32; N]; N], k: u32) -> (out: [[u32; N]; N])
    requires
        k < 4,
    ensures
        grid_cells(out) == rotated(grid_cells(*src), k as int),
{
    let mut out: [[u32; N]; N] = *src;
    let ghost n = N as int;
    let mut i: usize = 0;
    while i < N
        invariant
            k < 4,
            n == N,
            0 <= i <= N,
            forall|a: int, c: int|
                0 <= a < i && 0 <= c < N ==> #[trigger] out[a][c] == src[rotation_source(
                    n,
                    k as int,
                    a,
                    c,
                ).0][rotation_source(n, k as int, a, c).1],
        decreases N - i,
    {
        let mut row: [u32; N] = out[i];
        let mut j: usize = 0;
        while j < N
            invariant
                k < 4,
                n == N,
                0 <= i < N,
                0 <= j <= N,
                forall|c: int|
                    0 <= c < j ==> #[trigger] row[c] == src[rotation_source(
                        n,
                        k as int,
                        i as int,
                        c,
                    ).0][rotation_source(n, k as int, i as int, c).1],
            decreases N - j,
        {
            let ghost sa = rotation_source(n, k as int, i as int, j as int).0;
            let ghost sc = rotation_source(n, k as int, i as int, j as int).1;
            assert((k as int) % 4 == k as int);
            let v = if k == 1 {
                src[j][N - 1 - i]
            } else if k == 2 {
                src[N - 1 - i][N - 1 - j]
            } else if k == 3 {
                src[N - 1 - j][i]
            } else {
                src[i][j]
            };
            assert(0 <= sa < n && 0 <= sc < n);
            assert(v == src[sa][sc]);
            row[j] = v;
            j = j + 1;
        }
        out[i] = row;
        i = i + 1;
    }
    let ghost g = grid_cells(out);
    let ghost r = rotated(grid_cells(*src), k as int);
    assert forall|a: int| 0 <= a < n implies #[trigger] g[a] =~= r[a] by {}
    assert(g =~= r);
    out
}

/// The cells of a board of `u32` values form a square of non-negative values.
pub proof fn lemma_cells_nonneg<const N: usize>(t: [[u32; N]; N])
    ensures
        nonneg_board(grid_cells(t)),
        square(grid_cells(t)),
{
    let b = grid_cells(t);
    assert forall|i: int| 0 <= i < b.len() implies all_nonneg(#[trigger] b[i]) by {}
}

/// The quarter turns that bring `d` to Right.
fn quarter_turns(d: MoveDirection) -> (k: u32)
    ensures
        k == turns(d),
{
    match d {
        MoveDirection::Right => 0,
        MoveDirection::Down => 1,
        MoveDirection::Left => 2,
        MoveDirection::Up => 3,
    }
}

/// Slides every row toward its last cell and returns the score earned.
fn slide_rows<const N: usize>(t: &mut [[u32; N]; N]) -> (gain: u32)
    requires
        total(row_gains(grid_cells(*old(t)))) <= u32::MAX,
    ensures
        grid_cells(*final(t)) == rows_slid(grid_cells(*old(t))),
        gain == total(row_gains(grid_cells(*old(t)))),
{
    let ghost b = grid_cells(*t);
    let ghost gains = row_gains(b);
    proof {
        lemma_cells_nonneg(*t);
        assert forall|a: int| 0 <= a < N implies #[trigger] gains[a] >= 0 by {
            lemma_slid_len(b[a]);
        }
        assert(gains.subrange(0, 0) =~= Seq::<int>::empty());
    }
    let mut gain: u32 = 0;
    let mut i: usize = 0;
    while i < N
        invariant
            0 <= i <= N,
            b == grid_cells(*old(t)),
            gains == row_gains(b),
            all_nonneg(gains),
            total(gains) <= u32::MAX,
            forall|a: int| 0 <= a < i ==> line_of(#[trigger] t[a]) == slid(b[a]),
            forall|a: int| i <= a < N ==> #[trigger] t[a] == old(t)[a],
            gain == total(gains.subrange(0, i as int)),
        decreases N - i,
    {
        proof {
            lemma_total_prefix(gains, i as int + 1);
            assert(gains.subrange(0, i as int + 1).drop_last() =~= gains.subrange(0, i as int));
        }
        let mut row: [u32; N] = t[i];
        let g = slide_row(&mut row);
        t[i] = row;
        gain = gain + g;
        i = i + 1;
    }
    proof {
        assert(gains.subrange(0, N as int) =~= gains);
        let after = grid_cells(*t);
        assert forall|a: int| 0 <= a < N implies #[trigger] after[a] == rows_slid(b)[a] by {}
        assert(after =~= rows_slid(b));
    }
    gain
}

/// Whether two boards hold the same tiles.
fn same_tiles<const N: usize>(a: &[[u32; N]; N], b: &[[u32; N]; N]) -> (r: bool)
    ensures
        r == (grid_cells(*a) == grid_cells(*b)),
{
    let mut i: usize = 0;
    while i < N
        invariant
            0 <= i <= N,
            forall|x: int, y: int| 0 <= x < i && 0 <= y < N ==> #[trigger] a[x][y] == b[x][y],
        decreases N - i,
    {
        let mut j: usize = 0;
        while j < N
            invariant
                0 <= i < N,
                0 <= j <= N,
                forall|x: int, y: int| 0 <= x < i && 0 <= y < N ==> #[trigger] a[x][y] == b[x][y],
                forall|y: int| 0 <= y < j ==> #[trigger] a[i as int][y] == b[i as int][y],
            decreases N - j,
        {
            if a[i][j] != b[i][j] {
                assert(grid_cells(*a)[i as int][j as int] != grid_cells(*b)[i as int][j as int]);
                return false;
            }
            j = j + 1;
        }
        i = i + 1;
    }
    let ghost ga = grid_cells(*a);
    let ghost gb = grid_cells(*b);
    assert forall|x: int| 0 <= x < N implies #[trigger] ga[x] =~= gb[x] by {}
    assert(ga =~= gb);
    true
}

impl<const N: usize> Grid<N> {
    /// Moves every tile as far as it goes in `direction`, merging equal
    /// neighbours once each and adding the value of each merged tile to the
    /// score. Returns whether any tile moved.
    pub fn move_tiles(&mut self, direction: MoveDirection) -> (changed: bool)
        requires
            old(self).score + move_gain(old(self).cells(), direction) <= u32::MAX,
        ensures
            final(self).cells() == moved(old(self).cells(), direction),
            final(self).score == old(self).score + move_gain(old(self).cells(), direction),
            changed == (final(self).cells() != old(self).cells()),
            changed == playable(old(self).cells(), direction),
    {
        let before = self.tiles;
        let k = quarter_turns(direction);
        proof {
            lemma_cells_nonneg(self.tiles);
            lemma_move_by_rotation(self.cells(), direction);
            if playable(self.cells(), direction) {
                lemma_playable_move_changes(self.cells(), direction);
            } else {
                lemma_no_op_move(self.cells(), direction);
            }
        }
        let mut turned = rotated_tiles(&self.tiles, k);
        let gain = slide_rows(&mut turned);
        self.score = self.score + gain;
        let back: u32 = if k == 0 {
            0
        } else {
            4 - k
        };
        self.tiles = rotated_tiles(&turned, back);
        proof {
            lemma_rotated_mod(grid_cells(turned), back as int, 4 - k as int);
        }
        !same_tiles(&before, &self.tiles)
    }

    /// The largest value on the board.
    fn largest_tile(&self) -> (m: u32)
        ensures
            forall|i: int, j: int| 0 <= i < N && 0 <= j < N ==> #[trigger] self.tiles[i][j] <= m,
            is_largest(self.cells(), m as int),
    {
        let mut m: u32 = 0;
        let mut i: usize = 0;
        while i < N
            invariant
                0 <= i <= N,
                forall|x: int, y: int| 0 <= x < i && 0 <= y < N ==> #[trigger] self.tiles[x][y] <= m,
                m == 0 || exists|x: int, y: int| 0 <= x < N && 0 <= y < N && #[trigger] self.tiles[x][y] == m,
            decreases N - i,
        {
            let mut j: usize = 0;
            while j < N
                invariant
                    0 <= i < N,
                    0 <= j <= N,
                    forall|x: int, y: int|
                        0 <= x < i && 0 <= y < N ==> #[trigger] self.tiles[x][y] <= m,
                    forall|y: int| 0 <= y < j ==> #[trigger] self.tiles[i as int][y] <= m,
                    m == 0 || exists|x: int, y: int| 0 <= x < N && 0 <= y < N && #[trigger] self.tiles[x][y] == m,
                decreases N - j,
            {
                if self.tiles[i][j] > m {
                    m = self.tiles[i][j];
                    assert(self.tiles[i as int][j as int] == m);
                }
                j = j + 1;
            }
            i = i + 1;
        }
        proof {
            let b = self.cells();
            assert forall|x: int, y: int| 0 <= x < N && 0 <= y < N implies #[trigger] b[x][y] <= m by {
                assert(self.tiles[x][y] <= m);
            }
            if N > 0 && m == 0 {
                assert(self.tiles[0][0] <= 0);
                assert(b[0][0] == 0);
            } else if N > 0 {
                let (x, y) = choose|x: int, y: int| 0 <= x < N && 0 <= y < N && #[trigger] self.tiles[x][y] == m;
                assert(b[x][y] == m);
            }
        }
        m
    }

    /// Whether the score is sure to stay within `u32` whatever move comes
    /// next: it holds when the score plus `N * N` times the largest tile
    /// fits, which bounds what any move earns.
    pub fn move_fits(&self) -> (r: bool)
        ensures
            r ==> forall|d: MoveDirection|
                self.score + #[trigger] move_gain(self.cells(), d) <= u32::MAX,
            forall|m: int|
                #[trigger] is_largest(self.cells(), m) ==> (r == (self.score + N * N * m
                    <= u32::MAX)),
    {
        let top = self.largest_tile();
        proof {
            let b = self.cells();
            assert forall|m: int| #[trigger] is_largest(b, m) implies m == top by {
                if N > 0 {
                    let (x, y) = choose|x: int, y: int|
                        0 <= x < N && 0 <= y < N && #[trigger] b[x][y] == m;
                    let (x2, y2) = choose|x: int, y: int|
                        0 <= x < N && 0 <= y < N && #[trigger] b[x][y] == top;
                    assert(b[x][y] <= top && b[x2][y2] <= m);
                }
            }
        }
        let n = N as u64;
        let bound = if top == 0 {
            Some(0u64)
        } else {
            match n.checked_mul(n) {
                Some(nn) => nn.checked_mul(top as u64),
                None => None,
            }
        };
        proof {
            if top == 0 {
                assert(N * N * top == 0) by (nonlinear_arith)
                    requires
                        top == 0,
                ;
            } else {
                assert(N * N * top >= N * N) by (nonlinear_arith)
                    requires
                        top >= 1,
                ;
            }
        }
        match bound {
            Some(g) => {
                assert(g == N * N * top);
                if g <= u32::MAX as u64 - self.score as u64 {
                    proof {
                        let b = self.cells();
                        assert forall|d: MoveDirection|
                            self.score + #[trigger] move_gain(b, d) <= u32::MAX by {
                            assert forall|i: int, j: int| 0 <= i < N && 0 <= j < N implies 0
                                <= #[trigger] b[i][j] <= top by {
                                assert(self.tiles[i][j] <= top);
                            }
                            lemma_gain_bound(b, d, top as int);
                            assert(N * (N * top) == (N * N) * top) by (nonlinear_arith);
                        }
                    }
                    true
                } else {
                    false
                }
            },
            None => false,
        }
    }

    /// The value of cell `k` of line `i` for a move in direction `d`.
    fn line_cell(&self, d: MoveDirection, i: usize, k: usize) -> (v: u32)
        requires
            i < N,
            k < N,
        ensures
            v as int == line(self.cells(), d, i as int)[k as int],
    {
        match d {
            MoveDirection::Right => self.tiles[i][k],
            MoveDirection::Left => self.tiles[i][N - 1 - k],
            MoveDirection::Down => self.tiles[k][i],
            MoveDirection::Up => self.tiles[N - 1 - k][i],
        }
    }

    /// Whether a move in `direction` finds a tile whose next cell in that
    /// direction is empty or holds an equal tile.
    pub fn can_move(&self, direction: MoveDirection) -> (r: bool)
        ensures
            r == playable(self.cells(), direction),
    {
        let ghost b = self.cells();
        let mut i: usize = 0;
        while i < N
            invariant
                0 <= i <= N,
                b == self.cells(),
                forall|a: int, k: int|
                    0 <= a < i && 0 <= k < N - 1 ==> !#[trigger] pair_playable(
                        line(b, direction, a),
                        k,
                    ),
            decreases N - i,
        {
            let mut k: usize = 0;
            while k + 1 < N
                invariant
                    0 <= i < N,
                    0 <= k < N,
                    b == self.cells(),
                    forall|a: int, c: int|
                        0 <= a < i && 0 <= c < N - 1 ==> !#[trigger] pair_playable(
                            line(b, direction, a),
                            c,
                        ),
                    forall|c: int| 0 <= c < k ==> !#[trigger] pair_playable(line(b, direction, i as int), c),
                decreases N - k,
            {
                let here = self.line_cell(direction, i, k);
                let next = self.line_cell(direction, i, k + 1);
                if here != 0 && (next == 0 || next == here) {
                    assert(pair_playable(line(b, direction, i as int), k as int));
                    return true;
                }
                k = k + 1;
            }
            i = i + 1;
        }
        false
    }

    /// Whether no direction has a tile that can slide or merge.
    pub fn game_over(&self) -> (r: bool)
        ensures
            r == no_move_left(self.cells()),
    {
        !self.can_move(MoveDirection::Up) && !self.can_move(MoveDirection::Down) && !self.can_move(
            MoveDirection::Left,
        ) && !self.can_move(MoveDirection::Right)
    }

    /// Whether every cell holds a tile.
    pub fn is_full(&self) -> (r: bool)
        ensures
            r == board_full(self.cells()),
    {
        let mut i: usize = 0;
        while i < N
            invariant
                0 <= i <= N,
                forall|x: int, y: int| 0 <= x < i && 0 <= y < N ==> #[trigger] self.tiles[x][y] != 0,
            decreases N - i,
        {
            let mut j: usize = 0;
            while j < N
                invariant
                    0 <= i < N,
                    0 <= j <= N,
                    forall|x: int, y: int|
                        0 <= x < i && 0 <= y < N ==> #[trigger] self.tiles[x][y] != 0,
                    forall|y: int| 0 <= y < j ==> #[trigger] self.tiles[i as int][y] != 0,
                decreases N - j,
            {
                if self.tiles[i][j] == 0 {
                    assert(self.cells()[i as int][j as int] == 0);
                    return false;
                }
                j = j + 1;
            }
            i = i + 1;
        }
        assert forall|x: int, y: int| 0 <= x < N && 0 <= y < N implies #[trigger] self.cells()[x][y]
            != 0 by {
            assert(self.tiles[x][y] != 0);
        }
        true
    }

    /// The coordinates of every empty cell, row by row.
    pub fn empty_cells(&self) -> (r: Vec<(usize, usize)>)
        ensures
            forall|k: int|
                0 <= k < r@.len() ==> (#[trigger] r@[k]).0 < N && r@[k].1 < N && self.tiles[r@[k].0 as int][r@[k].1 as int] == 0,
            forall|i: usize, j: usize|
                i < N && j < N && #[trigger] self.tiles[i as int][j as int] == 0 ==> r@.contains((i, j)),
            forall|k: int, l: int|
                0 <= k < l < r@.len() ==> before_in_rows(#[trigger] r@[k], #[trigger] r@[l]),
    {
        let mut r: Vec<(usize, usize)> = Vec::new();
        let mut i: usize = 0;
        while i < N
            invariant
                0 <= i <= N,
                forall|k: int|
                    0 <= k < r@.len() ==> (#[trigger] r@[k]).0 < N && r@[k].1 < N && self.tiles[r@[k].0 as int][r@[k].1 as int] == 0,
                forall|x: usize, y: usize|
                    x < i && y < N && #[trigger] self.tiles[x as int][y as int] == 0 ==> r@.contains((x, y)),
                forall|k: int, l: int|
                    0 <= k < l < r@.len() ==> before_in_rows(#[trigger] r@[k], #[trigger] r@[l]),
                forall|k: int| 0 <= k < r@.len() ==> (#[trigger] r@[k]).0 < i,
            decreases N - i,
        {
            let mut j: usize = 0;
            while j < N
                invariant
                    0 <= i < N,
                    0 <= j <= N,
                    forall|k: int|
                        0 <= k < r@.len() ==> (#[trigger] r@[k]).0 < N && r@[k].1 < N && self.tiles[r@[k].0 as int][r@[k].1 as int] == 0,
                    forall|x: usize, y: usize|
                        ((x < i && y < N) || (x == i && y < j)) && #[trigger] self.tiles[x as int][y as int] == 0 ==> r@.contains((x, y)),
                    forall|k: int, l: int|
                        0 <= k < l < r@.len() ==> before_in_rows(#[trigger] r@[k], #[trigger] r@[l]),
                    forall|k: int| 0 <= k < r@.len() ==> before_in_rows(#[trigger] r@[k], (i, j)),
                decreases N - j,
            {
                if self.tiles[i][j] == 0 {
                    let ghost prev = r@;
                    r.push((i, j));
                    assert(r@[r@.len() - 1] == (i, j));
                    assert forall|x: usize, y: usize|
                        ((x < i && y < N) || (x == i && y < j)) && #[trigger] self.tiles[x as int][y as int] == 0 implies r@.contains((x, y)) by {
                        let k = choose|k: int| 0 <= k < prev.len() && prev[k] == (x, y);
                        assert(r@[k] == (x, y));
                    }
                }
                j = j + 1;
            }
            assert forall|k: int| 0 <= k < r@.len() implies (#[trigger] r@[k]).0 < i + 1 by {
                assert(before_in_rows(r@[k], (i, j)));
            }
            i = i + 1;
        }
        r
    }

    /// Puts a tile of value 2 (when `two` holds) or 4 into the empty cell at
    /// row `i`, column `j`.
    pub fn place_tile(&mut self, i: usize, j: usize, two: bool)
        requires
            i < N,
            j < N,
            old(self).tiles[i as int][j as int] == 0,
        ensures
            final(self).cells() == old(self).cells().update(
                i as int,
                old(self).cells()[i as int].update(j as int, if two { 2 } else { 4 }),
            ),
            final(self).score == old(self).score,
    {
        let ghost before = self.cells();
        let mut row: [u32; N] = self.tiles[i];
        row[j] = if two {
            2
        } else {
            4
        };
        self.tiles[i] = row;
        let ghost after = self.cells();
        let ghost want = before.update(i as int, before[i as int].update(j as int, if two { 2 } else { 4 }));
        assert forall|a: int| 0 <= a < N implies #[trigger] after[a] =~= want[a] by {}
        assert(after =~= want);
    }

    /// Adds a tile to an empty cell picked uniformly at random: a 2 with
    /// chance three in four, else a 4. Fails with `GridFull`, changing
    /// nothing, when no cell is empty.
    pub fn random_spawn_tile(&mut self) -> (r: Result<(), GridError>)
        ensures
            r is Err <==> board_full(old(self).cells()),
            r is Err ==> r == Err::<(), GridError>(GridError::GridFull) && *final(self) == *old(self),
            r is Ok ==> exists|i: int, j: int| #[trigger] spawned_at(old(self).cells(), final(self).cells(), i, j),
            final(self).score == old(self).score,
    {
        let empty = self.empty_cells();
        if empty.len() == 0 {
            assert forall|x: int, y: int| 0 <= x < N && 0 <= y < N implies #[trigger] self.cells()[x][y] != 0 by {
                if self.tiles[x][y] == 0 {
                    assert(empty@.contains((x as usize, y as usize)));
                }
            }
            return Err(GridError::GridFull);
        }
        let pick = random_below(empty.len());
        let (i, j) = empty[pick];
        let two = random_ratio(3, 4);
        let ghost before = self.cells();
        assert(before[i as int][j as int] == 0);
        self.place_tile(i, j, two);
        assert(spawned_at(before, self.cells(), i as int, j as int));
        Ok(())
    }

    pub fn tiles(&self) -> (r: &[[u32; N]; N])
        ensures
            *r == self.tiles,
    {
        &self.tiles
    }

    pub fn score(&self) -> (r: &u32)
        ensures
            *r == self.score,
    {
        &self.score
    }

    /// Turns the board by `n_rotation` quarter turns; a negative count turns
    /// the other way.
    pub fn rotate_90_deg(&mut self, n_rotation: i32)
        ensures
            final(self).cells() == rotated(old(self).cells(), n_rotation as int),
            final(self).score == old(self).score,
    {
        let k: u32 = if n_rotation >= 0 {
            (n_rotation % 4) as u32
        } else {
            (3 - (-(n_rotation + 1)) % 4) as u32
        };
        assert(k as int == (n_rotation as int) % 4);
        let ghost before = self.cells();
        self.tiles = rotated_tiles(&self.tiles, k);
        let ghost r1 = rotated(before, k as int);
        let ghost r2 = rotated(before, n_rotation as int);
        assert forall|a: int| 0 <= a < N implies #[trigger] r1[a] =~= r2[a] by {}
        assert(r1 =~= r2);
    }
}

impl<const N: usize> Default for Grid<N> {
    /// An empty board with score zero.
    fn default() -> (r: Self)
        ensures
            r.cells() == Seq::new(N as nat, |i: int| Seq::new(N as nat, |j: int| 0int)),
            r.score == 0,
    {
        let r = Grid { tiles: [[0u32; N]; N], score: 0 };
        let ghost c = r.cells();
        let ghost e = Seq::new(N as nat, |i: int| Seq::new(N as nat, |j: int| 0int));
        assert forall|i: int| 0 <= i < N implies #[trigger] c[i] =~= e[i] by {}
        assert(c =~= e);
        r
    }
}

} // verus!
