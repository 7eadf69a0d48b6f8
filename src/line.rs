use vstd::prelude::*;

verus! {

/// The tiles of a line in order, with the empty cells (zeros) left out.
pub open spec fn occupied(s: Seq<int>) -> Seq<int>
    decreases s.len(),
{
    if s.len() == 0 {
        Seq::empty()
    } else if s[0] == 0 {
        occupied(s.drop_first())
    } else {
        seq![s[0]] + occupied(s.drop_first())
    }
}

/// Packed tiles after merging toward the end of the line: the two tiles
/// nearest the end merge when they are equal, and a merged tile does not
/// merge again in the same move.
pub open spec fn merged(c: Seq<int>) -> Seq<int>
    decreases c.len(),
{
    if c.len() < 2 {
        c
    } else if c[c.len() - 1] == c[c.len() - 2] {
        merged(c.subrange(0, c.len() - 2)).push(2 * c[c.len() - 1])
    } else {
        merged(c.drop_last()).push(c[c.len() - 1])
    }
}

/// The score that `merged` earns: the value of each tile that a merge forms.
pub open spec fn merge_gain(c: Seq<int>) -> int
    decreases c.len(),
{
    if c.len() < 2 {
        0
    } else if c[c.len() - 1] == c[c.len() - 2] {
        merge_gain(c.subrange(0, c.len() - 2)) + 2 * c[c.len() - 1]
    } else {
        merge_gain(c.drop_last())
    }
}

/// Whether `merged` leaves the first of the packed tiles without a partner,
/// so that a tile placed before it could still merge with it.
pub open spec fn first_unpaired(c: Seq<int>) -> bool
    decreases c.len(),
{
    if c.len() == 0 {
        false
    } else if c.len() == 1 {
        true
    } else if c[c.len() - 1] == c[c.len() - 2] {
        first_unpaired(c.subrange(0, c.len() - 2))
    } else {
        first_unpaired(c.drop_last())
    }
}

/// A line slid and merged toward its end: empty cells first, then the merged tiles.
pub open spec fn slid(s: Seq<int>) -> Seq<int> {
    let m = merged(occupied(s));
    Seq::new((s.len() - m.len()) as nat, |k: int| 0int) + m
}

/// The score that sliding a line toward its end earns.
pub open spec fn line_gain(s: Seq<int>) -> int {
    merge_gain(occupied(s))
}

/// The values of a row of cells.
pub open spec fn line_of<const N: usize>(r: [u32; N]) -> Seq<int> {
    Seq::new(N as nat, |k: int| r[k] as int)
}

/// No value of the line is negative.
pub open spec fn all_nonneg(s: Seq<int>) -> bool {
    forall|k: int| 0 <= k < s.len() ==> s[k] >= 0
}

/// Leaving out the empty cells keeps the order and leaves only tiles.
pub proof fn lemma_occupied(s: Seq<int>)
    ensures
        occupied(s).len() <= s.len(),
        forall|k: int| 0 <= k < occupied(s).len() ==> occupied(s)[k] != 0,
        all_nonneg(s) ==> all_nonneg(occupied(s)),
    decreases s.len(),
{
    if s.len() > 0 {
        lemma_occupied(s.drop_first());
    }
}

/// How `merged`, `merge_gain` and `first_unpaired` change when a tile is
/// placed before the packed tiles `c`, that is, farther from the end.
pub proof fn lemma_merged_prepend(x: int, c: Seq<int>)
    ensures
        merged(seq![x] + c) == (if first_unpaired(c) && c[0] == x {
            seq![2 * x] + merged(c).drop_first()
        } else {
            seq![x] + merged(c)
        }),
        merge_gain(seq![x] + c) == merge_gain(c) + (if first_unpaired(c) && c[0] == x {
            2 * x
        } else {
            0
        }),
        first_unpaired(seq![x] + c) == !(first_unpaired(c) && c[0] == x),
        first_unpaired(c) ==> merged(c).len() > 0 && merged(c)[0] == c[0],
        merged(c).len() <= c.len(),
    decreases c.len(),
{
    let d = seq![x] + c;
    let n = c.len();
    if n == 0 {
        assert(d =~= seq![x]);
    } else if n == 1 {
        assert(d[1] == c[0] && d[0] == x);
        if c[0] == x {
            assert(d.subrange(0, 0) =~= Seq::<int>::empty());
            assert(merged(Seq::<int>::empty()) == Seq::<int>::empty());
            assert(merge_gain(Seq::<int>::empty()) == 0);
            assert(first_unpaired(d) == first_unpaired(d.subrange(0, 0)));
            assert(!first_unpaired(Seq::<int>::empty()));
            assert(merged(d) == merged(d.subrange(0, 0)).push(2 * x));
            assert(seq![2 * x] + merged(c).drop_first() =~= Seq::<int>::empty().push(2 * x));
        } else {
            assert(d.drop_last() =~= seq![x]);
            assert(merged(d) == merged(d.drop_last()).push(c[0]));
            assert(merge_gain(d) == merge_gain(d.drop_last()));
            assert(first_unpaired(d) == first_unpaired(d.drop_last()));
            assert(first_unpaired(seq![x]));
            assert(seq![x] + merged(c) =~= seq![x].push(c[0]));
        }
    } else if c[n - 1] == c[n - 2] {
        let c2 = c.subrange(0, n - 2);
        assert(d.subrange(0, d.len() - 2) =~= seq![x] + c2);
        lemma_merged_prepend(x, c2);
        if n > 2 {
            assert(c2[0] == c[0]);
        }
        let y = 2 * c[n - 1];
        assert(d[d.len() - 1] == c[n - 1] && d[d.len() - 2] == c[n - 2]);
        assert(merged(d) == merged(seq![x] + c2).push(y));
        assert(merge_gain(d) == merge_gain(seq![x] + c2) + y);
        assert(first_unpaired(d) == first_unpaired(seq![x] + c2));
        if first_unpaired(c2) && c2[0] == x {
            assert(seq![2 * x] + merged(c2).drop_first().push(y) =~= seq![2 * x] + merged(
                c2,
            ).push(y).drop_first());
        } else {
            assert(seq![x] + merged(c2).push(y) =~= (seq![x] + merged(c2)).push(y));
        }
    } else {
        let c1 = c.drop_last();
        assert(d.drop_last() =~= seq![x] + c1);
        lemma_merged_prepend(x, c1);
        assert(c1[0] == c[0]);
        let y = c[n - 1];
        assert(d[d.len() - 1] == c[n - 1] && d[d.len() - 2] == c[n - 2]);
        assert(merged(d) == merged(seq![x] + c1).push(y));
        assert(merge_gain(d) == merge_gain(seq![x] + c1));
        assert(first_unpaired(d) == first_unpaired(seq![x] + c1));
        if first_unpaired(c1) && c1[0] == x {
            assert(seq![2 * x] + merged(c1).drop_first().push(y) =~= seq![2 * x] + merged(
                c1,
            ).push(y).drop_first());
        } else {
            assert(seq![x] + merged(c1).push(y) =~= (seq![x] + merged(c1)).push(y));
        }
    }
}

/// Unfolds `occupied` on the cells of `s` from index `j` on.
pub proof fn lemma_occupied_from(s: Seq<int>, j: int)
    requires
        0 <= j < s.len(),
    ensures
        occupied(s.subrange(j, s.len() as int)) == (if s[j] == 0 {
            occupied(s.subrange(j + 1, s.len() as int))
        } else {
            seq![s[j]] + occupied(s.subrange(j + 1, s.len() as int))
        }),
{
    assert(s.subrange(j, s.len() as int).drop_first() =~= s.subrange(j + 1, s.len() as int));
}

/// The score earned on the cells from index `j` on is at most that of the whole line.
pub proof fn lemma_gain_of_suffix(s: Seq<int>, j: int)
    requires
        0 <= j <= s.len(),
        all_nonneg(s),
    ensures
        merge_gain(occupied(s.subrange(j, s.len() as int))) <= line_gain(s),
    decreases j,
{
    if j == 0 {
        assert(s.subrange(0, s.len() as int) =~= s);
    } else {
        lemma_gain_of_suffix(s, j - 1);
        lemma_occupied_from(s, j - 1);
        let c = occupied(s.subrange(j, s.len() as int));
        lemma_merged_prepend(s[j - 1], c);
    }
}

/// Sliding keeps the length of a line, and earns a score of at least zero.
pub proof fn lemma_slid_len(s: Seq<int>)
    requires
        all_nonneg(s),
    ensures
        slid(s).len() == s.len(),
        line_gain(s) >= 0,
{
    lemma_occupied(s);
    lemma_merged_prepend(0, occupied(s));
    lemma_gain_of_suffix(s, s.len() as int);
    assert(s.subrange(s.len() as int, s.len() as int) =~= Seq::<int>::empty());
}

/// The sum of the values of a line.
pub open spec fn total(s: Seq<int>) -> int
    decreases s.len(),
{
    if s.len() == 0 {
        0
    } else {
        total(s.drop_last()) + s.last()
    }
}

/// A value placed first adds itself to the sum.
pub proof fn lemma_total_prepend(x: int, s: Seq<int>)
    ensures
        total(seq![x] + s) == x + total(s),
    decreases s.len(),
{
    let d = seq![x] + s;
    if s.len() > 0 {
        assert(d.drop_last() =~= seq![x] + s.drop_last());
        assert(d.last() == s.last());
        lemma_total_prepend(x, s.drop_last());
    } else {
        assert(d.drop_last() =~= Seq::<int>::empty());
        assert(d.last() == x);
        assert(total(Seq::<int>::empty()) == 0);
    }
}

/// The sum of two lines put end to end.
pub proof fn lemma_total_concat(a: Seq<int>, b: Seq<int>)
    ensures
        total(a + b) == total(a) + total(b),
    decreases b.len(),
{
    if b.len() == 0 {
        assert(a + b =~= a);
    } else {
        assert((a + b).drop_last() =~= a + b.drop_last());
        lemma_total_concat(a, b.drop_last());
    }
}

/// Empty cells add nothing to a sum.
pub proof fn lemma_total_zeros(n: nat)
    ensures
        total(Seq::new(n, |k: int| 0int)) == 0,
    decreases n,
{
    if n > 0 {
        assert(Seq::new(n, |k: int| 0int).drop_last() =~= Seq::new((n - 1) as nat, |k: int| 0int));
        lemma_total_zeros((n - 1) as nat);
    }
}

/// Leaving out the empty cells keeps the sum.
pub proof fn lemma_total_occupied(s: Seq<int>)
    ensures
        total(occupied(s)) == total(s),
    decreases s.len(),
{
    if s.len() > 0 {
        lemma_total_occupied(s.drop_first());
        assert(s =~= seq![s[0]] + s.drop_first());
        lemma_total_prepend(s[0], s.drop_first());
        lemma_total_prepend(s[0], occupied(s.drop_first()));
    }
}

/// Merging keeps the sum of the packed tiles and earns at most that sum.
pub proof fn lemma_merged_total(c: Seq<int>)
    requires
        all_nonneg(c),
    ensures
        total(merged(c)) == total(c),
        merge_gain(c) <= total(c),
        merge_gain(c) >= 0,
    decreases c.len(),
{
    let n = c.len();
    if n >= 2 {
        let c1 = c.drop_last();
        let c2 = c.subrange(0, n - 2);
        assert(c1.drop_last() =~= c2);
        assert(total(c) == total(c1) + c[n - 1]);
        assert(total(c1) == total(c2) + c1[n - 2]);
        assert(c[n - 1] >= 0 && c[n - 2] >= 0);
        if c[n - 1] == c[n - 2] {
            assert(all_nonneg(c2));
            lemma_merged_total(c2);
            assert(merge_gain(c) == merge_gain(c2) + 2 * c[n - 1]);
            let m = merged(c2).push(2 * c[n - 1]);
            assert(m.drop_last() =~= merged(c2));
        } else {
            assert(all_nonneg(c1));
            lemma_merged_total(c1);
            assert(merge_gain(c) == merge_gain(c1));
            let m = merged(c1).push(c[n - 1]);
            assert(m.drop_last() =~= merged(c1));
        }
    } else if n == 1 {
        assert(c.drop_last() =~= Seq::<int>::empty());
        assert(total(Seq::<int>::empty()) == 0);
        assert(total(c) == c[0]);
    }
}

/// Each tile of a line takes part in at most one merge per move: sliding
/// keeps the sum of the tiles, and the merges earn at most that sum, which a
/// tile merged twice over would exceed.
pub proof fn lemma_merge_cap(s: Seq<int>)
    requires
        all_nonneg(s),
    ensures
        total(slid(s)) == total(s),
        0 <= line_gain(s) <= total(s),
{
    lemma_occupied(s);
    let c = occupied(s);
    lemma_total_occupied(s);
    lemma_merged_total(c);
    let m = merged(c);
    lemma_merged_prepend(0, c);
    lemma_total_concat(Seq::new((s.len() - m.len()) as nat, |k: int| 0int), m);
    lemma_total_zeros((s.len() - m.len()) as nat);
}

/// A tile at position `k` of line `l` that the next cell lets through:
/// the next cell is empty or holds an equal tile.
pub open spec fn pair_playable(l: Seq<int>, k: int) -> bool {
    l[k] != 0 && (l[k + 1] == 0 || l[k + 1] == l[k])
}

/// No tile of the line can slide or merge toward its end.
pub open spec fn stuck(l: Seq<int>) -> bool {
    forall|k: int| 0 <= k < l.len() - 1 ==> !#[trigger] pair_playable(l, k)
}

/// In a stuck line that starts with a tile, every cell holds a tile.
proof fn lemma_stuck_nonzero(l: Seq<int>, k: int)
    requires
        stuck(l),
        l.len() > 0,
        l[0] != 0,
        0 <= k < l.len(),
    ensures
        l[k] != 0,
    decreases k,
{
    if k > 0 {
        lemma_stuck_nonzero(l, k - 1);
        assert(!pair_playable(l, k - 1));
    }
}

/// A line without empty cells is its own list of tiles.
proof fn lemma_occupied_full(l: Seq<int>)
    requires
        forall|k: int| 0 <= k < l.len() ==> l[k] != 0,
    ensures
        occupied(l) == l,
    decreases l.len(),
{
    if l.len() > 0 {
        lemma_occupied_full(l.drop_first());
        assert(seq![l[0]] + l.drop_first() =~= l);
    }
}

/// A line where no tile can slide or merge is left as it is by a slide, which
/// earns nothing.
pub proof fn lemma_stuck_line(l: Seq<int>)
    requires
        stuck(l),
    ensures
        slid(l) == l,
        line_gain(l) == 0,
    decreases l.len(),
{
    if l.len() == 0 {
        assert(slid(l) =~= l);
    } else {
        let x = l[0];
        let r = l.drop_first();
        assert forall|k: int| 0 <= k < r.len() - 1 implies !#[trigger] pair_playable(r, k) by {
            assert(!pair_playable(l, k + 1));
        }
        lemma_stuck_line(r);
        lemma_occupied(r);
        lemma_merged_prepend(0, occupied(r));
        if x == 0 {
            assert(slid(l) =~= seq![0int] + slid(r));
            assert(seq![0int] + r =~= l);
        } else {
            assert forall|k: int| 0 <= k < l.len() implies l[k] != 0 by {
                lemma_stuck_nonzero(l, k);
            }
            lemma_occupied_full(l);
            lemma_occupied_full(r);
            let m = merged(r);
            if r.len() > m.len() {
                assert(slid(r)[0] == 0);
                assert(r[0] == l[1]);
            }
            assert(m =~= slid(r));
            if r.len() > 0 {
                assert(!pair_playable(l, 0));
            }
            lemma_merged_prepend(x, r);
            assert(seq![x] + r =~= l);
            assert(slid(l) =~= l);
        }
    }
}

/// Merging tiles gives tiles, and two equal neighbours make the line shorter.
proof fn lemma_merged_shape(c: Seq<int>)
    requires
        forall|k: int| 0 <= k < c.len() ==> c[k] != 0,
    ensures
        forall|k: int| 0 <= k < merged(c).len() ==> merged(c)[k] != 0,
        (exists|k: int| 0 <= k < c.len() - 1 && #[trigger] c[k] == c[k + 1]) ==> merged(c).len()
            < c.len(),
    decreases c.len(),
{
    let n = c.len();
    lemma_merged_prepend(0, c);
    if n >= 2 {
        let c1 = c.drop_last();
        let c2 = c.subrange(0, n - 2);
        lemma_merged_prepend(0, c1);
        lemma_merged_prepend(0, c2);
        if c[n - 1] == c[n - 2] {
            lemma_merged_shape(c2);
        } else {
            lemma_merged_shape(c1);
            if exists|k: int| 0 <= k < c.len() - 1 && #[trigger] c[k] == c[k + 1] {
                let k = choose|k: int| 0 <= k < c.len() - 1 && #[trigger] c[k] == c[k + 1];
                assert(c1[k] == c1[k + 1]);
            }
        }
    } else if n == 1 {
        if exists|k: int| 0 <= k < c.len() - 1 && #[trigger] c[k] == c[k + 1] {
            let k = choose|k: int| 0 <= k < c.len() - 1 && #[trigger] c[k] == c[k + 1];
        }
    }
}

/// Empty cells in front of a line add no tile.
proof fn lemma_occupied_after_zeros(z: nat, t: Seq<int>)
    ensures
        occupied(Seq::new(z, |k: int| 0int) + t) == occupied(t),
    decreases z,
{
    if z > 0 {
        let s = Seq::new(z, |k: int| 0int) + t;
        assert(s.drop_first() =~= Seq::new((z - 1) as nat, |k: int| 0int) + t);
        lemma_occupied_after_zeros((z - 1) as nat, t);
    } else {
        assert(Seq::new(z, |k: int| 0int) + t =~= t);
    }
}

/// A line where some tile can slide or merge is changed by a slide.
pub proof fn lemma_playable_line_moves(l: Seq<int>, k: int)
    requires
        0 <= k < l.len() - 1,
        pair_playable(l, k),
    ensures
        slid(l) != l,
{
    let c = occupied(l);
    let m = merged(c);
    lemma_occupied(l);
    lemma_merged_prepend(0, c);
    lemma_merged_shape(c);
    if slid(l) == l {
        let z = (l.len() - m.len()) as nat;
        assert(l[k] == slid(l)[k]);
        assert(k >= z);
        assert(l[k + 1] == m[k + 1 - z]);
        lemma_occupied_after_zeros(z, m);
        lemma_occupied_full(m);
        assert(c == m);
        assert(c[k - z] == c[k - z + 1]);
        assert(false);
    }
}

/// In `slide_row`, the first cell of the tiles placed so far at the end of
/// the row: the border cell when it holds a tile that may still merge, else
/// the cell after it.
spec fn pending_start<const N: usize>(row: [u32; N], border: int) -> int {
    if row[border] == 0 {
        border + 1
    } else {
        border
    }
}

/// Slides the tiles of a row toward its last cell, merging equal neighbours
/// once each, and returns the score that the merges earn.
pub fn slide_row<const N: usize>(row: &mut [u32; N]) -> (gain: u32)
    requires
        line_gain(line_of(*old(row))) <= u32::MAX,
    ensures
        line_of(*final(row)) == slid(line_of(*old(row))),
        gain == line_gain(line_of(*old(row))),
{
    let ghost s = line_of(*row);
    if N == 0 {
        assert(line_of(*row) =~= slid(s));
        return 0;
    }
    let mut j: usize = N - 1;
    let mut border: usize = N - 1;
    let mut gain: u32 = 0;
    proof {
        lemma_occupied_from(s, j as int);
        assert(s.subrange(N as int, N as int) =~= Seq::<int>::empty());
        assert(line_of(*row).subrange(N as int, N as int) =~= Seq::<int>::empty());
        assert(line_of(*row).subrange(j as int, N as int) =~= seq![s[j as int]]);
    }
    while j > 0
        invariant
            N >= 1,
            s == line_of(*old(row)),
            j <= border < N,
            forall|k: int| 0 <= k < j ==> row[k] as int == s[k],
            forall|k: int| j <= k < border ==> row[k] == 0,
            row[border as int] != 0 <==> first_unpaired(occupied(s.subrange(j as int, N as int))),
            row[border as int] != 0 ==> row[border as int] as int == occupied(
                s.subrange(j as int, N as int),
            )[0],
            merged(occupied(s.subrange(j as int, N as int))) == line_of(*row).subrange(
                pending_start(*row, border as int),
                N as int,
            ),
            gain as int == merge_gain(occupied(s.subrange(j as int, N as int))),
            line_gain(s) <= u32::MAX,
        decreases j,
    {
        let ghost c = occupied(s.subrange(j as int, N as int));
        let ghost before = line_of(*row);
        j = j - 1;
        let v = row[j];
        proof {
            lemma_occupied_from(s, j as int);
            lemma_merged_prepend(v as int, c);
            lemma_gain_of_suffix(s, j as int);
            lemma_occupied(s.subrange(j as int + 1, N as int));
        }
        if v != 0 {
            let b = row[border];
            if b == 0 {
                row[border] = v;
                row[j] = 0;
                assert(line_of(*row).subrange(border as int, N as int) =~= seq![v as int]
                    + before.subrange(border as int + 1, N as int));
            } else if b == v {
                row[border] = 2 * v;
                row[j] = 0;
                gain = gain + 2 * v;
                assert(line_of(*row).subrange(border as int, N as int) =~= seq![2 * v as int]
                    + before.subrange(border as int + 1, N as int));
                border = border - 1;
            } else {
                border = border - 1;
                if border != j {
                    row[border] = v;
                    row[j] = 0;
                }
                assert(line_of(*row).subrange(border as int, N as int) =~= seq![v as int]
                    + before.subrange(border as int + 1, N as int));
            }
        }
    }
    proof {
        let m = merged(occupied(s.subrange(0, N as int)));
        assert(s.subrange(0, N as int) =~= s);
        let st = pending_start(*row, border as int);
        assert(line_of(*row) =~= Seq::new(st as nat, |k: int| 0int) + line_of(*row).subrange(st, N as int));
    }
    gain
}

} // verus!
