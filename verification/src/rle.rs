//! Run-length fingerprints of grids.
use crate::array::Polycube;
use crate::block::Block;
use crate::grid::{lemma_span_bounds, Grid};
use vstd::prelude::*;

verus! {

/// A run of `len` equal cells as one signed number: positive where the cells
/// are occupied, negative where they are not.
pub open spec fn signed_run(cell: u8, len: int) -> int {
    if cell == 1 {
        len
    } else {
        -len
    }
}

/// The run lengths of a cell sequence, from its first cell to its last. Each
/// maximal stretch of equal cells gives one entry, signed as [`signed_run`]
/// says. The sequence without cells gives the single entry `0`.
pub open spec fn runs(s: Seq<u8>) -> Seq<int>
    decreases s.len(),
{
    if s.len() == 0 {
        seq![0int]
    } else if s.len() == 1 {
        seq![signed_run(s[0], 1)]
    } else {
        let before = runs(s.drop_last());
        if s[s.len() - 2] == s.last() {
            before.drop_last().push(before.last() + signed_run(s.last(), 1))
        } else {
            before.push(signed_run(s.last(), 1))
        }
    }
}

/// The fingerprint of a grid: its three axis lengths, then the run lengths of
/// its cells.
pub open spec fn fingerprint(g: Grid) -> Seq<int> {
    seq![g.nx as int, g.ny as int, g.nz as int] + runs(g.cells)
}

/// The occupancy pattern that a list of signed run lengths stands for: each
/// entry `k` contributes `|k|` cells, occupied where `k` is positive.
pub open spec fn spread(r: Seq<int>) -> Seq<bool>
    decreases r.len(),
{
    if r.len() == 0 {
        Seq::empty()
    } else {
        let k = r.last();
        spread(r.drop_last()) + Seq::new(
            (if k >= 0 {
                k
            } else {
                -k
            }) as nat,
            |i: int| k > 0,
        )
    }
}

/// The occupancy pattern of a cell sequence.
pub open spec fn occupancy(s: Seq<u8>) -> Seq<bool> {
    Seq::new(s.len(), |i: int| s[i] == 1)
}

/// The entries of a machine-integer sequence as mathematical integers.
pub open spec fn as_ints(v: Seq<isize>) -> Seq<int> {
    Seq::new(v.len(), |i: int| v[i] as int)
}

/// The run lengths of a sequence with cells end in a run that is not empty
/// and carries the sign of the last cell.
pub proof fn lemma_runs_last(s: Seq<u8>)
    requires
        s.len() > 0,
    ensures
        runs(s).len() > 0,
        runs(s).last() != 0,
        runs(s).last() > 0 <==> s.last() == 1,
    decreases s.len(),
{
    if s.len() > 1 {
        lemma_runs_last(s.drop_last());
    }
}

/// Run lengths lose nothing but the cell values themselves: spread out again,
/// they give back the occupancy pattern of the cells they were made from.
pub proof fn lemma_spread_runs(s: Seq<u8>)
    ensures
        spread(runs(s)) == occupancy(s),
    decreases s.len(),
{
    if s.len() == 0 {
        let r = runs(s);
        assert(r.drop_last() =~= Seq::<int>::empty());
        assert(spread(r.drop_last()) =~= Seq::<bool>::empty());
        assert(spread(r) =~= occupancy(s));
    } else if s.len() == 1 {
        let r = runs(s);
        assert(r.drop_last() =~= Seq::<int>::empty());
        assert(spread(r.drop_last()) =~= Seq::<bool>::empty());
        assert(spread(r) =~= occupancy(s));
    } else {
        let head = s.drop_last();
        let before = runs(head);
        lemma_spread_runs(head);
        lemma_runs_last(head);
        let r = runs(s);
        assert(head.last() == s[s.len() - 2]);
        if s[s.len() - 2] == s.last() {
            assert(r.drop_last() =~= before.drop_last());
            let bl = before.last();
            let k = r.last();
            let full = s.last() == 1;
            assert(k == bl + signed_run(s.last(), 1));
            let tail_before = Seq::new((if bl >= 0 { bl } else { -bl }) as nat, |i: int| bl > 0);
            let tail = Seq::new((if k >= 0 { k } else { -k }) as nat, |i: int| k > 0);
            assert(tail =~= tail_before.push(full));
            assert(spread(before) == spread(before.drop_last()) + tail_before);
            assert(spread(r) == spread(before.drop_last()) + tail);
            assert(spread(r) =~= spread(before).push(full));
            assert(occupancy(s) =~= occupancy(head).push(full));
        } else {
            assert(r.drop_last() =~= before);
            assert(spread(r) =~= occupancy(s));
        }
    }
}

/// Two grids of cells `0` and `1` with the same fingerprint are the same grid.
pub proof fn lemma_fingerprint_injective(a: Grid, b: Grid)
    requires
        a.binary(),
        b.binary(),
        fingerprint(a) == fingerprint(b),
    ensures
        a == b,
{
    let fa = fingerprint(a);
    let fb = fingerprint(b);
    assert(fa[0] == a.nx && fa[1] == a.ny && fa[2] == a.nz);
    assert(fb[0] == b.nx && fb[1] == b.ny && fb[2] == b.nz);
    assert(fa.subrange(3, fa.len() as int) =~= runs(a.cells));
    assert(fb.subrange(3, fb.len() as int) =~= runs(b.cells));
    lemma_spread_runs(a.cells);
    lemma_spread_runs(b.cells);
    assert(occupancy(a.cells).len() == occupancy(b.cells).len());
    assert forall|i: int| 0 <= i < a.cells.len() implies a.cells[i] == b.cells[i] by {
        assert(occupancy(a.cells)[i] == occupancy(b.cells)[i]);
    }
    assert(a.cells =~= b.cells);
}

/// Computes the fingerprint of a polycube: the three axis lengths, then one
/// signed run length for each maximal stretch of equal cells in row order,
/// positive for cells of value `1` and negative for all others.
pub fn rle(polycube: &Polycube) -> (r: Vec<isize>)
    ensures
        as_ints(r@) == fingerprint(polycube@),
{
    let b = Block::read(polycube);
    proof {
        lemma_span_bounds(b.nx as nat, b.ny as nat, b.nz as nat);
    }
    let ghost head = seq![b.nx as int, b.ny as int, b.nz as int];
    let mut r: Vec<isize> = Vec::new();
    r.push(b.nx as isize);
    r.push(b.ny as isize);
    r.push(b.nz as isize);
    assert(as_ints(r@) =~= head);
    let n: usize = b.cells.len();
    if n == 0 {
        r.push(0);
        assert(as_ints(r@) =~= fingerprint(polycube@));
        return r;
    }
    let mut current: u8 = b.cells[0];
    let mut val: isize = 1;
    let mut i: usize = 1;
    assert(b.cells@.take(1).len() == 1);
    assert(runs(b.cells@.take(1)) =~= seq![signed_run(current, 1)]);
    assert(as_ints(r@) =~= head + runs(b.cells@.take(1)).drop_last());
    while i < n
        invariant
            1 <= i <= n,
            n == b.cells@.len(),
            n <= isize::MAX,
            1 <= val <= i,
            current == b.cells@[i - 1],
            runs(b.cells@.take(i as int)).len() > 0,
            runs(b.cells@.take(i as int)).last() == signed_run(current, val as int),
            as_ints(r@) == head + runs(b.cells@.take(i as int)).drop_last(),
        decreases n - i,
    {
        let x = b.cells[i];
        let ghost before = runs(b.cells@.take(i as int));
        let ghost next = b.cells@.take(i + 1);
        proof {
            assert(next.drop_last() =~= b.cells@.take(i as int));
            assert(next[next.len() - 2] == current);
            assert(next.last() == x);
        }
        if x == current {
            val += 1;
            proof {
                assert(runs(next).drop_last() =~= before.drop_last());
            }
        } else {
            let ghost was = r@;
            r.push(
                if current == 1 {
                    val
                } else {
                    -val
                },
            );
            current = x;
            val = 1;
            proof {
                assert(runs(next).drop_last() =~= before);
                assert(before =~= before.drop_last().push(before.last()));
                assert(as_ints(r@) =~= as_ints(was).push(before.last()));
                assert(as_ints(r@) =~= head + before);
            }
        }
        i += 1;
    }
    let ghost was = r@;
    let ghost all = runs(b.cells@);
    r.push(
        if current == 1 {
            val
        } else {
            -val
        },
    );
    proof {
        assert(b.cells@.take(n as int) =~= b.cells@);
        assert(all =~= all.drop_last().push(all.last()));
        assert(as_ints(r@) =~= as_ints(was).push(all.last()));
        assert(as_ints(r@) =~= head + all);
    }
    r
}

} // verus!
