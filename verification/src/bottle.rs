//! One container, held as a run-length encoding: a free-slot counter at the
//! accessible end and the colored runs below it, outermost run last.

use vstd::prelude::*;
use crate::model::row_ok;

verus! {

pub struct Bottle {
    /// Empty slots at the accessible end.
    pub air: u16,
    /// Runs of (color, count), bottom of the container first.
    pub data: Vec<(u16, u16)>,
}

/// Total number of units held by a run sequence.
pub open spec fn sum_counts(runs: Seq<(u16, u16)>) -> nat
    decreases runs.len(),
{
    if runs.len() == 0 {
        0
    } else {
        sum_counts(runs.drop_last()) + runs.last().1 as nat
    }
}

/// The cells a run sequence stands for, outermost cell first.
pub open spec fn expand_runs(runs: Seq<(u16, u16)>) -> Seq<u16>
    decreases runs.len(),
{
    if runs.len() == 0 {
        Seq::empty()
    } else {
        Seq::new(runs.last().1 as nat, |i: int| runs.last().0) + expand_runs(runs.drop_last())
    }
}

/// The outermost run's count is part of the total the runs hold.
pub proof fn lemma_sum_ge_last(runs: Seq<(u16, u16)>)
    requires
        runs.len() > 0,
    ensures
        sum_counts(runs) >= runs.last().1,
        sum_counts(runs.drop_last()) == sum_counts(runs) - runs.last().1,
{
}

/// Changing only the outermost run's count changes the total by the difference.
pub proof fn lemma_sum_update_last(runs: Seq<(u16, u16)>, x: (u16, u16))
    requires
        runs.len() > 0,
    ensures
        sum_counts(runs.update(runs.len() - 1, x)) == sum_counts(runs) - runs.last().1
            + x.1,
{
    let new = runs.update(runs.len() - 1, x);
    assert(new.drop_last() =~= runs.drop_last());
}

/// Appending a run adds its count to the total.
pub proof fn lemma_sum_push(runs: Seq<(u16, u16)>, x: (u16, u16))
    ensures
        sum_counts(runs.push(x)) == sum_counts(runs) + x.1,
{
    assert(runs.push(x).drop_last() =~= runs);
}

/// Appending a fresh run of one unit prepends its color to the cells.
proof fn lemma_expand_push(runs: Seq<(u16, u16)>, c: u16)
    ensures
        expand_runs(runs.push((c, 1u16))) =~= seq![c] + expand_runs(runs),
{
    let new = runs.push((c, 1u16));
    assert(new.drop_last() =~= runs);
    assert(expand_runs(new) == Seq::new(1, |i: int| new.last().0) + expand_runs(runs));
    assert forall|t: int| 0 <= t < expand_runs(new).len() implies expand_runs(new)[t] == (
    seq![c] + expand_runs(runs))[t] by {
        if t == 0 {
            assert(expand_runs(new)[0] == new.last().0);
        }
    }
}

/// Growing the outermost run by one unit prepends its color to the cells.
proof fn lemma_expand_bump(runs: Seq<(u16, u16)>)
    requires
        runs.len() > 0,
        runs.last().1 < u16::MAX,
    ensures
        expand_runs(runs.update(runs.len() - 1, (runs.last().0, (runs.last().1 + 1) as u16)))
            =~= seq![runs.last().0] + expand_runs(runs),
{
    let c = runs.last().0;
    let cnt = runs.last().1 as int;
    let new = runs.update(runs.len() - 1, (c, (cnt + 1) as u16));
    assert(new.drop_last() =~= runs.drop_last());
    let e = expand_runs(runs.drop_last());
    assert(expand_runs(new) == Seq::new((cnt + 1) as nat, |i: int| new.last().0) + e);
    assert(expand_runs(runs) == Seq::new(cnt as nat, |i: int| runs.last().0) + e);
    let goal = seq![c] + expand_runs(runs);
    assert forall|t: int| 0 <= t < expand_runs(new).len() implies expand_runs(new)[t]
        == goal[t] by {
        if t < cnt + 1 {
            assert(expand_runs(new)[t] == c);
            if t >= 1 {
                assert(goal[t] == expand_runs(runs)[t - 1]);
                assert(expand_runs(runs)[t - 1] == c);
            }
        } else {
            assert(expand_runs(new)[t] == e[t - cnt - 1]);
            assert(goal[t] == expand_runs(runs)[t - 1]);
            assert(expand_runs(runs)[t - 1] == e[t - 1 - cnt]);
        }
    }
}

impl Bottle {
    /// The cell view: the free slots, then the encoded cells down to the bottom.
    pub open spec fn cells(self) -> Seq<u16> {
        Seq::new(self.air as nat, |i: int| 0u16) + expand_runs(self.data@)
    }

    /// Well-formed at capacity `n`: the free slots and the runs fill the
    /// container exactly, no run is empty or colorless, and no two adjacent
    /// runs share a color.
    pub open spec fn wf(self, n: nat) -> bool {
        &&& self.air as nat + sum_counts(self.data@) == n
        &&& forall|k: int|
            0 <= k < self.data@.len()
                ==> (#[trigger] self.data@[k]).0 != 0 && self.data@[k].1 >= 1
        &&& forall|k: int|
            0 <= k < self.data@.len() - 1
                ==> (#[trigger] self.data@[k]).0 != self.data@[k + 1].0
    }

    /// Every run color is below `m`.
    pub open spec fn colors_lt(self, m: nat) -> bool {
        forall|k: int| 0 <= k < self.data@.len() ==> (#[trigger] self.data@[k]).0 < m
    }

    pub open spec fn is_full_spec(self) -> bool {
        self.air == 0 && self.data@.len() == 1
    }

    pub open spec fn is_empty_spec(self) -> bool {
        self.data@.len() == 0
    }

    /// Encode one container from its cells (accessible end first; empty slots
    /// only as a prefix).
    pub fn new(row: &Vec<u16>) -> (b: Bottle)
        requires
            row@.len() <= u16::MAX,
            row_ok(row@),
        ensures
            b.wf(row@.len() as nat),
            b.cells() == row@,
            forall|k: int| 0 <= k < b.data@.len() ==> row@.contains((#[trigger] b.data@[k]).0),
    {
        let ghost rv = row@;
        let mut f: usize = 0;
        while f < row.len() && row[f] == 0
            invariant
                0 <= f <= rv.len(),
                rv == row@,
                forall|t: int| 0 <= t < f ==> rv[t] == 0,
            decreases rv.len() - f,
        {
            f += 1;
        }
        proof {
            assert(f < rv.len() ==> rv[f as int] != 0);
            assert forall|t: int| f <= t < rv.len() implies rv[t] != 0 by {
                assert(rv[f as int] != 0);
            }
        }
        let mut data: Vec<(u16, u16)> = Vec::new();
        let mut i: usize = row.len();
        while i > f
            invariant
                f <= i <= rv.len(),
                rv == row@,
                rv.len() <= u16::MAX,
                forall|t: int| f <= t < rv.len() ==> rv[t] != 0,
                expand_runs(data@) == rv.subrange(i as int, rv.len() as int),
                sum_counts(data@) == rv.len() - i,
                forall|k: int|
                    0 <= k < data@.len() ==> (#[trigger] data@[k]).0 != 0 && data@[k].1 >= 1,
                forall|k: int|
                    0 <= k < data@.len() - 1 ==> (#[trigger] data@[k]).0 != data@[k + 1].0,
                forall|k: int| 0 <= k < data@.len() ==> rv.contains((#[trigger] data@[k]).0),
            decreases i,
        {
            let c = row[i - 1];
            proof {
                assert(rv[i - 1] != 0);
                assert(rv.contains(rv[i - 1]));
            }
            let ghost olddata = data@;
            if data.len() > 0 && data[data.len() - 1].0 == c {
                let last = data.len() - 1;
                let cnt = data[last].1;
                proof {
                    assert(sum_counts(olddata) >= olddata.last().1) by {
                        assert(sum_counts(olddata)
                            == sum_counts(olddata.drop_last()) + olddata.last().1 as nat);
                    }
                }
                data.set(last, (c, cnt + 1));
                proof {
                    assert(olddata.last() == (c, cnt));
                    lemma_expand_bump(olddata);
                    assert(data@ == olddata.update(olddata.len() - 1, (c, (cnt + 1) as u16)));
                    assert(expand_runs(data@) =~= seq![c] + expand_runs(olddata));
                    assert(data@.drop_last() =~= olddata.drop_last());
                    assert(sum_counts(data@)
                        == sum_counts(olddata.drop_last()) + cnt as nat + 1);
                    assert(expand_runs(data@) =~= rv.subrange(i - 1, rv.len() as int));
                }
            } else {
                data.push((c, 1));
                proof {
                    lemma_expand_push(olddata, c);
                    assert(expand_runs(data@) =~= seq![c] + expand_runs(olddata));
                    assert(data@.drop_last() =~= olddata);
                    assert(expand_runs(data@) =~= rv.subrange(i - 1, rv.len() as int));
                }
            }
            i -= 1;
        }
        let b = Bottle { air: f as u16, data };
        proof {
            assert(b.cells() =~= rv);
        }
        b
    }

    pub fn is_full(&self) -> (r: bool)
        ensures
            r == self.is_full_spec(),
    {
        self.air == 0 && self.data.len() == 1
    }

    pub fn is_empty(&self) -> (r: bool)
        ensures
            r == self.is_empty_spec(),
    {
        self.data.len() == 0
    }
}

} // verus!
