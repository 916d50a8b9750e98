//! Replaying a move list on the raw cells, verified against the board model.
//!
//! The solver's search bookkeeping is intricate; its result does not have to
//! be trusted, because any candidate move list is replayed here, pour by
//! maximal pour, before it is returned.

use vstd::prelude::*;
use crate::model::{
    board_view, do_pour, free_of, lemma_free_of_unique, lemma_replay_split,
    lemma_run_from_unique, pour_amount, pour_legal, replay, row_empty, row_full, run_from, solved,
    solves, top_color,
};

verus! {

/// The length of the zero prefix of one container.
fn free_len(row: &Vec<u16>) -> (f: usize)
    ensures
        f == free_of(row@),
        f <= row@.len(),
        f < row@.len() ==> row@[f as int] != 0,
        forall|i: int| 0 <= i < f ==> row@[i] == 0,
{
    let mut f: usize = 0;
    while f < row.len() && row[f] == 0
        invariant
            0 <= f <= row@.len(),
            forall|i: int| 0 <= i < f ==> row@[i] == 0,
        decreases row@.len() - f,
    {
        f += 1;
    }
    proof {
        lemma_free_of_unique(row@, f as int);
    }
    f
}

/// The length of the run of equal cells starting at `start`.
fn run_len(row: &Vec<u16>, start: usize) -> (r: usize)
    requires
        start < row@.len(),
    ensures
        r == run_from(row@, start as int),
        1 <= r,
        start + r <= row@.len(),
{
    let c = row[start];
    let rl: usize = row.len();
    let mut r: usize = 1;
    while start + r < rl && row[start + r] == c
        invariant
            start < row@.len(),
            rl == row@.len(),
            1 <= r,
            start + r <= row@.len(),
            c == row@[start as int],
            forall|k: int| start <= k < start + r ==> row@[k] == c,
        decreases row@.len() - start - r,
    {
        r += 1;
    }
    proof {
        lemma_run_from_unique(row@, start as int, r as int);
    }
    r
}

/// Copy one container's cells.
fn copy_row(v: &Vec<u16>) -> (r: Vec<u16>)
    ensures
        r@ == v@,
{
    let mut r: Vec<u16> = Vec::new();
    let mut i: usize = 0;
    while i < v.len()
        invariant
            0 <= i <= v@.len(),
            r@ == v@.take(i as int),
        decreases v@.len() - i,
    {
        r.push(v[i]);
        proof {
            assert(r@ =~= v@.take(i + 1));
        }
        i += 1;
    }
    proof {
        assert(v@.take(v@.len() as int) =~= v@);
    }
    r
}

/// Copy the whole board's cells.
fn copy_board(b: &Vec<Vec<u16>>) -> (r: Vec<Vec<u16>>)
    ensures
        board_view(r@) == board_view(b@),
{
    let mut r: Vec<Vec<u16>> = Vec::new();
    let mut j: usize = 0;
    while j < b.len()
        invariant
            0 <= j <= b@.len(),
            r@.len() == j,
            forall|t: int| 0 <= t < j ==> (#[trigger] r@[t])@ == b@[t]@,
        decreases b@.len() - j,
    {
        r.push(copy_row(&b[j]));
        j += 1;
    }
    proof {
        assert(board_view(r@) =~= board_view(b@));
    }
    r
}

/// Apply one maximal pour in place; report whether it was legal, and change
/// nothing if it was not.
fn apply_move(work: &mut Vec<Vec<u16>>, s: usize, d: usize) -> (ok: bool)
    ensures
        ok == pour_legal(board_view(old(work)@), s as int, d as int),
        ok ==> board_view(final(work)@) == do_pour(board_view(old(work)@), s as int, d as int),
        !ok ==> final(work)@ == old(work)@,
{
    let ghost bv = board_view(work@);
    if s >= work.len() || d >= work.len() || s == d {
        return false;
    }
    let fs = free_len(&work[s]);
    proof {
        assert(work@[s as int]@ == bv[s as int]);
    }
    if fs == work[s].len() {
        return false;
    }
    let fd = free_len(&work[d]);
    proof {
        assert(work@[d as int]@ == bv[d as int]);
    }
    if fd == 0 {
        return false;
    }
    let cs = work[s][fs];
    if fd < work[d].len() && work[d][fd] != cs {
        return false;
    }
    proof {
        assert(pour_legal(bv, s as int, d as int));
    }
    let run = run_len(&work[s], fs);
    let amt = if run <= fd {
        run
    } else {
        fd
    };
    proof {
        assert(amt == pour_amount(bv, s as int, d as int));
        assert(cs == top_color(bv[s as int]));
    }
    let mut new_s = copy_row(&work[s]);
    let sl: usize = new_s.len();
    let mut i: usize = fs;
    while i < fs + amt
        invariant
            new_s@.len() == sl,
            fs <= i <= fs + amt,
            fs + amt <= new_s@.len(),
            new_s@.len() == bv[s as int].len(),
            forall|t: int| 0 <= t < fs ==> new_s@[t] == bv[s as int][t],
            forall|t: int| fs <= t < i ==> new_s@[t] == 0,
            forall|t: int| i <= t < new_s@.len() ==> new_s@[t] == bv[s as int][t],
        decreases fs + amt - i,
    {
        new_s.set(i, 0);
        i += 1;
    }
    let mut new_d = copy_row(&work[d]);
    let dl: usize = new_d.len();
    let mut i: usize = fd - amt;
    while i < fd
        invariant
            new_d@.len() == dl,
            amt <= fd,
            fd - amt <= i <= fd,
            fd <= new_d@.len(),
            new_d@.len() == bv[d as int].len(),
            forall|t: int| 0 <= t < fd - amt ==> new_d@[t] == bv[d as int][t],
            forall|t: int| fd - amt <= t < i ==> new_d@[t] == cs,
            forall|t: int| i <= t < new_d@.len() ==> new_d@[t] == bv[d as int][t],
        decreases fd - i,
    {
        let ghost before = new_d@;
        new_d.set(i, cs);
        i += 1;
        proof {
            assert forall|t: int| fd - amt <= t < i implies new_d@[t] == cs by {
                if t < i - 1 {
                    assert(new_d@[t] == before[t]);
                    assert(before[t] == cs);
                } else {
                    assert(new_d@[i - 1] == cs);
                }

            }
        }
    }
    let ghost nsv = new_s@;
    let ghost ndv = new_d@;
    work.set(s, new_s);
    work.set(d, new_d);
    proof {
        let after = do_pour(bv, s as int, d as int);
        assert(nsv =~= after[s as int]);
        assert(ndv =~= after[d as int]);
        assert(board_view(work@) =~= after);
    }
    true
}

/// Whether every container is terminal: all empty, or full of one color.
pub fn is_terminal(work: &Vec<Vec<u16>>) -> (r: bool)
    ensures
        r == solved(board_view(work@)),
{
    let ghost bv = board_view(work@);
    let mut j: usize = 0;
    while j < work.len()
        invariant
            0 <= j <= work@.len(),
            bv == board_view(work@),
            forall|t: int| 0 <= t < j ==> row_empty(#[trigger] bv[t]) || row_full(bv[t]),
        decreases work@.len() - j,
    {
        let row = &work[j];
        proof {
            assert(row@ == bv[j as int]);
        }
        if row.len() > 0 {
            let c = row[0];
            let mut i: usize = 1;
            while i < row.len() && row[i] == c
                invariant
                    1 <= i <= row@.len(),
                    row@.len() > 0,
                    c == row@[0],
                    forall|t: int| 0 <= t < i ==> row@[t] == c,
                decreases row@.len() - i,
            {
                i += 1;
            }
            if i < row.len() {
                proof {
                    assert(row@[i as int] != c);
                    assert(!row_empty(bv[j as int]) && !row_full(bv[j as int])) by {
                        if c == 0 {
                            assert(row@[i as int] != 0);
                        } else {
                            assert(row@[0] != 0);
                        }
                    }
                }
                return false;
            }
            if c == 0 {
                proof {
                    assert(row_empty(bv[j as int]));
                }
            } else {
                proof {
                    assert(row_full(bv[j as int]));
                }
            }
        } else {
            proof {
                assert(row_empty(bv[j as int]));
            }
        }
        j += 1;
    }
    true
}

/// Replay a move list on a copy of the board: true exactly when every pour is
/// legal in turn and the final state is terminal everywhere.
pub fn replay_solves(board: &Vec<Vec<u16>>, moves: &Vec<(usize, usize)>) -> (r: bool)
    ensures
        r == solves(board_view(board@), moves@),
{
    let ghost bv0 = board_view(board@);
    let mut work = copy_board(board);
    let mut k: usize = 0;
    proof {
        assert(moves@.take(0) =~= Seq::<(usize, usize)>::empty());
    }
    while k < moves.len()
        invariant
            0 <= k <= moves@.len(),
            bv0 == board_view(board@),
            replay(bv0, moves@.take(k as int)) == Some(board_view(work@)),
        decreases moves@.len() - k,
    {
        let ghost w = board_view(work@);
        let (s, d) = moves[k];
        let ok = apply_move(&mut work, s, d);
        proof {
            lemma_replay_split(bv0, moves@, k as int);
            assert(moves@.skip(k as int).len() > 0);
            assert(moves@.skip(k as int)[0] == moves@[k as int]);
        }
        if !ok {
            proof {
                assert(!pour_legal(w, moves@.skip(k as int)[0].0 as int, moves@.skip(
                    k as int,
                )[0].1 as int));
                assert(replay(w, moves@.skip(k as int)) is None);
                assert(replay(bv0, moves@) is None);
            }
            return false;
        }
        proof {
            lemma_replay_split(bv0, moves@.take(k + 1), k as int);
            assert(moves@.take(k + 1).take(k as int) =~= moves@.take(k as int));
            assert(moves@.take(k + 1).skip(k as int) =~= seq![moves@[k as int]]);
            let single = seq![moves@[k as int]];
            assert(single.drop_first() =~= Seq::<(usize, usize)>::empty());
            let b1 = do_pour(w, s as int, d as int);
            assert(replay(b1, single.drop_first()) == Some(b1));
            assert(single[0] == (s, d));
            assert(replay(w, single) == Some(b1));
            assert(b1 == board_view(work@));
        }
        k += 1;
    }
    proof {
        assert(moves@.take(moves@.len() as int) =~= moves@);
    }
    is_terminal(&work)
}

} // verus!
