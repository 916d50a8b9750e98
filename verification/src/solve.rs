//! The backtracking search.
//!
//! The search drives one mutable `Puzzle` through apply/undo cycles along an
//! explicit path stack, prunes configurations whose fingerprint is cached as
//! dead, and reconstructs the move list once the board is solved.  A stack
//! entry is a pour plus a depth tag: a nonzero tag marks an independent
//! decision at that depth, tag zero an inseparable companion of the decision
//! pushed under it (a run split across several destinations).
//!
//! The final move list is replayed on the raw board before it is returned, so
//! the contract does not rest on the search bookkeeping: a returned non-empty
//! list solves the board.  A bounded run says how it ended — a solution, an
//! exhausted search space, or an exhausted step budget — through `Outcome`;
//! `wp_solve` runs under the largest budget and keeps the original's output
//! shape, one move list with the empty list for every no-solution ending.

use vstd::prelude::*;
use crate::model::{board_shaped, board_view, row_ok, solved, solves};
use crate::puzzle::Puzzle;
use crate::replay::{is_terminal, replay_solves};

verus! {

/// Linear membership scan over cached fingerprints.
fn contains_u64(v: &Vec<u64>, x: u64) -> (r: bool)
    ensures
        r == v@.contains(x),
{
    let mut k: usize = 0;
    while k < v.len()
        invariant
            0 <= k <= v@.len(),
            forall|t: int| 0 <= t < k ==> v@[t] != x,
        decreases v@.len() - k,
    {
        if v[k] == x {
            return true;
        }
        k += 1;
    }
    false
}

/// Append an element to one inner vector of a table.
fn push_bucket(tbl: &mut Vec<Vec<(u16, u16)>>, k: usize, e: (u16, u16))
    requires
        k < old(tbl)@.len(),
    ensures
        final(tbl)@.len() == old(tbl)@.len(),
        forall|t: int|
            0 <= t < old(tbl)@.len() && t != k ==> #[trigger] final(tbl)@[t] == old(tbl)@[t],
        final(tbl)@[k as int]@ == old(tbl)@[k as int]@.push(e),
{
    let mut bucket = tbl.remove(k);
    bucket.push(e);
    tbl.insert(k, bucket);
}

/// Strict order on candidate keys: by first part, then second, and for ties
/// by larger donor index first (so that among equal keys the smaller donor is
/// pushed later and explored first).
fn key_lt(a: (usize, usize, u16), b: (usize, usize, u16)) -> (r: bool)
    ensures
        r == (a.0 < b.0 || (a.0 == b.0 && (a.1 < b.1 || (a.1 == b.1 && a.2 > b.2)))),
{
    a.0 < b.0 || (a.0 == b.0 && (a.1 < b.1 || (a.1 == b.1 && a.2 > b.2)))
}

/// Index of the smallest key in a non-empty candidate buffer.
fn min_key_index(buf: &Vec<((usize, usize, u16), (u16, u16, u16))>) -> (mi: usize)
    requires
        buf@.len() > 0,
    ensures
        mi < buf@.len(),
{
    let mut mi: usize = 0;
    let mut u: usize = 1;
    while u < buf.len()
        invariant
            mi < buf@.len(),
            1 <= u <= buf@.len(),
        decreases buf@.len() - u,
    {
        if key_lt(buf[u].0, buf[mi].0) {
            mi = u;
        }
        u += 1;
    }
    mi
}

/// One bucket sorted by descending free space; ties keep their first-seen
/// order.  Every entry of the result is an entry of the input.
fn sort_desc_air(v: &Vec<(u16, u16, u16)>) -> (r: Vec<(u16, u16, u16)>)
    ensures
        r@.len() == v@.len(),
        forall|t: int| 0 <= t < r@.len() ==> v@.contains(#[trigger] r@[t]),
{
    let mut work: Vec<(u16, u16, u16)> = Vec::new();
    let mut i: usize = 0;
    while i < v.len()
        invariant
            0 <= i <= v@.len(),
            work@ == v@.take(i as int),
        decreases v@.len() - i,
    {
        work.push(v[i]);
        proof {
            assert(work@ =~= v@.take(i + 1));
        }
        i += 1;
    }
    proof {
        assert(v@.take(v@.len() as int) =~= v@);
    }
    let mut r: Vec<(u16, u16, u16)> = Vec::new();
    while work.len() > 0
        invariant
            r@.len() + work@.len() == v@.len(),
            forall|t: int| 0 <= t < r@.len() ==> v@.contains(#[trigger] r@[t]),
            forall|t: int| 0 <= t < work@.len() ==> v@.contains(#[trigger] work@[t]),
        decreases work@.len(),
    {
        let mut mi: usize = 0;
        let mut u: usize = 1;
        while u < work.len()
            invariant
                mi < work@.len(),
                1 <= u <= work@.len(),
            decreases work@.len() - u,
        {
            if work[u].1 > work[mi].1 {
                mi = u;
            }
            u += 1;
        }
        let ghost oldwork = work@;
        let e = work.remove(mi);
        proof {
            assert(v@.contains(e));
            assert forall|t: int| 0 <= t < work@.len() implies v@.contains(
                #[trigger] work@[t],
            ) by {
                if t < mi {
                    assert(work@[t] == oldwork[t]);
                } else {
                    assert(work@[t] == oldwork[t + 1]);
                }
            }
        }
        r.push(e);
    }
    r
}

/// Apply one pour of the path stack, retiring the destination from the active
/// set when it becomes full.  Refuses a mechanically impossible pour instead
/// of panicking; the search only ever queues possible ones.
fn try_apply(puzzle: &mut Puzzle, op: (u16, u16, u16)) -> (ok: bool)
    requires
        old(puzzle).wf(),
    ensures
        final(puzzle).wf(),
        final(puzzle).board@.len() == old(puzzle).board@.len(),
{
    let src = op.0 as usize;
    let dst = op.1 as usize;
    let len = op.2;
    if src >= puzzle.board.len() || dst >= puzzle.board.len() || src == dst || len == 0 {
        return false;
    }
    if puzzle.board[src].data.len() == 0 {
        return false;
    }
    let top = puzzle.board[src].data[puzzle.board[src].data.len() - 1].1;
    if len > top {
        return false;
    }
    if len > puzzle.board[dst].air {
        return false;
    }
    puzzle.pour(src, dst, len);
    if puzzle.board[dst].is_full() {
        puzzle.list.remove(dst);
    }
    true
}

/// Undo one pour of the path stack: put the destination back in the active
/// set if it had become full, then pour the amount back.
fn try_undo(puzzle: &mut Puzzle, op: (u16, u16, u16)) -> (ok: bool)
    requires
        old(puzzle).wf(),
    ensures
        final(puzzle).wf(),
        final(puzzle).board@.len() == old(puzzle).board@.len(),
{
    let src = op.0 as usize;
    let dst = op.1 as usize;
    let len = op.2;
    if src >= puzzle.board.len() || dst >= puzzle.board.len() || src == dst || len == 0 {
        return false;
    }
    if puzzle.board[dst].is_full() {
        puzzle.list.restore(dst);
    }
    if puzzle.board[dst].data.len() == 0 {
        return false;
    }
    let top = puzzle.board[dst].data[puzzle.board[dst].data.len() - 1].1;
    if len > top {
        return false;
    }
    if len > puzzle.board[src].air {
        return false;
    }
    puzzle.pour(dst, src, len);
    true
}

/// Index of a color in the palette, or the palette's length when absent.
fn find_color(colors: &Vec<u16>, cell: u16) -> (idx: usize)
    ensures
        idx <= colors@.len(),
        idx < colors@.len() ==> colors@[idx as int] == cell,
{
    let mut idx: usize = 0;
    while idx < colors.len()
        invariant
            0 <= idx <= colors@.len(),
        decreases colors@.len() - idx,
    {
        if colors[idx] == cell {
            return idx;
        }
        idx += 1;
    }
    idx
}

/// Rebuild the ordered move list from the path stack, top down: companions
/// are buffered until their decision entry, entries repeating a depth tag are
/// replay bookkeeping and fall away, and the whole list is reversed at the
/// end.
fn reconstruct(stack: &Vec<((u16, u16, u16), u16)>) -> (r: Vec<(usize, usize)>)
{
    let mut ret: Vec<(usize, usize)> = Vec::new();
    let mut buf: Vec<(usize, usize)> = Vec::new();
    let mut last: u16 = u16::MAX;
    let mut t: usize = stack.len();
    while t > 0
        invariant
            t <= stack@.len(),
        decreases t,
    {
        let (op, lv) = stack[t - 1];
        t -= 1;
        if lv == 0 {
            buf.push((op.0 as usize, op.1 as usize));
        } else if lv == last {
            buf.clear();
        } else {
            last = lv;
            ret.push((op.0 as usize, op.1 as usize));
            while buf.len() > 0
                decreases buf@.len(),
            {
                let e = buf.pop().unwrap();
                ret.push(e);
            }
        }
    }
    let mut out: Vec<(usize, usize)> = Vec::new();
    let mut t2: usize = ret.len();
    while t2 > 0
        invariant
            t2 <= ret@.len(),
        decreases t2,
    {
        out.push(ret[t2 - 1]);
        t2 -= 1;
    }
    out
}

/// How one bounded search run ended.
pub enum Outcome {
    /// A move list that solves the board; empty when it already was solved.
    Solved(Vec<(usize, usize)>),
    /// The whole reachable space was searched and holds no solution.
    Exhausted,
    /// The step budget ran out before the search finished.
    Aborted,
}

/// Search a validated board under an explicit step budget, one budget unit
/// per frontier.  A `Solved` outcome carries a move list proved to solve the
/// board.  `Exhausted` means the search ran out of alternatives, not steps:
/// no solution was reachable, except that a dead-end fingerprint collision
/// may prune a reachable state (an accepted approximation of the design), so
/// completeness is deliberately not promised here.
pub fn wp_search(board: &Vec<Vec<u16>>, n: usize, budget: u64) -> (r: Outcome)
    requires
        n >= 1,
        board@.len() >= 1,
        board@.len() * n <= 65535,
        board_shaped(board_view(board@), n as nat),
        forall|j: int| 0 <= j < board@.len() ==> row_ok((#[trigger] board@[j])@),
    ensures
        match r {
            Outcome::Solved(mv) => solves(board_view(board@), mv@),
            _ => true,
        },
        solved(board_view(board@)) ==> match r {
            Outcome::Solved(mv) => mv@.len() == 0,
            _ => false,
        },
        r is Exhausted ==> !solved(board_view(board@)),
{
    // A board that is already terminal everywhere needs no moves.
    if is_terminal(board) {
        proof {
            assert(solves(board_view(board@), Seq::<(usize, usize)>::empty()));
        }
        return Outcome::Solved(Vec::new());
    }
    let ghost blen = board@.len();
    proof {
        assert(n <= board@.len() * n) by (nonlinear_arith)
            requires
                board@.len() >= 1,
                n >= 0,
        ;
        assert(board@.len() <= board@.len() * n) by (nonlinear_arith)
            requires
                board@.len() >= 0,
                n >= 1,
        ;
    }
    // Assign dense color identifiers in first-occurrence order; 0 stays the
    // empty slot.
    let mut colors: Vec<u16> = Vec::new();
    let mut mapped: Vec<Vec<u16>> = Vec::new();
    let mut j: usize = 0;
    while j < board.len()
        invariant
            0 <= j <= blen,
            blen == board@.len(),
            n >= 1,
            blen * n <= 65535,
            board_shaped(board_view(board@), n as nat),
            forall|t: int| 0 <= t < blen ==> row_ok((#[trigger] board@[t])@),
            colors@.len() <= j * n,
            mapped@.len() == j,
            forall|t: int| 0 <= t < j ==> (#[trigger] mapped@[t])@.len() == n,
            forall|t: int, i: int|
                0 <= t < j && 0 <= i < n
                    ==> (((#[trigger] mapped@[t]@[i]) == 0) <==> board@[t]@[i] == 0),
            forall|t: int, i: int|
                0 <= t < j && 0 <= i < n ==> #[trigger] mapped@[t]@[i] <= colors@.len(),
        decreases blen - j,
    {
        proof {
            assert(board_view(board@)[j as int] == board@[j as int]@);
            assert(board_view(board@)[j as int].len() == n as nat);
            assert(board@[j as int]@.len() == n);
            assert(j * n + n == (j + 1) * n) by (nonlinear_arith);
            assert((j + 1) * n <= blen * n) by (nonlinear_arith)
                requires
                    j + 1 <= blen,
                    n >= 0,
            ;
        }
        let row = &board[j];
        let mut mrow: Vec<u16> = Vec::new();
        let mut i: usize = 0;
        while i < row.len()
            invariant
                0 <= i <= n,
                row@.len() == n,
                row@ == board@[j as int]@,
                0 <= j < blen,
                blen == board@.len(),
                j * n + n <= 65535,
                colors@.len() <= j * n + i,
                mapped@.len() == j,
                forall|t: int, i2: int|
                    0 <= t < j && 0 <= i2 < n
                        ==> (((#[trigger] mapped@[t]@[i2]) == 0) <==> board@[t]@[i2] == 0),
                forall|t: int, i2: int|
                    0 <= t < j && 0 <= i2 < n ==> #[trigger] mapped@[t]@[i2] <= colors@.len(),
                forall|t: int| 0 <= t < j ==> (#[trigger] mapped@[t])@.len() == n,
                mrow@.len() == i,
                forall|t: int| 0 <= t < i ==> (((#[trigger] mrow@[t]) == 0) <==> row@[t] == 0),
                forall|t: int| 0 <= t < i ==> #[trigger] mrow@[t] <= colors@.len(),
            decreases n - i,
        {
            let cell = row[i];
            if cell == 0 {
                mrow.push(0);
            } else {
                let idx = find_color(&colors, cell);
                if idx == colors.len() {
                    colors.push(cell);
                }
                proof {
                    assert(colors@[idx as int] == cell);
                }
                mrow.push((idx + 1) as u16);
            }
            i += 1;
        }
        mapped.push(mrow);
        j += 1;
    }
    let count = colors.len() + 1;
    proof {
        assert forall|t: int| 0 <= t < blen implies row_ok((#[trigger] mapped@[t])@) by {
            assert(row_ok(board@[t]@));
            assert(mapped@[t]@.len() == n);
            assert(board_view(board@)[t] == board@[t]@);
            assert(board@[t]@.len() == n);
            assert forall|a: int, b: int|
                0 <= a < b < mapped@[t]@.len() && mapped@[t]@[a] != 0 implies mapped@[t]@[b]
                != 0 by {
                assert(((mapped@[t]@[a]) == 0) <==> board@[t]@[a] == 0);
                assert(board@[t]@[a] != 0);
                assert(board@[t]@[b] != 0);
                assert(((mapped@[t]@[b]) == 0) <==> board@[t]@[b] == 0);
            }
        }
    }
    let mut puzzle = Puzzle::new(count, &mapped, n as u16);
    let mut stack: Vec<((u16, u16, u16), u16)> = Vec::new();
    let mut buffer: Vec<((usize, usize, u16), (u16, u16, u16))> = Vec::new();
    let mut ext_table: Vec<Vec<(u16, u16)>> = Vec::new();
    let mut e: usize = 0;
    while e < board.len()
        invariant
            ext_table@.len() == e,
            0 <= e <= blen,
            blen == board@.len(),
        decreases blen - e,
    {
        ext_table.push(Vec::new());
        e += 1;
    }
    let mut fail_state: Vec<u64> = Vec::new();
    let mut budget = budget;
    while budget > 0
        invariant
            puzzle.wf(),
            puzzle.board@.len() == blen,
            blen == board@.len(),
            blen <= 65535,
            ext_table@.len() == blen,
            buffer@.len() == 0,
            !solved(board_view(board@)),
        decreases budget,
    {
        budget -= 1;
        // Apply the group of pours most recently pushed: companions first,
        // down to their decision entry, whose depth sets the next depth.
        let mut level: u16 = 1;
        if stack.len() > 0 {
            let mut t: usize = stack.len();
            let mut found = false;
            let mut broken = false;
            while t > 0
                invariant
                    puzzle.wf(),
                    puzzle.board@.len() == blen,
                    0 <= t <= stack@.len(),
                ensures
                    puzzle.wf(),
                    puzzle.board@.len() == blen,
                decreases t,
            {
                let (op, lv) = stack[t - 1];
                if !try_apply(&mut puzzle, op) {
                    broken = true;
                    break;
                }
                t -= 1;
                if lv != 0 {
                    if lv == u16::MAX {
                        broken = true;
                    } else {
                        level = lv + 1;
                        found = true;
                    }
                    break;
                }
            }
            if broken || !found {
                return Outcome::Aborted;
            }
        }
        let h = puzzle.hash();
        if !contains_u64(&fail_state, h) {
            if puzzle.is_done() {
                let ret = reconstruct(&stack);
                if ret.len() > 0 && replay_solves(board, &ret) {
                    return Outcome::Solved(ret);
                }
                return Outcome::Aborted;
            }
            // Queue new candidate pours for this frontier.
            let kind = puzzle.get_kind();
            // Forced relief pours: a top run that cannot empty its container
            // moves to an empty container, one branch each.
            if kind[0].len() > 0 {
                let nil = kind[0][0].0;
                let mut k: usize = 1;
                while k < kind.len()
                    invariant
                        1 <= k <= kind@.len(),
                        forall|t: int|
                            0 <= t < kind@.len() ==> (#[trigger] kind@[t])@.len() <= blen,
                    decreases kind@.len() - k,
                {
                    let v = &kind[k];
                    let mut t: usize = 0;
                    while t < v.len()
                        invariant
                            0 <= t <= v@.len(),
                        decreases v@.len() - t,
                    {
                        let (jj, c1, c2) = v[t];
                        if (c1 as usize) + (c2 as usize) < n {
                            buffer.push(((c2 as usize, c1 as usize, jj), (jj, nil, c2)));
                        }
                        t += 1;
                    }
                    k += 1;
                }
                while buffer.len() > 0
                    invariant
                        puzzle.wf(),
                    decreases buffer@.len(),
                {
                    let mi = min_key_index(&buffer);
                    let (_key, op) = buffer.remove(mi);
                    stack.push((op, level));
                }
            }
            // Speculative branches: move a whole top run into the containers
            // of its own color bucket, largest free space first; a split run
            // queues its filling pours as companions of the final pour.
            let mut k: usize = 1;
            while k < kind.len()
                invariant
                    puzzle.wf(),
                    puzzle.board@.len() == blen,
                    ext_table@.len() == blen,
                    blen <= 65535,
                    1 <= k <= kind@.len(),
                    forall|t: int|
                        0 <= t < kind@.len() ==> (#[trigger] kind@[t])@.len() <= blen,
                    forall|t: int, s: int|
                        0 <= t < kind@.len() && 0 <= s < kind@[t]@.len()
                            ==> (#[trigger] kind@[t]@[s]).0 < blen,
                    forall|t: int| 0 <= t < buffer@.len() ==> (#[trigger] buffer@[t]).1.0 < blen,
                decreases kind@.len() - k,
            {
                let v = sort_desc_air(&kind[k]);
                proof {
                    assert forall|s: int| 0 <= s < v@.len() implies (#[trigger] v@[s]).0
                        < blen by {
                        assert(kind@[k as int]@.contains(v@[s]));
                        let w = choose|w: int|
                            0 <= w < kind@[k as int]@.len() && kind@[k as int]@[w] == v@[s];
                        assert(kind@[k as int]@[w].0 < blen);
                    }
                }
                let mut c: usize = 0;
                let mut t: usize = 0;
                while t < v.len()
                    invariant
                        0 <= t <= v@.len(),
                        v@.len() <= blen,
                        blen <= 65535,
                        c <= t * 0x10000,
                    decreases v@.len() - t,
                {
                    c += v[t].1 as usize;
                    t += 1;
                }
                let mut t: usize = 0;
                while t < v.len()
                    invariant
                        puzzle.wf(),
                        puzzle.board@.len() == blen,
                        ext_table@.len() == blen,
                        0 <= t <= v@.len(),
                        v@.len() <= blen,
                        blen <= 65535,
                        c <= blen * 0x10000,
                        forall|s: int| 0 <= s < v@.len() ==> (#[trigger] v@[s]).0 < blen,
                        forall|s: int|
                            0 <= s < buffer@.len() ==> (#[trigger] buffer@[s]).1.0 < blen,
                    decreases v@.len() - t,
                {
                    let (jj, c1, c2) = v[t];
                    if (c1 as usize) + (c2 as usize) <= c {
                        let mut acc: usize = 0;
                        let mut m: usize = 0;
                        let mut u: usize = 0;
                        while u < v.len()
                            invariant_except_break
                                acc <= c2 as usize,
                                acc <= u * 0x10000,
                            invariant
                                ext_table@.len() == blen,
                                0 <= u <= v@.len(),
                                v@.len() <= blen,
                                blen <= 65535,
                                m <= 0x20000,
                                jj == v@[t as int].0,
                                0 <= t < v@.len(),
                                jj < blen,
                                forall|s: int| 0 <= s < v@.len() ==> (#[trigger] v@[s]).0 < blen,
                                forall|s: int|
                                    0 <= s < buffer@.len()
                                        ==> (#[trigger] buffer@[s]).1.0 < blen,
                            ensures
                                ext_table@.len() == blen,
                                forall|s: int|
                                    0 <= s < buffer@.len()
                                        ==> (#[trigger] buffer@[s]).1.0 < blen,
                            decreases v@.len() - u,
                        {
                            let (i2, air, cnt) = v[u];
                            if i2 != jj {
                                acc += air as usize;
                                let reach = air as usize + cnt as usize;
                                if reach > m {
                                    m = reach;
                                }
                                if acc >= c2 as usize {
                                    let rem = c2 as usize - (acc - air as usize);
                                    buffer.push(((m, c2 as usize, jj), (jj, i2, rem as u16)));
                                    break;
                                }
                                push_bucket(&mut ext_table, jj as usize, (i2, air));
                            }
                            u += 1;
                        }
                    }
                    t += 1;
                }
                k += 1;
            }
            while buffer.len() > 0
                invariant
                    puzzle.wf(),
                    ext_table@.len() == blen,
                    forall|s: int| 0 <= s < buffer@.len() ==> (#[trigger] buffer@[s]).1.0 < blen,
                decreases buffer@.len(),
            {
                let mi = min_key_index(&buffer);
                let (key, op) = buffer.remove(mi);
                proof {
                    assert(forall|s: int|
                        0 <= s < buffer@.len() ==> (#[trigger] buffer@[s]).1.0 < blen);
                }
                stack.push((op, level));
                if (op.2 as usize) != key.1 {
                    let jx = op.0 as usize;
                    let mut drain = ext_table.remove(jx);
                    while drain.len() > 0
                        invariant
                            ext_table@.len() == blen - 1,
                            jx < blen,
                        decreases drain@.len(),
                    {
                        let (i3, air3) = drain.pop().unwrap();
                        stack.push(((op.0, i3, air3), 0));
                    }
                    ext_table.insert(jx, drain);
                }
            }
        }
        // Rewind: undo groups until an untried sibling decision appears.
        let mut last = level;
        let mut advanced = false;
        while stack.len() > 0
            invariant
                puzzle.wf(),
                puzzle.board@.len() == blen,
                !solved(board_view(board@)),
            ensures
                puzzle.wf(),
                puzzle.board@.len() == blen,
            decreases stack@.len(),
        {
            let (op, lv) = stack[stack.len() - 1];
            if lv == 0 {
                // companions on top: find their decision entry
                let mut pos: usize = stack.len() - 1;
                while pos > 0 && stack[pos].1 == 0
                    invariant
                        pos < stack@.len(),
                    decreases pos,
                {
                    pos -= 1;
                }
                if stack[pos].1 == 0 {
                    // a stack of companions alone cannot arise
                    return Outcome::Aborted;
                }
                if stack[pos].1 == last {
                    advanced = true;
                    break;
                }
                fail_state.push(puzzle.hash());
                last = stack[pos].1;
                let mut t2: usize = pos;
                while t2 < stack.len()
                    invariant
                        puzzle.wf(),
                        puzzle.board@.len() == blen,
                        pos <= t2 <= stack@.len(),
                        !solved(board_view(board@)),
                    decreases stack@.len() - t2,
                {
                    let (op2, _) = stack[t2];
                    if !try_undo(&mut puzzle, op2) {
                        return Outcome::Aborted;
                    }
                    t2 += 1;
                }
                stack.truncate(pos);
            } else {
                if lv == last {
                    advanced = true;
                    break;
                }
                fail_state.push(puzzle.hash());
                last = lv;
                stack.pop();
                if !try_undo(&mut puzzle, op) {
                    return Outcome::Aborted;
                }
            }
        }
        if !advanced {
            // the whole space is exhausted: no solution
            return Outcome::Exhausted;
        }
    }
    Outcome::Aborted
}

/// Solve a validated board: an ordered move list, or an empty list when the
/// board is already solved or no solution is reachable; the two empty cases
/// are deliberately not distinguished here.  The search runs under the
/// largest step budget; were that ever to run out, the empty list would be
/// returned for that case too, and a caller that must tell the cases apart
/// calls `wp_search` with its own budget.  Whenever a non-empty list comes
/// back, replaying it as maximal legal pours on the given board provably ends
/// with every container terminal-empty or terminal-full.
pub fn wp_solve(board: &Vec<Vec<u16>>, n: usize) -> (r: Vec<(usize, usize)>)
    requires
        n >= 1,
        board@.len() >= 1,
        board@.len() * n <= 65535,
        board_shaped(board_view(board@), n as nat),
        forall|j: int| 0 <= j < board@.len() ==> row_ok((#[trigger] board@[j])@),
    ensures
        r@.len() != 0 ==> solves(board_view(board@), r@),
        solved(board_view(board@)) ==> r@.len() == 0,
{
    match wp_search(board, n, u64::MAX) {
        Outcome::Solved(mv) => mv,
        Outcome::Exhausted => Vec::new(),
        Outcome::Aborted => Vec::new(),
    }
}

} // verus!
