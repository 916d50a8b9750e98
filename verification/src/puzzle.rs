//! The whole board: the containers, the active set, and the color count.

use vstd::prelude::*;
use vstd::multiset::Multiset;
use crate::bottle::{Bottle, lemma_sum_ge_last, lemma_sum_push, lemma_sum_update_last};
use crate::list::{chain, List, Node};
use crate::model::row_ok;

verus! {

/// The smallest index in `(k, upto)` whose container is not terminal-full;
/// `upto` when there is none.
pub open spec fn next_active(board: Seq<Bottle>, k: int, upto: int) -> int
    decreases upto - k,
{
    if k + 1 >= upto {
        upto
    } else if !board[k + 1].is_full_spec() {
        k + 1
    } else {
        next_active(board, k + 1, upto)
    }
}

/// The ascending indices, from `k` on, of the containers that are not
/// terminal-full.
pub open spec fn active_indices(board: Seq<Bottle>, k: int) -> Seq<u16>
    decreases board.len() - k,
{
    if k < 0 || k >= board.len() {
        Seq::empty()
    } else if board[k].is_full_spec() {
        active_indices(board, k + 1)
    } else {
        seq![k as u16] + active_indices(board, k + 1)
    }
}

/// Extending the board beyond `upto` does not change `next_active` below it,
/// except that a search ending at the boundary continues into the new cell.
proof fn lemma_next_active_push(board: Seq<Bottle>, b: Bottle, k: int, upto: int)
    requires
        -1 <= k < upto,
        upto == board.len(),
    ensures
        next_active(board, k, upto) < upto ==> next_active(board.push(b), k, upto + 1)
            == next_active(board, k, upto),
        next_active(board, k, upto) == upto && !b.is_full_spec() ==> next_active(
            board.push(b),
            k,
            upto + 1,
        ) == upto,
        next_active(board, k, upto) == upto && b.is_full_spec() ==> next_active(
            board.push(b),
            k,
            upto + 1,
        ) == upto + 1,
    decreases upto - k,
{
    if k + 1 >= upto {
        assert(board.push(b)[upto] == b);
        assert(next_active(board, k, upto) == upto);
        if b.is_full_spec() {
            assert(next_active(board.push(b), upto, upto + 1) == upto + 1);
            assert(next_active(board.push(b), k, upto + 1) == upto + 1);
        } else {
            assert(next_active(board.push(b), k, upto + 1) == upto);
        }
    } else {
        assert(board.push(b)[k + 1] == board[k + 1]);
        if board[k + 1].is_full_spec() {
            lemma_next_active_push(board, b, k + 1, upto);
            assert(next_active(board, k, upto) == next_active(board, k + 1, upto));
            assert(next_active(board.push(b), k, upto + 1) == next_active(
                board.push(b),
                k + 1,
                upto + 1,
            ));
        } else {
            assert(next_active(board, k, upto) == k + 1);
            assert(next_active(board.push(b), k, upto + 1) == k + 1);
        }
    }
}

/// `next_active` lands strictly past `k`, at `upto` at the latest, and on a
/// not-full container whenever it stops short of `upto`.
proof fn lemma_next_active_bounds(board: Seq<Bottle>, k: int, upto: int)
    requires
        -1 <= k < upto,
    ensures
        k < next_active(board, k, upto) <= upto,
        next_active(board, k, upto) < upto ==> !board[next_active(
            board,
            k,
            upto,
        )].is_full_spec(),
    decreases upto - k,
{
    if k + 1 >= upto {
    } else if !board[k + 1].is_full_spec() {
    } else {
        lemma_next_active_bounds(board, k + 1, upto);
    }
}

/// A search that reaches `upto` passed only full containers.
proof fn lemma_next_active_all_full(board: Seq<Bottle>, k: int, upto: int)
    requires
        -1 <= k < upto,
        next_active(board, k, upto) == upto,
    ensures
        forall|t: int| k < t < upto ==> (#[trigger] board[t]).is_full_spec(),
    decreases upto - k,
{
    if k + 1 >= upto {
    } else {
        assert(board[k + 1].is_full_spec());
        lemma_next_active_all_full(board, k + 1, upto);
    }
}

/// Where a slot's `next` points while the board is still being built: at the
/// next not-full slot below the boundary `j`, else at the boundary itself,
/// else (once everything is processed) at the sentinel `n`.
pub open spec fn building_next(board: Seq<Bottle>, k: int, j: int, n: int) -> int {
    let x = next_active(board, k, j);
    if x < j {
        x
    } else if j < n {
        j
    } else {
        n
    }
}

/// The boundary slot's `prev` names the last linked slot: the sentinel when
/// every processed container is full, else the last not-full one, whose own
/// `next` points back at the boundary.
pub open spec fn boundary_prev_ok(nodes: Seq<Node>, board: Seq<Bottle>, j: int, n: int) -> bool {
    let p = nodes[j].prev as int;
    &&& (p == n || (0 <= p < j && !board[p].is_full_spec()))
    &&& (p == n ==> next_active(board, -1, j) == j)
    &&& (p < j ==> nodes[p].next as int == j && next_active(board, p, j) == j)
}

/// Every not-full container appears among the active indices.
proof fn lemma_active_indices_complete(board: Seq<Bottle>, k: int, t: int)
    requires
        board.len() <= u16::MAX,
        0 <= k <= t < board.len(),
        !board[t].is_full_spec(),
    ensures
        active_indices(board, k).contains(t as u16),
    decreases t - k,
{
    if k == t {
        assert(active_indices(board, k)[0] == t as u16);
    } else {
        lemma_active_indices_complete(board, k + 1, t);
        let rest = active_indices(board, k + 1);
        let i = choose|i: int| 0 <= i < rest.len() && rest[i] == t as u16;
        if board[k].is_full_spec() {
            assert(active_indices(board, k)[i] == t as u16);
        } else {
            assert(active_indices(board, k)[i + 1] == t as u16);
        }
    }
}

/// Every listed active index names a not-full container in range.
proof fn lemma_active_indices_sound(board: Seq<Bottle>, k: int)
    requires
        board.len() <= u16::MAX,
        0 <= k <= board.len(),
    ensures
        forall|i: int|
            0 <= i < active_indices(board, k).len() ==> k <= (#[trigger] active_indices(
                board,
                k,
            )[i] as int) < board.len() && !board[active_indices(board, k)[i] as int].is_full_spec(),
    decreases board.len() - k,
{
    if k < board.len() {
        lemma_active_indices_sound(board, k + 1);
        assert forall|i: int| 0 <= i < active_indices(board, k).len() implies k <= (
        active_indices(board, k)[i] as int) < board.len() && !board[active_indices(
            board,
            k,
        )[i] as int].is_full_spec() by {
            if board[k].is_full_spec() {
                assert(active_indices(board, k)[i] == active_indices(board, k + 1)[i]);
            } else if i == 0 {
                assert(active_indices(board, k)[0] == k as u16);
            } else {
                assert(active_indices(board, k)[i] == active_indices(board, k + 1)[i - 1]);
            }
        }
    }
}

/// The solved check reads the whole board: with the active set holding
/// exactly the not-full containers (as a fresh puzzle's does), every active
/// container is empty exactly when every container is terminal.
pub proof fn lemma_done_means_terminal(board: Seq<Bottle>)
    requires
        board.len() <= u16::MAX,
    ensures
        (forall|k: int|
            0 <= k < active_indices(board, 0).len() ==> board[#[trigger] active_indices(
                board,
                0,
            )[k] as int].is_empty_spec()) <==> (forall|j: int|
            0 <= j < board.len() ==> (#[trigger] board[j]).is_full_spec()
                || board[j].is_empty_spec()),
{
    lemma_active_indices_sound(board, 0);
    let act = active_indices(board, 0);
    if forall|k: int| 0 <= k < act.len() ==> board[#[trigger] act[k] as int].is_empty_spec() {
        assert forall|j: int|
            0 <= j < board.len() implies (#[trigger] board[j]).is_full_spec()
            || board[j].is_empty_spec() by {
            if !board[j].is_full_spec() {
                lemma_active_indices_complete(board, 0, j);
                assert(act.contains(j as u16));
                let i = choose|i: int| 0 <= i < act.len() && act[i] == j as u16;
                assert(0 <= i < act.len() && act[i] == j as u16);
                assert(board[act[i] as int].is_empty_spec());
            }
        }
    }
    if forall|j: int|
        0 <= j < board.len() ==> (#[trigger] board[j]).is_full_spec()
            || board[j].is_empty_spec() {
        assert forall|k: int|
            0 <= k < act.len() implies board[#[trigger] act[k] as int].is_empty_spec() by {
            assert(!board[act[k] as int].is_full_spec());
        }
    }
}

/// The pointer shape that building the board leaves behind: from the sentinel
/// and from every not-full slot, `next` names the next not-full slot, or the
/// sentinel when none is left.
pub open spec fn active_linked(nodes: Seq<Node>, board: Seq<Bottle>) -> bool {
    let n = board.len() as int;
    &&& nodes.len() == n + 1
    &&& nodes[n].next as int == next_active(board, -1, n)
    &&& forall|k: int|
        0 <= k < n && !board[k].is_full_spec()
            ==> (#[trigger] nodes[k]).next as int == next_active(board, k, n)
}

/// Walking such a shape gathers exactly the not-full indices, ascending.
proof fn lemma_chain_active(nodes: Seq<Node>, board: Seq<Bottle>, m: int, fuel: nat)
    requires
        active_linked(nodes, board),
        0 <= m <= board.len(),
        fuel >= board.len() - m,
    ensures
        chain(nodes, next_active(board, m - 1, board.len() as int), fuel)
            == active_indices(board, m),
    decreases board.len() - m,
{
    let n = board.len() as int;
    if m == n {
        assert(next_active(board, m - 1, n) == n);
        assert(chain(nodes, n, fuel) == Seq::<u16>::empty());
    } else if board[m].is_full_spec() {
        assert(next_active(board, m - 1, n) == next_active(board, m, n));
        lemma_chain_active(nodes, board, m + 1, fuel);
    } else {
        assert(next_active(board, m - 1, n) == m);
        assert(nodes[m].next as int == next_active(board, m, n));
        lemma_chain_active(nodes, board, m + 1, (fuel - 1) as nat);
        assert(chain(nodes, m, fuel) == seq![m as u16] + chain(
            nodes,
            nodes[m].next as int,
            (fuel - 1) as nat,
        ));
    }
}

/// Append an entry to bucket `k`, leaving every other bucket as it was.
fn push_entry(ret: &mut Vec<Vec<(u16, u16, u16)>>, k: usize, e: (u16, u16, u16))
    requires
        k < old(ret)@.len(),
    ensures
        final(ret)@.len() == old(ret)@.len(),
        forall|t: int|
            0 <= t < old(ret)@.len() && t != k ==> #[trigger] final(ret)@[t] == old(ret)@[t],
        final(ret)@[k as int]@ == old(ret)@[k as int]@.push(e),
{
    let mut bucket = ret.remove(k);
    bucket.push(e);
    ret.insert(k, bucket);
}

pub struct Puzzle {
    /// Number of color buckets: the distinct colors plus the empty bucket 0.
    pub count: usize,
    pub board: Vec<Bottle>,
    /// Indices of the containers not yet confirmed terminal-full.
    pub list: List,
    /// The shared capacity of every container.
    pub cap: u16,
}

/// The container indices one bucket holds, as a multiset.
pub open spec fn row_indices(v: Seq<(u16, u16, u16)>) -> Multiset<u16>
    decreases v.len(),
{
    if v.len() == 0 {
        Multiset::empty()
    } else {
        row_indices(v.drop_last()).insert(v.last().0)
    }
}

/// The container indices all buckets hold together, as a multiset.
pub open spec fn bucket_indices(ret: Seq<Vec<(u16, u16, u16)>>) -> Multiset<u16>
    decreases ret.len(),
{
    if ret.len() == 0 {
        Multiset::empty()
    } else {
        bucket_indices(ret.drop_last()).add(row_indices(ret.last()@))
    }
}

/// Buckets that are all empty hold no index.
proof fn lemma_bucket_indices_empty(ret: Seq<Vec<(u16, u16, u16)>>)
    requires
        forall|k: int| 0 <= k < ret.len() ==> (#[trigger] ret[k])@.len() == 0,
    ensures
        bucket_indices(ret) == Multiset::<u16>::empty(),
    decreases ret.len(),
{
    if ret.len() > 0 {
        lemma_bucket_indices_empty(ret.drop_last());
        assert(ret[ret.len() - 1]@.len() == 0);
        assert(row_indices(ret.last()@) == Multiset::<u16>::empty());
        assert(bucket_indices(ret) =~= Multiset::<u16>::empty());
    }
}

/// Replacing one bucket by itself plus one entry adds that entry's index.
proof fn lemma_bucket_indices_update(
    ret: Seq<Vec<(u16, u16, u16)>>,
    k: int,
    nb: Vec<(u16, u16, u16)>,
    x: u16,
)
    requires
        0 <= k < ret.len(),
        row_indices(nb@) == row_indices(ret[k]@).insert(x),
    ensures
        bucket_indices(ret.update(k, nb)) == bucket_indices(ret).insert(x),
    decreases ret.len(),
{
    let upd = ret.update(k, nb);
    if k == ret.len() - 1 {
        assert(upd.drop_last() =~= ret.drop_last());
        assert(upd.last() == nb);
        assert(bucket_indices(upd) =~= bucket_indices(ret).insert(x));
    } else {
        assert(upd.drop_last() =~= ret.drop_last().update(k, nb));
        assert(upd.last() == ret.last());
        assert(ret.drop_last()[k] == ret[k]);
        lemma_bucket_indices_update(ret.drop_last(), k, nb, x);
        assert(bucket_indices(upd) =~= bucket_indices(ret).insert(x));
    }
}

/// Appending one entry to one bucket adds exactly its index to the whole.
proof fn lemma_push_entry_indices(
    oldret: Seq<Vec<(u16, u16, u16)>>,
    newret: Seq<Vec<(u16, u16, u16)>>,
    k: int,
    e: (u16, u16, u16),
)
    requires
        0 <= k < oldret.len(),
        newret.len() == oldret.len(),
        forall|t: int| 0 <= t < oldret.len() && t != k ==> #[trigger] newret[t] == oldret[t],
        newret[k]@ == oldret[k]@.push(e),
    ensures
        bucket_indices(newret) == bucket_indices(oldret).insert(e.0),
{
    assert(newret =~= oldret.update(k, newret[k]));
    assert(newret[k]@.drop_last() =~= oldret[k]@);
    assert(row_indices(newret[k]@) == row_indices(oldret[k]@).insert(e.0));
    lemma_bucket_indices_update(oldret, k, newret[k], e.0);
}

/// Copy a run vector.
fn copy_runs(v: &Vec<(u16, u16)>) -> (r: Vec<(u16, u16)>)
    ensures
        r@ == v@,
{
    let mut r: Vec<(u16, u16)> = Vec::new();
    let mut i: usize = 0;
    while i < v.len()
        invariant
            0 <= i <= v@.len(),
            r@ == v@.take(i as int),
        decreases v@.len() - i,
    {
        r.push(v[i]);
        proof {
            assert(r@ =~= v@.take(i + 1));
        }
        i += 1;
    }
    proof {
        assert(v@.take(v@.len() as int) =~= v@);
    }
    r
}

impl Puzzle {
    pub open spec fn wf(self) -> bool {
        &&& 1 <= self.board@.len() <= u16::MAX
        &&& self.list.wf()
        &&& self.list.nodes@.len() == self.board@.len() + 1
        &&& 1 <= self.count
        &&& forall|j: int|
            0 <= j < self.board@.len()
                ==> (#[trigger] self.board@[j]).wf(self.cap as nat)
                    && self.board@[j].colors_lt(self.count as nat)
    }

    /// Build the board from its cells; containers already terminal-full start
    /// outside the active set.
    pub fn new(count: usize, cells: &Vec<Vec<u16>>, n: u16) -> (p: Puzzle)
        requires
            1 <= cells@.len() <= u16::MAX,
            count >= 1,
            forall|j: int| 0 <= j < cells@.len() ==> (#[trigger] cells@[j])@.len() == n,
            forall|j: int| 0 <= j < cells@.len() ==> row_ok((#[trigger] cells@[j])@),
            forall|j: int, i: int|
                0 <= j < cells@.len() && 0 <= i < cells@[j]@.len()
                    ==> #[trigger] cells@[j]@[i] < count,
        ensures
            p.wf(),
            p.cap == n,
            p.count == count,
            p.board@.len() == cells@.len(),
            forall|j: int|
                0 <= j < cells@.len() ==> (#[trigger] p.board@[j]).cells() == cells@[j]@,
            p.list.members() == active_indices(p.board@, 0),
    {
        let mut list = List::new(cells.len());
        let mut board: Vec<Bottle> = Vec::new();
        let mut j: usize = 0;
        while j < cells.len()
            invariant
                0 <= j <= cells@.len(),
                1 <= cells@.len() <= u16::MAX,
                count >= 1,
                forall|t: int| 0 <= t < cells@.len() ==> (#[trigger] cells@[t])@.len() == n,
                forall|t: int| 0 <= t < cells@.len() ==> row_ok((#[trigger] cells@[t])@),
                forall|t: int, i: int|
                    0 <= t < cells@.len() && 0 <= i < cells@[t]@.len()
                        ==> #[trigger] cells@[t]@[i] < count,
                board@.len() == j,
                list.wf(),
                list.nodes@.len() == cells@.len() + 1,
                list.nodes@[cells@.len() as int].next as int == building_next(
                    board@,
                    -1,
                    j as int,
                    cells@.len() as int,
                ),
                forall|k: int|
                    0 <= k < j && !board@[k].is_full_spec()
                        ==> (#[trigger] list.nodes@[k]).next as int == building_next(
                            board@,
                            k,
                            j as int,
                            cells@.len() as int,
                        ),
                forall|k: int|
                    j <= k < cells@.len() ==> (#[trigger] list.nodes@[k]).next as int == k + 1,
                forall|k: int|
                    j < k < cells@.len() ==> (#[trigger] list.nodes@[k]).prev as int == k - 1,
                j < cells@.len() ==> boundary_prev_ok(
                    list.nodes@,
                    board@,
                    j as int,
                    cells@.len() as int,
                ),
                forall|t: int|
                    0 <= t < j
                        ==> (#[trigger] board@[t]).wf(n as nat)
                            && board@[t].colors_lt(count as nat)
                            && board@[t].cells() == cells@[t]@,
            decreases cells@.len() - j,
        {
            let ghost nn = cells@.len() as int;
            let ghost jj = j as int;
            let ghost oldnodes = list.nodes@;
            let ghost oldboard = board@;
            let b = Bottle::new(&cells[j]);
            proof {
                assert forall|k: int| 0 <= k < b.data@.len() implies (#[trigger] b.data@[k]).0
                    < count by {
                    assert(cells@[j as int]@.contains(b.data@[k].0));
                    let idx = choose|idx: int|
                        0 <= idx < cells@[j as int]@.len() && cells@[j as int]@[idx]
                            == b.data@[k].0;
                    assert(cells@[j as int]@[idx] < count);
                }
            }
            if b.is_full() {
                list.remove(j);
                proof {
                    let newboard = oldboard.push(b);
                    let p = oldnodes[jj].prev as int;
                    let q = oldnodes[jj].next as int;
                    assert(q == jj + 1);
                    // pointwise effect of the removal
                    assert(list.nodes@[p].next as int == jj + 1);
                    assert(forall|k: int|
                        0 <= k <= nn && k != p && k != q ==> (#[trigger] list.nodes@[k]).next
                            == oldnodes[k].next);
                    assert(q != p ==> list.nodes@[q].next == oldnodes[q].next);
                    assert(list.nodes@[q].prev as int == p);
                    // the sentinel pointer
                    if p == nn {
                        assert(next_active(oldboard, -1, jj) == jj);
                        lemma_next_active_push(oldboard, b, -1, jj);
                        assert(next_active(newboard, -1, jj + 1) == jj + 1);
                        assert(list.nodes@[nn].next as int == jj + 1);
                        assert(list.nodes@[nn].next as int == building_next(
                            newboard,
                            -1,
                            jj + 1,
                            nn,
                        ));
                    } else {
                        assert(0 <= p < jj && !oldboard[p].is_full_spec());
                        lemma_next_active_bounds(oldboard, -1, jj);
                        if next_active(oldboard, -1, jj) == jj {
                            lemma_next_active_all_full(oldboard, -1, jj);
                            assert(false);
                        }
                        assert(next_active(oldboard, -1, jj) < jj);
                        lemma_next_active_push(oldboard, b, -1, jj);
                        assert(list.nodes@[nn].next == oldnodes[nn].next);
                        assert(list.nodes@[nn].next as int == building_next(
                            newboard,
                            -1,
                            jj + 1,
                            nn,
                        ));
                    }
                    // linked processed slots
                    assert forall|k: int|
                        0 <= k < jj + 1 && !newboard[k].is_full_spec() implies (
                    #[trigger] list.nodes@[k]).next as int == building_next(
                        newboard,
                        k,
                        jj + 1,
                        nn,
                    ) by {
                        assert(k < jj);
                        assert(newboard[k] == oldboard[k]);
                        lemma_next_active_push(oldboard, b, k, jj);
                        if k == p {
                            assert(next_active(oldboard, p, jj) == jj);
                            assert(next_active(newboard, p, jj + 1) == jj + 1);
                        } else {
                            lemma_next_active_bounds(oldboard, k, jj);
                            if next_active(oldboard, k, jj) == jj {
                                lemma_next_active_all_full(oldboard, k, jj);
                                if p == nn {
                                    lemma_next_active_all_full(oldboard, -1, jj);
                                    assert(!oldboard[k].is_full_spec());
                                    assert(false);
                                } else if p < k {
                                    lemma_next_active_all_full(oldboard, p, jj);
                                    assert(oldboard[k].is_full_spec());
                                    assert(false);
                                } else {
                                    assert(k < p < jj);
                                    assert(oldboard[p].is_full_spec());
                                    assert(false);
                                }
                            }
                            assert(next_active(oldboard, k, jj) < jj);
                            assert(oldnodes[k].next as int == next_active(oldboard, k, jj));
                            assert(k != q);
                            assert(list.nodes@[k].next == oldnodes[k].next);
                        }
                    }
                    // fresh suffix
                    assert(forall|k: int|
                        jj + 1 <= k < nn ==> (#[trigger] list.nodes@[k]).next as int == k + 1);
                    // the new boundary's prev
                    if jj + 1 < nn {
                        assert(list.nodes@[jj + 1].prev as int == p);
                        lemma_next_active_push(oldboard, b, if p == nn { -1int } else { p }, jj);
                        assert(boundary_prev_ok(list.nodes@, newboard, jj + 1, nn));
                    }
                }
            } else {
                proof {
                    let newboard = oldboard.push(b);
                    assert(list.nodes@ == oldnodes);
                    // sentinel and linked slots keep their meaning
                    lemma_next_active_bounds(oldboard, -1, jj);
                    lemma_next_active_push(oldboard, b, -1, jj);
                    assert(list.nodes@[nn].next as int == building_next(
                        newboard,
                        -1,
                        jj + 1,
                        nn,
                    ));
                    assert forall|k: int|
                        0 <= k < jj + 1 && !newboard[k].is_full_spec() implies (
                    #[trigger] list.nodes@[k]).next as int == building_next(
                        newboard,
                        k,
                        jj + 1,
                        nn,
                    ) by {
                        if k < jj {
                            assert(newboard[k] == oldboard[k]);
                            lemma_next_active_bounds(oldboard, k, jj);
                            lemma_next_active_push(oldboard, b, k, jj);
                        } else {
                            assert(k == jj);
                            assert(list.nodes@[jj].next as int == jj + 1);
                            assert(next_active(newboard, jj, jj + 1) == jj + 1);
                        }
                    }
                    // the new boundary's prev
                    if jj + 1 < nn {
                        assert(list.nodes@[jj + 1].prev as int == jj);
                        assert(next_active(newboard, jj, jj + 1) == jj + 1);
                        assert(boundary_prev_ok(list.nodes@, newboard, jj + 1, nn));
                    }
                }
            }
            board.push(b);
            j += 1;
        }
        let p = Puzzle { count, board, list, cap: n };
        proof {
            let nn = cells@.len() as int;
            assert(active_linked(p.list.nodes@, p.board@)) by {
                lemma_next_active_bounds(p.board@, -1, nn);
                assert(p.list.nodes@[nn].next as int == building_next(p.board@, -1, nn, nn));
                assert forall|k: int|
                    0 <= k < nn && !p.board@[k].is_full_spec() implies (
                #[trigger] p.list.nodes@[k]).next as int == next_active(p.board@, k, nn) by {
                    assert(p.list.nodes@[k].next as int == building_next(p.board@, k, nn, nn));
                    lemma_next_active_bounds(p.board@, k, nn);
                }
            }
            lemma_chain_active(p.list.nodes@, p.board@, 0, (p.board@.len()) as nat);
            assert(p.list.members() == active_indices(p.board@, 0));
        }
        p
    }

    /// Whether every container still in the active set is terminal-empty:
    /// true exactly when every index on the active chain holds an empty
    /// container.  (Indices removed from the chain are terminal-full, so this
    /// is the solved check; the solver nevertheless replays any candidate
    /// solution against the raw board before returning it.)
    pub fn is_done(&self) -> (r: bool)
        requires
            self.wf(),
        ensures
            r == (forall|k: int|
                0 <= k < self.list.members().len()
                    ==> self.board@[#[trigger] self.list.members()[k] as int].is_empty_spec()),
    {
        let v = self.list.iter();
        let mut t: usize = 0;
        while t < v.len()
            invariant
                self.wf(),
                0 <= t <= v@.len(),
                v@.len() == self.list.members().len(),
                v@.len() <= self.board@.len(),
                forall|k: int| 0 <= k < v@.len() ==> (#[trigger] v@[k]) < self.board@.len(),
                forall|k: int|
                    0 <= k < v@.len() ==> (#[trigger] v@[k]) == self.list.members()[k] as usize,
                forall|k: int|
                    0 <= k < t
                        ==> self.board@[#[trigger] self.list.members()[k] as int].is_empty_spec(),
            decreases v@.len() - t,
        {
            if !self.board[v[t]].is_empty() {
                proof {
                    assert(!self.board@[self.list.members()[t as int] as int].is_empty_spec());
                }
                return false;
            }
            t += 1;
        }
        true
    }

    /// Group the active containers by the color at their accessible end.
    /// Bucket 0 gathers the empty containers; bucket `c` the containers whose
    /// outermost run has color `c`.  Each entry is (index, free, run count).
    pub fn get_kind(&self) -> (ret: Vec<Vec<(u16, u16, u16)>>)
        requires
            self.wf(),
        ensures
            ret@.len() == self.count,
            bucket_indices(ret@) == self.list.members().to_multiset(),
            forall|k: int|
                0 <= k < ret@.len() ==> (#[trigger] ret@[k])@.len() <= self.board@.len(),
            forall|k: int, t: int|
                0 <= k < ret@.len() && 0 <= t < ret@[k]@.len() ==> {
                    let e = #[trigger] ret@[k]@[t];
                    &&& (e.0 as int) < self.board@.len()
                    &&& (k == 0 ==> self.board@[e.0 as int].is_empty_spec() && e.1 == self.cap
                        && e.2 == 0)
                    &&& (k != 0 ==> !self.board@[e.0 as int].is_empty_spec()
                        && e.1 == self.board@[e.0 as int].air
                        && self.board@[e.0 as int].data@.last() == (k as u16, e.2))
                },
    {
        let mut ret: Vec<Vec<(u16, u16, u16)>> = Vec::new();
        let mut k: usize = 0;
        while k < self.count
            invariant
                0 <= k <= self.count,
                ret@.len() == k,
                forall|t: int| 0 <= t < k ==> (#[trigger] ret@[t])@.len() == 0,
            decreases self.count - k,
        {
            ret.push(Vec::new());
            k += 1;
        }
        let v = self.list.iter();
        let mut t: usize = 0;
        proof {
            lemma_bucket_indices_empty(ret@);
            broadcast use vstd::seq_lib::group_to_multiset_ensures;

            assert(self.list.members().take(0) =~= Seq::<u16>::empty());
            assert(Seq::<u16>::empty().to_multiset() =~= Multiset::<u16>::empty());
        }
        while t < v.len()
            invariant
                self.wf(),
                0 <= t <= v@.len(),
                v@.len() <= self.board@.len(),
                v@.len() == self.list.members().len(),
                forall|s: int| 0 <= s < v@.len() ==> (#[trigger] v@[s]) < self.board@.len(),
                forall|s: int|
                    0 <= s < v@.len() ==> (#[trigger] v@[s]) == self.list.members()[s] as usize,
                ret@.len() == self.count,
                bucket_indices(ret@) == self.list.members().take(t as int).to_multiset(),
                forall|k: int|
                    0 <= k < ret@.len() ==> (#[trigger] ret@[k])@.len() <= t,
                forall|k: int, s: int|
                    0 <= k < ret@.len() && 0 <= s < ret@[k]@.len() ==> {
                        let e = #[trigger] ret@[k]@[s];
                        &&& (e.0 as int) < self.board@.len()
                        &&& (k == 0 ==> self.board@[e.0 as int].is_empty_spec() && e.1
                            == self.cap && e.2 == 0)
                        &&& (k != 0 ==> !self.board@[e.0 as int].is_empty_spec()
                            && e.1 == self.board@[e.0 as int].air
                            && self.board@[e.0 as int].data@.last() == (k as u16, e.2))
                    },
            decreases v@.len() - t,
        {
            let j = v[t];
            let ghost oldret = ret@;
            let b = &self.board[j];
            if b.is_empty() {
                push_entry(&mut ret, 0, (j as u16, self.cap, 0));
                proof {
                    lemma_push_entry_indices(oldret, ret@, 0, (j as u16, self.cap, 0));
                }
            } else {
                let last = b.data.len() - 1;
                let (kind, cnt) = b.data[last];
                proof {
                    assert(b.data@[last as int].0 < self.count);
                }
                push_entry(&mut ret, kind as usize, (j as u16, b.air, cnt));
                proof {
                    lemma_push_entry_indices(oldret, ret@, kind as int, (j as u16, b.air, cnt));
                }
            }
            proof {
                broadcast use vstd::seq_lib::group_to_multiset_ensures;

                let mem = self.list.members();
                assert(mem[t as int] as usize == j && j <= u16::MAX);
                assert(mem[t as int] == j as u16);
                assert(bucket_indices(ret@) == bucket_indices(oldret).insert(j as u16));
                assert(mem.take(t + 1) =~= mem.take(t as int).push(mem[t as int]));
                assert(mem.take(t as int).push(mem[t as int]).to_multiset() =~= mem.take(
                    t as int,
                ).to_multiset().insert(mem[t as int]));
                assert(bucket_indices(ret@) == mem.take(t + 1).to_multiset());
            }
            t += 1;
        }
        proof {
            assert(self.list.members().take(self.list.members().len() as int)
                =~= self.list.members());
        }
        ret
    }

    /// Transfer `len` units of the outermost run of `src` onto `dst`.  The
    /// run shrinks or disappears on one side; on the other it merges with a
    /// run of the same color or starts a new one.  Callers guarantee the
    /// mechanics: the amount fits the source's outermost run and the
    /// destination's free space.
    pub fn pour(&mut self, src: usize, dst: usize, len: u16)
        requires
            old(self).wf(),
            src < old(self).board@.len(),
            dst < old(self).board@.len(),
            src != dst,
            old(self).board@[src as int].data@.len() > 0,
            1 <= len <= old(self).board@[src as int].data@.last().1,
            len <= old(self).board@[dst as int].air,
        ensures
            final(self).wf(),
            final(self).count == old(self).count,
            final(self).cap == old(self).cap,
            final(self).list == old(self).list,
            final(self).board@.len() == old(self).board@.len(),
            forall|t: int|
                0 <= t < old(self).board@.len() && t != src && t != dst
                    ==> final(self).board@[t] == old(self).board@[t],
            ({
                let sb = old(self).board@[src as int];
                let nb = final(self).board@[src as int];
                let color = sb.data@.last().0;
                &&& nb.air == sb.air + len
                &&& (sb.data@.last().1 == len ==> nb.data@ == sb.data@.drop_last())
                &&& (sb.data@.last().1 != len ==> nb.data@ == sb.data@.update(
                    sb.data@.len() - 1,
                    (color, (sb.data@.last().1 - len) as u16),
                ))
            }),
            ({
                let sb = old(self).board@[src as int];
                let db = old(self).board@[dst as int];
                let nb = final(self).board@[dst as int];
                let color = sb.data@.last().0;
                &&& nb.air == db.air - len
                &&& ((db.data@.len() == 0 || db.data@.last().0 != color) ==> nb.data@
                    == db.data@.push((color, len)))
                &&& ((db.data@.len() > 0 && db.data@.last().0 == color) ==> nb.data@
                    == db.data@.update(db.data@.len() - 1, (color, (db.data@.last().1 + len) as u16)))
            }),
    {
        let ghost sb = self.board@[src as int];
        let ghost db = self.board@[dst as int];
        let ghost cap = self.cap as nat;
        let slast = self.board[src].data.len() - 1;
        let (color, scnt) = self.board[src].data[slast];
        let sair = self.board[src].air;
        proof {
            lemma_sum_ge_last(sb.data@);
        }
        let mut sdata = copy_runs(&self.board[src].data);
        if scnt == len {
            sdata.pop();
            proof {
                assert(sdata@ =~= sb.data@.drop_last());
            }
        } else {
            sdata.set(slast, (color, scnt - len));
            proof {
                lemma_sum_update_last(sb.data@, (color, (scnt - len) as u16));
            }
        }
        let new_src = Bottle { air: sair + len, data: sdata };
        proof {
            assert(new_src.wf(cap));
            assert(new_src.colors_lt(self.count as nat));
        }
        let dair = self.board[dst].air;
        let dlen = self.board[dst].data.len();
        let mut ddata = copy_runs(&self.board[dst].data);
        if dlen == 0 || ddata[dlen - 1].0 != color {
            ddata.push((color, len));
            proof {
                lemma_sum_push(db.data@, (color, len));
            }
        } else {
            let (c0, c1) = ddata[dlen - 1];
            proof {
                lemma_sum_ge_last(db.data@);
            }
            ddata.set(dlen - 1, (c0, c1 + len));
            proof {
                lemma_sum_update_last(db.data@, (c0, (c1 + len) as u16));
            }
        }
        let new_dst = Bottle { air: dair - len, data: ddata };
        proof {
            assert(new_dst.wf(cap));
            assert(new_dst.colors_lt(self.count as nat));
        }
        self.board.set(src, new_src);
        self.board.set(dst, new_dst);
    }

    /// The board fingerprint, used by the solver as a dead-end cache key.
    /// Collisions only ever prune; a pruned state was proved dead or shares
    /// its fingerprint with one that was.
    pub fn hash(&self) -> (h: u64)
        ensures
            h == hash_spec(self.board@),
    {
        let mut h: u64 = HASH_SEED;
        let mut j: usize = 0;
        proof {
            assert(self.board@.skip(0) =~= self.board@);
        }
        while j < self.board.len()
            invariant
                0 <= j <= self.board@.len(),
                hash_spec(self.board@) == hash_bottles(self.board@.skip(j as int), h),
            decreases self.board@.len() - j,
        {
            let ghost h0 = h;
            let runs = &self.board[j].data;
            let mut i: usize = 0;
            proof {
                assert(runs@.skip(0) =~= runs@);
            }
            while i < runs.len()
                invariant
                    0 <= i <= runs@.len(),
                    hash_runs(runs@, h0) == hash_runs(runs@.skip(i as int), h),
                decreases runs@.len() - i,
            {
                proof {
                    assert(runs@.skip(i as int).drop_first() =~= runs@.skip(i + 1));
                    assert(runs@.skip(i as int).first() == runs@[i as int]);
                }
                let (c, cnt) = runs[i];
                h = mix(mix(h, c as u64), cnt as u64);
                i += 1;
            }
            proof {
                assert(runs@.skip(runs@.len() as int) =~= Seq::<(u16, u16)>::empty());
                assert(self.board@.skip(j as int).drop_first() =~= self.board@.skip(j + 1));
                assert(self.board@.skip(j as int).first() == self.board@[j as int]);
            }
            h = mix(h, HASH_MARK);
            j += 1;
        }
        proof {
            assert(self.board@.skip(self.board@.len() as int) =~= Seq::<Bottle>::empty());
        }
        h
    }
}

pub const HASH_SEED: u64 = 0xcbf29ce484222325;

pub const HASH_PRIME: u64 = 0x100000001b3;

/// Separates one container's runs from the next in the fingerprint.
pub const HASH_MARK: u64 = 0xff;

/// One multiply-xor step of the fingerprint.
#[verifier::allow_in_spec]
pub fn mix(h: u64, x: u64) -> u64
    returns
        (h ^ x).wrapping_mul(HASH_PRIME),
{
    (h ^ x).wrapping_mul(HASH_PRIME)
}

/// The fingerprint of one container's runs, folded left over a seed.
pub open spec fn hash_runs(runs: Seq<(u16, u16)>, h: u64) -> u64
    decreases runs.len(),
{
    if runs.len() == 0 {
        h
    } else {
        hash_runs(runs.drop_first(), mix(mix(h, runs.first().0 as u64), runs.first().1 as u64))
    }
}

/// The fingerprint of the whole board's run sequences.
pub open spec fn hash_bottles(board: Seq<Bottle>, h: u64) -> u64
    decreases board.len(),
{
    if board.len() == 0 {
        h
    } else {
        hash_bottles(board.drop_first(), mix(hash_runs(board.first().data@, h), HASH_MARK))
    }
}

pub open spec fn hash_spec(board: Seq<Bottle>) -> u64 {
    hash_bottles(board, HASH_SEED)
}

} // verus!
