//! Mathematical model of a board.
//!
//! A board is a sequence of containers; a container is a sequence of cells of
//! fixed capacity, index 0 at the accessible end.  Cell value 0 means an empty
//! slot; any other value is a color.  Empty slots may only form a prefix
//! (they sit at the accessible end), so a container is a zero prefix followed
//! by colored cells down to the bottom.

use vstd::prelude::*;

verus! {

/// Number of empty slots at the accessible end: the length of the zero prefix.
pub open spec fn free_of(row: Seq<u16>) -> nat
    decreases row.len(),
{
    if row.len() == 0 || row[0] != 0 {
        0
    } else {
        1 + free_of(row.drop_first())
    }
}

/// A zero prefix of length `k` bounded by a nonzero cell is the zero prefix.
pub proof fn lemma_free_of_unique(row: Seq<u16>, k: int)
    requires
        0 <= k <= row.len(),
        forall|i: int| 0 <= i < k ==> row[i] == 0,
        k < row.len() ==> row[k] != 0,
    ensures
        free_of(row) == k,
    decreases row.len(),
{
    if row.len() == 0 || row[0] != 0 {
    } else {
        assert(forall|i: int| 1 <= i < k ==> row.drop_first()[i - 1] == row[i]);
        assert(k - 1 < row.drop_first().len() ==> row.drop_first()[k - 1] == row[k]);
        lemma_free_of_unique(row.drop_first(), k - 1);
    }
}

/// Length of the maximal run of equal cells starting at index `i`.
pub open spec fn run_from(row: Seq<u16>, i: int) -> nat
    decreases row.len() - i,
{
    if i < 0 || i >= row.len() {
        0
    } else if i + 1 < row.len() && row[i + 1] == row[i] {
        1 + run_from(row, i + 1)
    } else {
        1
    }
}

/// A block of `r` equal cells bounded by a different cell is the maximal run.
pub proof fn lemma_run_from_unique(row: Seq<u16>, i: int, r: int)
    requires
        0 <= i < row.len(),
        1 <= r,
        i + r <= row.len(),
        forall|k: int| i <= k < i + r ==> row[k] == row[i],
        i + r < row.len() ==> row[i + r] != row[i],
    ensures
        run_from(row, i) == r,
    decreases r,
{
    if r == 1 {
    } else {
        assert(row[i + 1] == row[i]);
        lemma_run_from_unique(row, i + 1, r - 1);
    }
}

/// The color at the accessible end of a non-empty container.
pub open spec fn top_color(row: Seq<u16>) -> u16 {
    row[free_of(row) as int]
}

/// The length of the accessible run of a non-empty container.
pub open spec fn top_run(row: Seq<u16>) -> nat {
    run_from(row, free_of(row) as int)
}

/// A pour from container `s` to container `d` is legal when the two indices
/// are distinct, `s` holds at least one unit, `d` has at least one empty slot,
/// and `d` is either empty or topped with the color about to arrive.
pub open spec fn pour_legal(b: Seq<Seq<u16>>, s: int, d: int) -> bool {
    &&& 0 <= s < b.len()
    &&& 0 <= d < b.len()
    &&& s != d
    &&& free_of(b[s]) < b[s].len()
    &&& free_of(b[d]) > 0
    &&& (free_of(b[d]) == b[d].len() || top_color(b[d]) == top_color(b[s]))
}

/// A pour always transfers the maximal legal amount: the whole accessible run
/// of the source, capped by the free space of the destination.
pub open spec fn pour_amount(b: Seq<Seq<u16>>, s: int, d: int) -> nat {
    if top_run(b[s]) <= free_of(b[d]) {
        top_run(b[s])
    } else {
        free_of(b[d])
    }
}

/// The board after one maximal pour from `s` to `d`.
pub open spec fn do_pour(b: Seq<Seq<u16>>, s: int, d: int) -> Seq<Seq<u16>> {
    let fs = free_of(b[s]) as int;
    let fd = free_of(b[d]) as int;
    let amt = pour_amount(b, s, d) as int;
    let c = top_color(b[s]);
    let src2 = Seq::new(b[s].len(), |i: int| if fs <= i < fs + amt { 0u16 } else { b[s][i] });
    let dst2 = Seq::new(b[d].len(), |i: int| if fd - amt <= i < fd { c } else { b[d][i] });
    b.update(s, src2).update(d, dst2)
}

/// A container in its terminal empty state: no colored cell at all.
pub open spec fn row_empty(row: Seq<u16>) -> bool {
    forall|i: int| 0 <= i < row.len() ==> row[i] == 0
}

/// A container in its terminal full state: every cell holds one same color.
pub open spec fn row_full(row: Seq<u16>) -> bool {
    &&& row.len() > 0
    &&& row[0] != 0
    &&& forall|i: int| 0 <= i < row.len() ==> #[trigger] row[i] == row[0]
}

/// The puzzle is solved when every container is terminal.
pub open spec fn solved(b: Seq<Seq<u16>>) -> bool {
    forall|j: int| 0 <= j < b.len() ==> row_empty(b[j]) || row_full(b[j])
}

/// Replay a move list: apply each (source, destination) pair in order as a
/// maximal legal pour; `None` as soon as one of them is illegal.
pub open spec fn replay(b: Seq<Seq<u16>>, moves: Seq<(usize, usize)>) -> Option<Seq<Seq<u16>>>
    decreases moves.len(),
{
    if moves.len() == 0 {
        Some(b)
    } else if pour_legal(b, moves[0].0 as int, moves[0].1 as int) {
        replay(do_pour(b, moves[0].0 as int, moves[0].1 as int), moves.drop_first())
    } else {
        None
    }
}

/// A move list solves a board when replaying it is legal throughout and the
/// final state is terminal everywhere.
pub open spec fn solves(b: Seq<Seq<u16>>, moves: Seq<(usize, usize)>) -> bool {
    match replay(b, moves) {
        Some(b2) => solved(b2),
        None => false,
    }
}

/// Replaying a list is replaying a prefix, then the rest from where it led.
pub proof fn lemma_replay_split(b: Seq<Seq<u16>>, moves: Seq<(usize, usize)>, k: int)
    requires
        0 <= k <= moves.len(),
    ensures
        replay(b, moves) == match replay(b, moves.take(k)) {
            Some(b2) => replay(b2, moves.skip(k)),
            None => None::<Seq<Seq<u16>>>,
        },
    decreases k,
{
    if k == 0 {
        assert(moves.take(0) =~= Seq::<(usize, usize)>::empty());
        assert(moves.skip(0) =~= moves);
    } else {
        let m = moves[0];
        assert(moves.take(k)[0] == m);
        if pour_legal(b, m.0 as int, m.1 as int) {
            let b1 = do_pour(b, m.0 as int, m.1 as int);
            assert(moves.take(k).drop_first() =~= moves.drop_first().take(k - 1));
            assert(moves.skip(k) =~= moves.drop_first().skip(k - 1));
            lemma_replay_split(b1, moves.drop_first(), k - 1);
        } else {
            assert(replay(b, moves.take(k)) is None);
        }
    }
}

/// Empty slots form a contiguous block at the accessible end: once a colored
/// cell appears, everything below it is colored too.
pub open spec fn row_ok(row: Seq<u16>) -> bool {
    forall|i: int, j: int| 0 <= i < j < row.len() && row[i] != 0 ==> row[j] != 0
}

/// Every container of the board has exactly `n` cells.
pub open spec fn board_shaped(b: Seq<Seq<u16>>, n: nat) -> bool {
    forall|j: int| 0 <= j < b.len() ==> b[j].len() == n
}

/// Occurrences of color `c` in one container.
pub open spec fn count_in_row(row: Seq<u16>, c: u16) -> nat
    decreases row.len(),
{
    if row.len() == 0 {
        0
    } else {
        count_in_row(row.drop_last(), c) + if row.last() == c { 1nat } else { 0nat }
    }
}

/// Occurrences of color `c` across the whole board.
pub open spec fn count_in_board(b: Seq<Seq<u16>>, c: u16) -> nat
    decreases b.len(),
{
    if b.len() == 0 {
        0
    } else {
        count_in_board(b.drop_last(), c) + count_in_row(b.last(), c)
    }
}

/// The verdict of the validator: every color's total count is a multiple of
/// the capacity, and no container has an empty gap below a colored cell.
pub open spec fn check_spec(b: Seq<Seq<u16>>, n: nat) -> bool {
    &&& forall|c: u16| c != 0 ==> #[trigger] count_in_board(b, c) % n == 0
    &&& forall|j: int| 0 <= j < b.len() ==> row_ok(#[trigger] b[j])
}

/// The cell view of a board held as vectors.
pub open spec fn board_view(b: Seq<Vec<u16>>) -> Seq<Seq<u16>> {
    b.map_values(|v: Vec<u16>| v@)
}

/// A color absent from every cell occurs zero times.
pub proof fn lemma_count_absent_row(row: Seq<u16>, c: u16)
    requires
        forall|i: int| 0 <= i < row.len() ==> row[i] != c,
    ensures
        count_in_row(row, c) == 0,
    decreases row.len(),
{
    if row.len() > 0 {
        lemma_count_absent_row(row.drop_last(), c);
    }
}

pub proof fn lemma_count_absent(b: Seq<Seq<u16>>, c: u16)
    requires
        forall|j: int, i: int| 0 <= j < b.len() && 0 <= i < b[j].len() ==> b[j][i] != c,
    ensures
        count_in_board(b, c) == 0,
    decreases b.len(),
{
    if b.len() > 0 {
        lemma_count_absent(b.drop_last(), c);
        assert(forall|i: int| 0 <= i < b.last().len() ==> b.last()[i] != c) by {
            assert(forall|i: int| 0 <= i < b[b.len() - 1].len() ==> #[trigger] b[b.len() - 1][i] != c);
        }
        lemma_count_absent_row(b.last(), c);
    }
}

} // verus!
