//! Laws of the validator and of the solver's result, stated over the board
//! model.

use vstd::prelude::*;
use crate::model::{check_spec, count_in_board, row_ok, solved, solves};

verus! {

/// A board whose every color count is a multiple of the capacity and whose
/// every container keeps its empty slots at the accessible end is accepted.
pub proof fn lemma_valid_board_accepted(b: Seq<Seq<u16>>, n: nat)
    requires
        forall|c: u16| c != 0 ==> #[trigger] count_in_board(b, c) % n == 0,
        forall|j: int| 0 <= j < b.len() ==> row_ok(#[trigger] b[j]),
    ensures
        check_spec(b, n),
{
}

/// A board with an empty gap below a colored cell in some container is
/// rejected: cell `i` of container `j` is colored, yet cell `k` below it is
/// an empty slot.
pub proof fn lemma_gap_rejected(b: Seq<Seq<u16>>, n: nat, j: int, i: int, k: int)
    requires
        0 <= j < b.len(),
        0 <= i < k < b[j].len(),
        b[j][i] != 0,
        b[j][k] == 0,
    ensures
        !check_spec(b, n),
{
    assert(!row_ok(b[j]));
}

/// A board where some color's total count is not a multiple of the capacity
/// is rejected.
pub proof fn lemma_indivisible_rejected(b: Seq<Seq<u16>>, n: nat, c: u16)
    requires
        c != 0,
        count_in_board(b, c) % n != 0,
    ensures
        !check_spec(b, n),
{
}

/// The verdict is a function of the board alone: two runs of the validator on
/// one board return one answer.  (The validator reads the board through a
/// shared reference, so it cannot change the board between the runs.)
pub proof fn lemma_validator_idempotent(b: Seq<Seq<u16>>, n: nat, v1: bool, v2: bool)
    requires
        v1 == check_spec(b, n),
        v2 == check_spec(b, n),
    ensures
        v1 == v2,
{
}


/// The empty answer is forced wherever it is owed: any result meeting the
/// solver's contract is empty on a board that is already solved, and on a
/// board that no move list at all solves.  (The converse — that a non-empty
/// answer comes back whenever some list solves the board — is not promised:
/// the dead-end cache works on fingerprints, and a collision may prune a
/// reachable state, an accepted approximation of the design.)
pub proof fn lemma_empty_answer_forced(b: Seq<Seq<u16>>, r: Seq<(usize, usize)>)
    requires
        r.len() != 0 ==> solves(b, r),
        solved(b) ==> r.len() == 0,
        solved(b) || (forall|mv: Seq<(usize, usize)>| !(#[trigger] solves(b, mv))),
    ensures
        r.len() == 0,
{
}

} // verus!
