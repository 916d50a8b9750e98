//! The validator: structural legality of a raw board description.

use vstd::prelude::*;
use crate::model::{
    board_shaped, board_view, check_spec, count_in_board, count_in_row, lemma_count_absent,
    row_ok,
};

verus! {

/// Linear scan membership test.
fn contains_u16(v: &Vec<u16>, x: u16) -> (r: bool)
    ensures
        r == v@.contains(x),
{
    let mut k: usize = 0;
    while k < v.len()
        invariant
            0 <= k <= v@.len(),
            forall|t: int| 0 <= t < k ==> v@[t] != x,
        decreases v@.len() - k,
    {
        if v[k] == x {
            return true;
        }
        k += 1;
    }
    false
}

/// Occurrences of color `c` in one container, equal to the model count.
fn count_color_in_row(row: &Vec<u16>, c: u16) -> (cnt: usize)
    requires
        row@.len() <= usize::MAX,
    ensures
        cnt == count_in_row(row@, c),
        cnt <= row@.len(),
{
    let mut cnt: usize = 0;
    let mut i: usize = 0;
    while i < row.len()
        invariant
            0 <= i <= row@.len(),
            cnt == count_in_row(row@.take(i as int), c),
            cnt <= i,
        decreases row@.len() - i,
    {
        proof {
            assert(row@.take(i + 1).drop_last() =~= row@.take(i as int));
            assert(row@.take(i + 1).last() == row@[i as int]);
        }
        if row[i] == c {
            cnt += 1;
        }
        i += 1;
    }
    proof {
        assert(row@.take(row@.len() as int) =~= row@);
    }
    cnt
}

/// The validator.  Accepts exactly the boards whose every color count is a
/// multiple of the capacity and whose empty slots sit, in every container,
/// only as a contiguous block at the accessible end.  Reads the board through
/// a shared reference and never changes it.
pub fn wp_check(board: &Vec<Vec<u16>>, n: usize) -> (r: bool)
    requires
        n >= 1,
        board_shaped(board_view(board@), n as nat),
        board@.len() * n <= usize::MAX,
    ensures
        r == check_spec(board_view(board@), n as nat),
{
    let ghost bv = board_view(board@);
    // Empty slots must form a prefix of every container.
    let mut j: usize = 0;
    while j < board.len()
        invariant
            0 <= j <= board@.len(),
            bv == board_view(board@),
            forall|t: int| 0 <= t < j ==> row_ok(#[trigger] bv[t]),
        decreases board@.len() - j,
    {
        let row = &board[j];
        let ghost rv = row@;
        proof {
            assert(rv == bv[j as int]);
        }
        let mut seen: bool = false;
        let mut w: usize = 0;
        let mut i: usize = 0;
        while i < row.len()
            invariant
                0 <= i <= rv.len(),
                rv == row@,
                0 <= j < board@.len(),
                bv == board_view(board@),
                rv == bv[j as int],
                seen ==> w < i && rv[w as int] != 0,
                !seen ==> forall|a: int| 0 <= a < i ==> rv[a] == 0,
                forall|a: int, b: int| 0 <= a < b < i && rv[a] != 0 ==> rv[b] != 0,
            decreases rv.len() - i,
        {
            if row[i] == 0 {
                if seen {
                    proof {
                        assert(0 <= w < i < rv.len() && rv[w as int] != 0 && rv[i as int] == 0);
                        assert(!row_ok(bv[j as int]));
                        assert(!check_spec(bv, n as nat));
                    }
                    return false;
                }
            } else {
                seen = true;
                w = i;
            }
            i += 1;
        }
        proof {
            assert(row_ok(bv[j as int]));
        }
        j += 1;
    }
    // Gather the distinct colors that occur anywhere on the board.
    let mut colors: Vec<u16> = Vec::new();
    let mut j: usize = 0;
    while j < board.len()
        invariant
            0 <= j <= board@.len(),
            bv == board_view(board@),
            forall|t: int| 0 <= t < colors@.len() ==> colors@[t] != 0,
            forall|jj: int, ii: int|
                0 <= jj < j && 0 <= ii < bv[jj].len() && #[trigger] bv[jj][ii] != 0
                    ==> colors@.contains(bv[jj][ii]),
        decreases board@.len() - j,
    {
        let row = &board[j];
        let mut i: usize = 0;
        while i < row.len()
            invariant
                0 <= i <= row@.len(),
                row@ == bv[j as int],
                0 <= j < board@.len(),
                bv == board_view(board@),
                forall|t: int| 0 <= t < colors@.len() ==> colors@[t] != 0,
                forall|jj: int, ii: int|
                    0 <= jj < j && 0 <= ii < bv[jj].len() && #[trigger] bv[jj][ii] != 0
                        ==> colors@.contains(bv[jj][ii]),
                forall|ii: int|
                    0 <= ii < i && #[trigger] bv[j as int][ii] != 0
                        ==> colors@.contains(bv[j as int][ii]),
            decreases row@.len() - i,
        {
            let c = row[i];
            if c != 0 && !contains_u16(&colors, c) {
                let ghost oldc = colors@;
                colors.push(c);
                proof {
                    assert forall|x: u16| oldc.contains(x) implies colors@.contains(x) by {
                        let t = choose|t: int| 0 <= t < oldc.len() && oldc[t] == x;
                        assert(colors@[t] == x);
                    }
                    assert(colors@[colors@.len() - 1] == c);
                    assert(colors@.contains(c));
                }
            }
            i += 1;
        }
        j += 1;
    }
    // Every color that occurs must occur a multiple of `n` times.
    let mut t: usize = 0;
    while t < colors.len()
        invariant
            0 <= t <= colors@.len(),
            n >= 1,
            bv == board_view(board@),
            board@.len() * n <= usize::MAX,
            board_shaped(bv, n as nat),
            forall|tt: int| 0 <= tt < colors@.len() ==> colors@[tt] != 0,
            forall|tt: int|
                0 <= tt < t ==> count_in_board(bv, #[trigger] colors@[tt]) % (n as nat) == 0,
        decreases colors@.len() - t,
    {
        let c = colors[t];
        let mut cnt: usize = 0;
        let mut j: usize = 0;
        while j < board.len()
            invariant
                0 <= j <= board@.len(),
                bv == board_view(board@),
                board@.len() * n <= usize::MAX,
                board_shaped(bv, n as nat),
                cnt == count_in_board(bv.take(j as int), c),
                cnt <= j * n,
            decreases board@.len() - j,
        {
            proof {
                assert(bv[j as int].len() == n as nat);
                assert(board@[j as int]@ == bv[j as int]);
                assert(bv.take(j + 1).drop_last() =~= bv.take(j as int));
                assert(bv.take(j + 1).last() == bv[j as int]);
                assert((j + 1) * n == j * n + n) by (nonlinear_arith);
                assert((j + 1) * n <= board@.len() * n) by (nonlinear_arith)
                    requires
                        j + 1 <= board@.len(),
                        n >= 0,
                ;
            }
            let rc = count_color_in_row(&board[j], c);
            cnt += rc;
            j += 1;
        }
        proof {
            assert(bv.take(bv.len() as int) =~= bv);
        }
        if cnt % n != 0 {
            proof {
                assert(c != 0);
                assert(count_in_board(bv, c) % (n as nat) != 0);
                assert(!check_spec(bv, n as nat));
            }
            return false;
        }
        t += 1;
    }
    proof {
        assert forall|c: u16| c != 0 implies #[trigger] count_in_board(bv, c) % (n as nat)
            == 0 by {
            if colors@.contains(c) {
                let tt = choose|tt: int| 0 <= tt < colors@.len() && colors@[tt] == c;
                assert(count_in_board(bv, colors@[tt]) % (n as nat) == 0);
            } else {
                assert(forall|jj: int, ii: int|
                    0 <= jj < bv.len() && 0 <= ii < bv[jj].len() ==> bv[jj][ii] != c) by {
                    assert(forall|jj: int, ii: int|
                        0 <= jj < bv.len() && 0 <= ii < bv[jj].len() && #[trigger] bv[jj][ii]
                            != 0 ==> colors@.contains(bv[jj][ii]));
                }
                lemma_count_absent(bv, c);
                assert(count_in_board(bv, c) == 0);
                assert(count_in_board(bv, c) % (n as nat) == 0) by (nonlinear_arith)
                    requires
                        count_in_board(bv, c) == 0,
                        n >= 1,
                ;
            }
        }
        assert(check_spec(bv, n as nat));
    }
    true
}

} // verus!
