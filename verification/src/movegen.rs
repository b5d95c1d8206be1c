//! The move-generation contract: which single-die moves a position allows,
//! what each move does to the board, and how single-die moves compose into
//! the full set of positions reachable from a dice roll.
//!
//! Both generators implement [`MoveGen`] and are verified against the same
//! specification, so their outputs agree as sets by contract.

pub mod basic;
pub mod simd;

use vstd::prelude::*;

use crate::types::board::{
    add_sign, bar_index, color_sum, dec_val, dest_of, home_point, inc_val, perspective_of, wf_seq,
    Board, BoardCoord,
};
use crate::types::board::{
    cell_contrib, lemma_color_sum_update, lemma_two_cells_le_color_sum,
};
use crate::types::dice::{Dice, Die};
use crate::types::prim::{owns, Bw};

verus! {

/// Whether cell value `v` is a point held by two or more of `c`'s opponents:
/// an illegal destination for `c`.
pub open spec fn blocked_for(v: i8, c: Bw) -> bool {
    match c {
        Bw::White => v <= -2,
        Bw::Black => v >= 2,
    }
}

/// Whether cell value `v` is exactly one opposing checker: a blot that a
/// landing checker of `c` captures.
pub open spec fn single_opp(v: i8, c: Bw) -> bool {
    match c {
        Bw::White => v == -1,
        Bw::Black => v == 1,
    }
}

/// One checker of color `c` as a cell value.
pub open spec fn sign_val(c: Bw) -> i8 {
    match c {
        Bw::White => 1i8,
        Bw::Black => -1i8,
    }
}

/// Whether every checker of `c` on the inner points stands in `c`'s home
/// quadrant.
pub open spec fn all_home(s: Seq<i8>, c: Bw) -> bool {
    forall|i: int| 1 <= i <= 24 && !home_point(i, c) ==> !owns(#[trigger] s[i] as int, c)
}

/// The point where a checker of `c` enters from the bar with die `d`.
pub open spec fn entry_index(c: Bw, d: int) -> int {
    dest_of(bar_index(c), c, d)
}

/// Whether `c` has a checker waiting on its bar.
pub open spec fn bar_occupied(s: Seq<i8>, c: Bw) -> bool {
    s[bar_index(c)] != 0
}

/// Whether moving from `from` with die `d` bears the checker off the board.
pub open spec fn is_bearoff(s: Seq<i8>, d: int, c: Bw, from: int) -> bool {
    all_home(s, c) && perspective_of(from, c) <= d
}

/// Whether `c` may move a checker out of slot `from` with die `d`: the one
/// bar entry while the bar is occupied, otherwise a bear-off or a step to an
/// unblocked point.
pub open spec fn legal_from(s: Seq<i8>, d: int, c: Bw, from: int) -> bool {
    if bar_occupied(s, c) {
        from == bar_index(c) && !blocked_for(s[entry_index(c, d)], c)
    } else {
        &&& 1 <= from <= 24
        &&& owns(s[from] as int, c)
        &&& (is_bearoff(s, d, c, from) || (1 <= dest_of(from, c, d) <= 24 && !blocked_for(
            s[dest_of(from, c, d)],
            c,
        )))
    }
}

/// The board after one checker of `c` steps from `from` to the inner point
/// `to`, capturing a lone opposing checker there if one stands.
pub open spec fn move_checker(s: Seq<i8>, from: int, to: int, c: Bw) -> Seq<i8> {
    let s1 = s.update(from, dec_val(s[from]));
    if single_opp(s[to], c) {
        s1.update(to, sign_val(c)).update(
            bar_index(c.spec_opponent()),
            add_sign(s[bar_index(c.spec_opponent())], c.spec_opponent()),
        )
    } else if s[to] == 0 {
        s1.update(to, sign_val(c))
    } else {
        s1.update(to, inc_val(s[to]))
    }
}

/// The board reached by playing the move out of `from` with die `d`:
/// meaningful where `legal_from` holds.
pub open spec fn apply_from(s: Seq<i8>, d: int, c: Bw, from: int) -> Seq<i8> {
    if bar_occupied(s, c) {
        move_checker(s, bar_index(c), entry_index(c, d), c)
    } else if is_bearoff(s, d, c, from) {
        s.update(from, dec_val(s[from]))
    } else {
        move_checker(s, from, dest_of(from, c, d), c)
    }
}

/// Whether some board in `r` has occupancy `b`.
pub open spec fn has_board(r: Seq<Board>, b: Seq<i8>) -> bool {
    exists|i: int| 0 <= i < r.len() && (#[trigger] r[i])@ == b
}

/// No two boards in `r` have the same occupancy.
pub open spec fn distinct_boards(r: Seq<Board>) -> bool {
    forall|i: int, j: int| 0 <= i < j < r.len() ==> r[i]@ != r[j]@
}

/// Every board in `r` is well formed.
pub open spec fn all_wf(r: Seq<Board>) -> bool {
    forall|i: int| 0 <= i < r.len() ==> (#[trigger] r[i]).wf()
}

/// Whether board `b` is reachable from `s` by exactly one legal move of `c`
/// with die `d`.
pub open spec fn reachable_one(s: Seq<i8>, d: int, c: Bw, b: Seq<i8>) -> bool {
    exists|from: int| #[trigger] legal_from(s, d, c, from) && b == apply_from(s, d, c, from)
}

/// What a single-die generator returns: exactly the boards reachable by one
/// legal move, each once, all well formed.
pub open spec fn one_die_post(s: Seq<i8>, d: int, c: Bw, r: Seq<Board>) -> bool {
    &&& all_wf(r)
    &&& forall|i: int| 0 <= i < r.len() ==> reachable_one(s, d, c, (#[trigger] r[i])@)
    &&& forall|from: int|
        #[trigger] legal_from(s, d, c, from) ==> has_board(r, apply_from(s, d, c, from))
    &&& distinct_boards(r)
}

/// What one checker step does to the two colors' counts and to the board's
/// well-formedness: the mover's count is kept, the opponent's count is kept
/// (a captured checker only moves to the bar), and the result is well formed.
pub proof fn lemma_move_checker_props(s: Seq<i8>, from: int, to: int, c: Bw)
    requires
        wf_seq(s),
        from == bar_index(c) || 1 <= from <= 24,
        owns(s[from] as int, c),
        1 <= to <= 24,
        to != from,
        !blocked_for(s[to], c),
    ensures
        ({
            let r = move_checker(s, from, to, c);
            &&& wf_seq(r)
            &&& r.len() == 26
            &&& color_sum(r, c) == color_sum(s, c)
            &&& color_sum(r, c.spec_opponent()) == color_sum(s, c.spec_opponent())
            &&& r[bar_index(c)] == if from == bar_index(c) {
                dec_val(s[from])
            } else {
                s[bar_index(c)]
            }
        }),
{
    let opp = c.spec_opponent();
    let r = move_checker(s, from, to, c);
    let dv = dec_val(s[from]);
    let s1 = s.update(from, dv);
    assert(cell_contrib(dv, c) == cell_contrib(s[from], c) - 1);
    assert(cell_contrib(dv, opp) == cell_contrib(s[from], opp));
    lemma_color_sum_update(s, c, from, dv);
    lemma_color_sum_update(s, opp, from, dv);
    if single_opp(s[to], c) {
        let bo = bar_index(opp);
        assert(bo != from && bo != to);
        let s2 = s1.update(to, sign_val(c));
        lemma_color_sum_update(s1, c, to, sign_val(c));
        lemma_color_sum_update(s1, opp, to, sign_val(c));
        let nb = add_sign(s[bo], opp);
        lemma_two_cells_le_color_sum(s, opp, bo, to);
        lemma_color_sum_update(s2, c, bo, nb);
        lemma_color_sum_update(s2, opp, bo, nb);
        assert(s2[bo] == s[bo]);
        assert(cell_contrib(nb, opp) == cell_contrib(s[bo], opp) + 1);
        assert(cell_contrib(nb, c) == 0);
        assert(r =~= s2.update(bo, nb));
        assert(color_sum(r, c) == color_sum(s, c));
        assert(color_sum(r, opp) == color_sum(s, opp));
    } else if s[to] == 0 {
        lemma_color_sum_update(s1, c, to, sign_val(c));
        lemma_color_sum_update(s1, opp, to, sign_val(c));
    } else {
        assert(owns(s[to] as int, c));
        lemma_two_cells_le_color_sum(s, c, from, to);
        lemma_color_sum_update(s1, c, to, inc_val(s[to]));
        lemma_color_sum_update(s1, opp, to, inc_val(s[to]));
        assert(cell_contrib(inc_val(s[to]), c) == cell_contrib(s[to], c) + 1);
    }
}

/// What one legal move does: the result is well formed, the opponent keeps
/// its full count, the mover keeps its count except on a bear-off, which
/// removes exactly one checker, and the mover's bar loses one checker
/// exactly on a bar entry.
pub proof fn lemma_apply_props(s: Seq<i8>, d: int, c: Bw, from: int)
    requires
        wf_seq(s),
        1 <= d <= 6,
        legal_from(s, d, c, from),
    ensures
        ({
            let r = apply_from(s, d, c, from);
            &&& wf_seq(r)
            &&& r.len() == 26
            &&& color_sum(r, c.spec_opponent()) == color_sum(s, c.spec_opponent())
            &&& color_sum(r, c) == if !bar_occupied(s, c) && is_bearoff(s, d, c, from) {
                color_sum(s, c) - 1
            } else {
                color_sum(s, c)
            }
            &&& r[bar_index(c)] == if bar_occupied(s, c) {
                dec_val(s[bar_index(c)])
            } else {
                s[bar_index(c)]
            }
        }),
{
    let opp = c.spec_opponent();
    if bar_occupied(s, c) {
        let to = entry_index(c, d);
        assert(owns(s[bar_index(c)] as int, c));
        assert(1 <= to <= 24 && to != bar_index(c));
        lemma_move_checker_props(s, bar_index(c), to, c);
    } else if is_bearoff(s, d, c, from) {
        let dv = dec_val(s[from]);
        assert(cell_contrib(dv, c) == cell_contrib(s[from], c) - 1);
        assert(cell_contrib(dv, opp) == cell_contrib(s[from], opp));
        lemma_color_sum_update(s, c, from, dv);
        lemma_color_sum_update(s, opp, from, dv);
    } else {
        let to = dest_of(from, c, d);
        lemma_move_checker_props(s, from, to, c);
    }
}

/// Distinct legal sources yield distinct boards: the two results differ at
/// the other move's source point.
pub proof fn lemma_apply_injective(s: Seq<i8>, d: int, c: Bw, f1: int, f2: int)
    requires
        wf_seq(s),
        1 <= d <= 6,
        legal_from(s, d, c, f1),
        legal_from(s, d, c, f2),
        f1 != f2,
    ensures
        apply_from(s, d, c, f1) != apply_from(s, d, c, f2),
{
    assert(!bar_occupied(s, c));
    let r1 = apply_from(s, d, c, f1);
    let r2 = apply_from(s, d, c, f2);
    assert(r2[f2] == dec_val(s[f2]));
    assert(dec_val(s[f2]) != s[f2]);
    assert(inc_val(s[f2]) != dec_val(s[f2]));
    if is_bearoff(s, d, c, f1) {
        assert(r1[f2] == s[f2]);
    } else {
        let to1 = dest_of(f1, c, d);
        assert(to1 != f1);
        assert(bar_index(c.spec_opponent()) == 0 || bar_index(c.spec_opponent()) == 25);
        if to1 == f2 {
            assert(owns(s[f2] as int, c));
            assert(!single_opp(s[f2], c) && s[f2] != 0);
            assert(r1[f2] == inc_val(s[f2]));
        } else {
            assert(r1[f2] == s[f2]);
        }
    }
    assert(r1[f2] != r2[f2]);
}

/// Whether the two boards have the same occupancy, cell by cell.
fn boards_equal(a: &Board, b: &Board) -> (r: bool)
    ensures
        r <==> a@ == b@,
{
    let mut k: usize = 0;
    while k < 26
        invariant
            k <= 26,
            forall|i: int| 0 <= i < k ==> a@[i] == b@[i],
        decreases 26 - k,
    {
        if a.0[k] != b.0[k] {
            proof {
                assert(a@[k as int] != b@[k as int]);
            }
            return false;
        }
        k += 1;
    }
    proof {
        assert(a@ =~= b@);
    }
    true
}

/// Whether `v` holds a board with occupancy `b`.
fn contains_board(v: &Vec<Board>, b: &Board) -> (r: bool)
    ensures
        r <==> has_board(v@, b@),
{
    let mut k: usize = 0;
    while k < v.len()
        invariant
            k <= v@.len(),
            forall|i: int| 0 <= i < k ==> (#[trigger] v@[i])@ != b@,
        decreases v@.len() - k,
    {
        if boards_equal(&v[k], b) {
            return true;
        }
        k += 1;
    }
    false
}

/// Keeps the first board of each occupancy, dropping later duplicates.
pub fn dedup_boards(v: Vec<Board>) -> (r: Vec<Board>)
    ensures
        distinct_boards(r@),
        forall|b: Seq<i8>| #[trigger] has_board(v@, b) ==> has_board(r@, b),
        forall|b: Seq<i8>| #[trigger] has_board(r@, b) ==> has_board(v@, b),
        all_wf(v@) ==> all_wf(r@),
{
    let mut r: Vec<Board> = Vec::new();
    let mut k: usize = 0;
    while k < v.len()
        invariant
            k <= v@.len(),
            distinct_boards(r@),
            forall|i: int| 0 <= i < r@.len() ==> has_board(v@, (#[trigger] r@[i])@),
            forall|j: int| 0 <= j < k ==> has_board(r@, (#[trigger] v@[j])@),
        decreases v@.len() - k,
    {
        let b = v[k];
        let dup = contains_board(&r, &b);
        let ghost r0 = r@;
        if !dup {
            r.push(b);
            proof {
                assert(r@ == r0.push(b));
                assert(r@[r0.len() as int]@ == v@[k as int]@);
                assert forall|i: int, j: int| 0 <= i < j < r@.len() implies r@[i]@ != r@[j]@ by {
                    if j < r0.len() {
                        assert(r0[i]@ != r0[j]@);
                    } else {
                        assert(r@[i] == r0[i]);
                        assert(!has_board(r0, b@));
                    }
                }
                assert forall|i: int| 0 <= i < r@.len() implies has_board(
                    v@,
                    (#[trigger] r@[i])@,
                ) by {
                    if i < r0.len() {
                        assert(r@[i] == r0[i]);
                        assert(has_board(v@, r0[i]@));
                    } else {
                        assert(r@[i]@ == v@[k as int]@);
                    }
                }
            }
        } else {
            proof {
                assert(has_board(r@, v@[k as int]@));
            }
        }
        proof {
            assert forall|j: int| 0 <= j < k + 1 implies has_board(r@, (#[trigger] v@[j])@) by {
                if j < k {
                    let i = choose|i: int| 0 <= i < r0.len() && (#[trigger] r0[i])@ == v@[j]@;
                    assert(r@[i]@ == v@[j]@);
                } else {
                    if !dup {
                        assert(r@[r0.len() as int]@ == v@[j]@);
                    }
                }
            }
        }
        k += 1;
    }
    proof {
        assert forall|b: Seq<i8>| #[trigger] has_board(r@, b) implies has_board(v@, b) by {
            let i = choose|i: int| 0 <= i < r@.len() && (#[trigger] r@[i])@ == b;
            assert(has_board(v@, r@[i]@));
        }
        assert forall|b: Seq<i8>| #[trigger] has_board(v@, b) implies has_board(r@, b) by {
            let j = choose|j: int| 0 <= j < v@.len() && (#[trigger] v@[j])@ == b;
            assert(has_board(r@, v@[j]@));
        }
        if all_wf(v@) {
            assert forall|i: int| 0 <= i < r@.len() implies (#[trigger] r@[i]).wf() by {
                assert(has_board(v@, r@[i]@));
                let j = choose|j: int| 0 <= j < v@.len() && (#[trigger] v@[j])@ == r@[i]@;
                assert(v@[j].wf());
            }
        }
    }
    r
}

/// Whether board `b` is reachable from `s` by a legal move with die `d0`
/// followed by a legal move with die `d1`.
pub open spec fn reachable_two(s: Seq<i8>, d0: int, d1: int, c: Bw, b: Seq<i8>) -> bool {
    exists|m: Seq<i8>| #[trigger] reachable_one(s, d0, c, m) && reachable_one(m, d1, c, b)
}

/// Whether `b` is reachable by one `d`-move out of some board of the
/// frontier `fr`.
pub open spec fn succ_contains(fr: Set<Seq<i8>>, d: int, c: Bw, b: Seq<i8>) -> bool {
    exists|a: Seq<i8>| #[trigger] fr.contains(a) && reachable_one(a, d, c, b)
}

/// Whether the frontier `fr` has any one-die extension at all.
pub open spec fn succ_exists(fr: Set<Seq<i8>>, d: int, c: Bw) -> bool {
    exists|b: Seq<i8>| #[trigger] succ_contains(fr, d, c, b)
}

/// The breadth-first frontier after `k` rounds of a double die `d`: each
/// round replaces the frontier by all its one-die extensions, and a round
/// that yields nothing leaves the frontier as it stands.
pub open spec fn doubles_frontier(s: Seq<i8>, d: int, c: Bw, k: nat) -> Set<Seq<i8>>
    decreases k,
{
    if k == 0 {
        Set::empty().insert(s)
    } else {
        let prev = doubles_frontier(s, d, c, (k - 1) as nat);
        if succ_exists(prev, d, c) {
            Set::new(|b: Seq<i8>| succ_contains(prev, d, c, b))
        } else {
            prev
        }
    }
}

/// Whether `b` is reachable by one `d`-move out of one of the first `n`
/// boards of `bs`.
pub open spec fn partial_succ(bs: Seq<Board>, n: int, d: int, c: Bw, b: Seq<i8>) -> bool {
    exists|j: int| 0 <= j < n && reachable_one((#[trigger] bs[j])@, d, c, b)
}

/// What the full composition returns: for a double, the surviving frontier
/// after four rounds; otherwise the union over both die orders of the
/// two-move results. Each board appears once and is well formed.
pub open spec fn unique_moves_post(s: Seq<i8>, dice: Dice, c: Bw, r: Seq<Board>) -> bool {
    &&& all_wf(r)
    &&& distinct_boards(r)
    &&& if dice.0 == dice.1 {
        &&& forall|b: Seq<i8>|
            #[trigger] has_board(r, b) ==> doubles_frontier(s, dice.0.0 as int, c, 4).contains(b)
        &&& forall|b: Seq<i8>|
            #[trigger] doubles_frontier(s, dice.0.0 as int, c, 4).contains(b) ==> has_board(r, b)
    } else {
        &&& forall|b: Seq<i8>|
            #[trigger] has_board(r, b) ==> (reachable_two(s, dice.0.0 as int, dice.1.0 as int, c, b)
                || reachable_two(s, dice.1.0 as int, dice.0.0 as int, c, b))
        &&& forall|b: Seq<i8>|
            reachable_two(s, dice.0.0 as int, dice.1.0 as int, c, b) ==> has_board(r, b)
        &&& forall|b: Seq<i8>|
            reachable_two(s, dice.1.0 as int, dice.0.0 as int, c, b) ==> has_board(r, b)
    }
}

/// Appends to `acc` the boards of `ms` whose occupancy `acc` does not hold
/// yet.
fn extend_unique(acc: &mut Vec<Board>, ms: Vec<Board>)
    requires
        distinct_boards(old(acc)@),
    ensures
        distinct_boards(final(acc)@),
        forall|b: Seq<i8>|
            #[trigger] has_board(final(acc)@, b) <==> has_board(old(acc)@, b) || has_board(ms@, b),
        all_wf(old(acc)@) && all_wf(ms@) ==> all_wf(final(acc)@),
{
    let ghost acc0 = acc@;
    let mut k: usize = 0;
    while k < ms.len()
        invariant
            k <= ms@.len(),
            distinct_boards(acc@),
            forall|i: int|
                0 <= i < acc@.len() ==> has_board(acc0, (#[trigger] acc@[i])@) || has_board(
                    ms@,
                    acc@[i]@,
                ),
            forall|b: Seq<i8>| #[trigger] has_board(acc0, b) ==> has_board(acc@, b),
            forall|j: int| 0 <= j < k ==> has_board(acc@, (#[trigger] ms@[j])@),
            all_wf(acc0) && all_wf(ms@) ==> all_wf(acc@),
        decreases ms@.len() - k,
    {
        let b = ms[k];
        let dup = contains_board(acc, &b);
        let ghost a0 = acc@;
        if !dup {
            acc.push(b);
            proof {
                assert(acc@ == a0.push(b));
                assert(acc@[a0.len() as int]@ == ms@[k as int]@);
                assert forall|i: int, j: int| 0 <= i < j < acc@.len() implies acc@[i]@
                    != acc@[j]@ by {
                    if j < a0.len() {
                        assert(a0[i]@ != a0[j]@);
                    } else {
                        assert(acc@[i] == a0[i]);
                        assert(!has_board(a0, b@));
                    }
                }
                assert forall|i: int| 0 <= i < acc@.len() implies has_board(
                    acc0,
                    (#[trigger] acc@[i])@,
                ) || has_board(ms@, acc@[i]@) by {
                    if i < a0.len() {
                        assert(acc@[i] == a0[i]);
                    } else {
                        assert(acc@[i]@ == ms@[k as int]@);
                    }
                }
                assert forall|b2: Seq<i8>| #[trigger] has_board(acc0, b2) implies has_board(
                    acc@,
                    b2,
                ) by {
                    let i = choose|i: int| 0 <= i < a0.len() && (#[trigger] a0[i])@ == b2;
                    assert(acc@[i]@ == b2);
                }
                if all_wf(acc0) && all_wf(ms@) {
                    assert forall|i: int| 0 <= i < acc@.len() implies (#[trigger] acc@[i]).wf() by {
                        if i < a0.len() {
                            assert(acc@[i] == a0[i]);
                        } else {
                            assert(acc@[i]@ == ms@[k as int]@);
                            assert(ms@[k as int].wf());
                        }
                    }
                }
            }
        } else {
            proof {
                assert(has_board(acc@, ms@[k as int]@));
            }
        }
        proof {
            assert forall|j: int| 0 <= j < k + 1 implies has_board(acc@, (#[trigger] ms@[j])@) by {
                if j < k {
                    let i = choose|i: int| 0 <= i < a0.len() && (#[trigger] a0[i])@ == ms@[j]@;
                    assert(acc@[i]@ == ms@[j]@);
                } else {
                    if !dup {
                        assert(acc@[a0.len() as int]@ == ms@[j]@);
                    }
                }
            }
        }
        k += 1;
    }
    proof {
        assert forall|b: Seq<i8>| #[trigger] has_board(acc@, b) implies (has_board(acc0, b)
            || has_board(ms@, b)) by {
            let i = choose|i: int| 0 <= i < acc@.len() && (#[trigger] acc@[i])@ == b;
            assert(has_board(acc0, acc@[i]@) || has_board(ms@, acc@[i]@));
        }
        assert forall|b: Seq<i8>| has_board(ms@, b) implies has_board(acc@, b) by {
            let j = choose|j: int| 0 <= j < ms@.len() && (#[trigger] ms@[j])@ == b;
            assert(has_board(acc@, ms@[j]@));
        }
    }
}

/// The shared shape of a move generator: single-die generation with the
/// exact one-die contract, and the compositions built on it.
pub trait MoveGen {
    /// Every board reachable by moving exactly one of `player`'s checkers by
    /// `die` pips, duplicates not removed at this level.
    fn gen_moves_one_die(board: &Board, die: Die, player: Bw) -> (r: Vec<Board>)
        requires
            board.wf(),
            die.valid(),
        ensures
            one_die_post(board@, die.0 as int, player, r@),
    ;

    /// Single-die generation followed by deduplication by full board
    /// equality.
    fn gen_unique_moves_one_die(board: &Board, die: Die, player: Bw) -> (r: Vec<Board>)
        requires
            board.wf(),
            die.valid(),
        ensures
            one_die_post(board@, die.0 as int, player, r@),
    {
        let v = Self::gen_moves_one_die(board, die, player);
        let r = dedup_boards(v);
        proof {
            let s = board@;
            let d = die.0 as int;
            assert forall|from: int| #[trigger] legal_from(s, d, player, from) implies has_board(
                r@,
                apply_from(s, d, player, from),
            ) by {
                assert(has_board(v@, apply_from(s, d, player, from)));
            }
            assert forall|i: int| 0 <= i < r@.len() implies reachable_one(
                s,
                d,
                player,
                (#[trigger] r@[i])@,
            ) by {
                assert(has_board(r@, r@[i]@));
                assert(has_board(v@, r@[i]@));
                let j = choose|j: int| 0 <= j < v@.len() && (#[trigger] v@[j])@ == r@[i]@;
                assert(reachable_one(s, d, player, v@[j]@));
            }
        }
        r
    }

    /// The complete, deduplicated set of positions reachable from a full
    /// dice roll: four breadth-first rounds for a double, otherwise both
    /// orderings of the two dice.
    #[verifier::loop_isolation(false)]
    fn gen_unique_moves(board: &Board, dice: Dice, player: Bw) -> (r: Vec<Board>)
        requires
            board.wf(),
            dice.valid(),
        ensures
            unique_moves_post(board@, dice, player, r@),
    {
        let ghost s = board@;
        if dice.is_double() {
            let die = dice.0;
            let ghost d = die.0 as int;
            let mut boards: Vec<Board> = Vec::new();
            boards.push(*board);
            proof {
                assert(boards@[0] == *board);
                assert forall|b: Seq<i8>| #[trigger] has_board(boards@, b) implies
                    doubles_frontier(s, d, player, 0).contains(b) by {
                    let i = choose|i: int| 0 <= i < boards@.len() && (#[trigger] boards@[i])@ == b;
                    assert(b == s);
                }
                assert(doubles_frontier(s, d, player, 0).contains(s));
                assert(has_board(boards@, s));
            }
            let mut round: usize = 0;
            while round < 4
                invariant
                    round <= 4,
                    boards@.len() >= 1,
                    all_wf(boards@),
                    distinct_boards(boards@),
                    forall|b: Seq<i8>|
                        #[trigger] has_board(boards@, b) ==> doubles_frontier(
                            s,
                            d,
                            player,
                            round as nat,
                        ).contains(b),
                    forall|b: Seq<i8>|
                        #[trigger] doubles_frontier(s, d, player, round as nat).contains(b)
                            ==> has_board(boards@, b),
                decreases 4 - round,
            {
                let ghost fr = doubles_frontier(s, d, player, round as nat);
                let mut next: Vec<Board> = Vec::new();
                let mut i: usize = 0;
                while i < boards.len()
                    invariant
                        i <= boards@.len(),
                        distinct_boards(next@),
                        all_wf(next@),
                        forall|b: Seq<i8>|
                            #[trigger] has_board(next@, b) ==> partial_succ(
                                boards@,
                                i as int,
                                d,
                                player,
                                b,
                            ),
                        forall|b: Seq<i8>|
                            #[trigger] partial_succ(boards@, i as int, d, player, b) ==> has_board(
                                next@,
                                b,
                            ),
                    decreases boards@.len() - i,
                {
                    let bi = boards[i];
                    let ms = Self::gen_moves_one_die(&bi, die, player);
                    let ghost next0 = next@;
                    extend_unique(&mut next, ms);
                    proof {
                        assert forall|b: Seq<i8>| #[trigger] has_board(next@, b) implies
                            partial_succ(boards@, i + 1, d, player, b) by {
                            if has_board(next0, b) {
                                let j = choose|j: int|
                                    0 <= j < i && reachable_one(
                                        (#[trigger] boards@[j])@,
                                        d,
                                        player,
                                        b,
                                    );
                                assert(reachable_one(boards@[j]@, d, player, b));
                            } else {
                                assert(has_board(ms@, b));
                                let u = choose|u: int|
                                    0 <= u < ms@.len() && (#[trigger] ms@[u])@ == b;
                                assert(reachable_one(bi@, d, player, ms@[u]@));
                                assert(reachable_one(boards@[i as int]@, d, player, b));
                            }
                        }
                        assert forall|b: Seq<i8>| #[trigger] partial_succ(
                            boards@,
                            i + 1,
                            d,
                            player,
                            b,
                        ) implies has_board(next@, b) by {
                            let j = choose|j: int|
                                0 <= j < i + 1 && reachable_one(
                                    (#[trigger] boards@[j])@,
                                    d,
                                    player,
                                    b,
                                );
                            if j < i {
                                assert(partial_succ(boards@, i as int, d, player, b));
                                assert(has_board(next0, b));
                            } else {
                                let from = choose|from: int|
                                    legal_from(bi@, d, player, from) && b == apply_from(
                                        bi@,
                                        d,
                                        player,
                                        from,
                                    );
                                assert(has_board(ms@, apply_from(bi@, d, player, from)));
                                assert(has_board(ms@, b));
                            }
                        }
                    }
                    i += 1;
                }
                proof {
                    assert forall|b: Seq<i8>| #[trigger] succ_contains(fr, d, player, b) implies
                        has_board(next@, b) by {
                        let a = choose|a: Seq<i8>|
                            #[trigger] fr.contains(a) && reachable_one(a, d, player, b);
                        assert(has_board(boards@, a));
                        let j = choose|j: int|
                            0 <= j < boards@.len() && (#[trigger] boards@[j])@ == a;
                        assert(reachable_one(boards@[j]@, d, player, b));
                        assert(partial_succ(boards@, boards@.len() as int, d, player, b));
                    }
                    assert forall|b: Seq<i8>| #[trigger] has_board(next@, b) implies succ_contains(
                        fr,
                        d,
                        player,
                        b,
                    ) by {
                        assert(partial_succ(boards@, boards@.len() as int, d, player, b));
                        let j = choose|j: int|
                            0 <= j < boards@.len() && reachable_one(
                                (#[trigger] boards@[j])@,
                                d,
                                player,
                                b,
                            );
                        assert(has_board(boards@, boards@[j]@));
                        assert(fr.contains(boards@[j]@));
                    }
                }
                if next.len() == 0 {
                    proof {
                        assert forall|b: Seq<i8>| !succ_contains(fr, d, player, b) by {
                            if succ_contains(fr, d, player, b) {
                                assert(has_board(next@, b));
                            }
                        }
                        assert(!succ_exists(fr, d, player));
                        assert(doubles_frontier(s, d, player, (round + 1) as nat) =~= fr);
                    }
                } else {
                    proof {
                        assert(has_board(next@, next@[0]@));
                        assert(succ_contains(fr, d, player, next@[0]@));
                        assert(succ_exists(fr, d, player));
                        assert(doubles_frontier(s, d, player, (round + 1) as nat) =~= Set::new(
                            |b: Seq<i8>| succ_contains(fr, d, player, b),
                        ));
                    }
                    boards = next;
                }
                round += 1;
            }
            return boards;
        }
        let ghost d0 = dice.0.0 as int;
        let ghost d1 = dice.1.0 as int;
        let first0 = Self::gen_moves_one_die(board, dice.0, player);
        let mut out: Vec<Board> = Vec::new();
        let mut i: usize = 0;
        while i < first0.len()
            invariant
                i <= first0@.len(),
                distinct_boards(out@),
                all_wf(out@),
                forall|b: Seq<i8>|
                    #[trigger] has_board(out@, b) ==> partial_succ(first0@, i as int, d1, player, b),
                forall|b: Seq<i8>|
                    #[trigger] partial_succ(first0@, i as int, d1, player, b) ==> has_board(
                        out@,
                        b,
                    ),
            decreases first0@.len() - i,
        {
            let bi = first0[i];
            let ms = Self::gen_moves_one_die(&bi, dice.1, player);
            let ghost out0 = out@;
            extend_unique(&mut out, ms);
            proof {
                assert forall|b: Seq<i8>| #[trigger] has_board(out@, b) implies partial_succ(
                    first0@,
                    i + 1,
                    d1,
                    player,
                    b,
                ) by {
                    if has_board(out0, b) {
                        let j = choose|j: int|
                            0 <= j < i && reachable_one((#[trigger] first0@[j])@, d1, player, b);
                        assert(reachable_one(first0@[j]@, d1, player, b));
                    } else {
                        assert(has_board(ms@, b));
                        let u = choose|u: int| 0 <= u < ms@.len() && (#[trigger] ms@[u])@ == b;
                        assert(reachable_one(bi@, d1, player, ms@[u]@));
                        assert(reachable_one(first0@[i as int]@, d1, player, b));
                    }
                }
                assert forall|b: Seq<i8>| #[trigger] partial_succ(
                    first0@,
                    i + 1,
                    d1,
                    player,
                    b,
                ) implies has_board(out@, b) by {
                    let j = choose|j: int|
                        0 <= j < i + 1 && reachable_one((#[trigger] first0@[j])@, d1, player, b);
                    if j < i {
                        assert(partial_succ(first0@, i as int, d1, player, b));
                        assert(has_board(out0, b));
                    } else {
                        let from = choose|from: int|
                            legal_from(bi@, d1, player, from) && b == apply_from(
                                bi@,
                                d1,
                                player,
                                from,
                            );
                        assert(has_board(ms@, apply_from(bi@, d1, player, from)));
                        assert(has_board(ms@, b));
                    }
                }
            }
            i += 1;
        }
        proof {
            assert forall|b: Seq<i8>| #[trigger] has_board(out@, b) implies reachable_two(
                s,
                d0,
                d1,
                player,
                b,
            ) by {
                assert(partial_succ(first0@, first0@.len() as int, d1, player, b));
                let j = choose|j: int|
                    0 <= j < first0@.len() && reachable_one((#[trigger] first0@[j])@, d1, player, b);
                assert(reachable_one(s, d0, player, first0@[j]@));
            }
            assert forall|b: Seq<i8>| #[trigger] reachable_two(s, d0, d1, player, b) implies
                has_board(out@, b) by {
                let m = choose|m: Seq<i8>|
                    #[trigger] reachable_one(s, d0, player, m) && reachable_one(m, d1, player, b);
                assert(has_board(first0@, m));
                let j = choose|j: int|
                    0 <= j < first0@.len() && (#[trigger] first0@[j])@ == m;
                assert(reachable_one(first0@[j]@, d1, player, b));
                assert(partial_succ(first0@, first0@.len() as int, d1, player, b));
            }
        }
        let first1 = Self::gen_moves_one_die(board, dice.1, player);
        let mut i2: usize = 0;
        while i2 < first1.len()
            invariant
                i2 <= first1@.len(),
                distinct_boards(out@),
                all_wf(out@),
                forall|b: Seq<i8>|
                    #[trigger] has_board(out@, b) ==> (reachable_two(s, d0, d1, player, b)
                        || partial_succ(first1@, i2 as int, d0, player, b)),
                forall|b: Seq<i8>|
                    #[trigger] reachable_two(s, d0, d1, player, b) ==> has_board(out@, b),
                forall|b: Seq<i8>|
                    #[trigger] partial_succ(first1@, i2 as int, d0, player, b) ==> has_board(
                        out@,
                        b,
                    ),
            decreases first1@.len() - i2,
        {
            let bi = first1[i2];
            let ms = Self::gen_moves_one_die(&bi, dice.0, player);
            let ghost out0 = out@;
            extend_unique(&mut out, ms);
            proof {
                assert forall|b: Seq<i8>| #[trigger] has_board(out@, b) implies (reachable_two(
                    s,
                    d0,
                    d1,
                    player,
                    b,
                ) || partial_succ(first1@, i2 + 1, d0, player, b)) by {
                    if has_board(out0, b) {
                        if partial_succ(first1@, i2 as int, d0, player, b) {
                            let j = choose|j: int|
                                0 <= j < i2 && reachable_one(
                                    (#[trigger] first1@[j])@,
                                    d0,
                                    player,
                                    b,
                                );
                            assert(reachable_one(first1@[j]@, d0, player, b));
                        }
                    } else {
                        assert(has_board(ms@, b));
                        let u = choose|u: int| 0 <= u < ms@.len() && (#[trigger] ms@[u])@ == b;
                        assert(reachable_one(bi@, d0, player, ms@[u]@));
                        assert(reachable_one(first1@[i2 as int]@, d0, player, b));
                    }
                }
                assert forall|b: Seq<i8>| #[trigger] partial_succ(
                    first1@,
                    i2 + 1,
                    d0,
                    player,
                    b,
                ) implies has_board(out@, b) by {
                    let j = choose|j: int|
                        0 <= j < i2 + 1 && reachable_one((#[trigger] first1@[j])@, d0, player, b);
                    if j < i2 {
                        assert(partial_succ(first1@, i2 as int, d0, player, b));
                        assert(has_board(out0, b));
                    } else {
                        let from = choose|from: int|
                            legal_from(bi@, d0, player, from) && b == apply_from(
                                bi@,
                                d0,
                                player,
                                from,
                            );
                        assert(has_board(ms@, apply_from(bi@, d0, player, from)));
                        assert(has_board(ms@, b));
                    }
                }
            }
            i2 += 1;
        }
        proof {
            assert forall|b: Seq<i8>| #[trigger] has_board(out@, b) implies (reachable_two(
                s,
                d0,
                d1,
                player,
                b,
            ) || reachable_two(s, d1, d0, player, b)) by {
                if !reachable_two(s, d0, d1, player, b) {
                    assert(partial_succ(first1@, first1@.len() as int, d0, player, b));
                    let j = choose|j: int|
                        0 <= j < first1@.len() && reachable_one(
                            (#[trigger] first1@[j])@,
                            d0,
                            player,
                            b,
                        );
                    assert(reachable_one(s, d1, player, first1@[j]@));
                }
            }
            assert forall|b: Seq<i8>| #[trigger] reachable_two(s, d1, d0, player, b) implies
                has_board(out@, b) by {
                let m = choose|m: Seq<i8>|
                    #[trigger] reachable_one(s, d1, player, m) && reachable_one(m, d0, player, b);
                assert(has_board(first1@, m));
                let j = choose|j: int|
                    0 <= j < first1@.len() && (#[trigger] first1@[j])@ == m;
                assert(reachable_one(first1@[j]@, d0, player, b));
                assert(partial_succ(first1@, first1@.len() as int, d0, player, b));
            }
        }
        out
    }
}

} // verus!
