//! The scalar reference generator: scans the bar and all 24 points and
//! applies the movement rules literally, point by point.

use vstd::prelude::*;

use crate::movegen::{
    all_home, apply_from, bar_occupied, blocked_for, entry_index, has_board, is_bearoff,
    legal_from, lemma_apply_injective, lemma_apply_props, one_die_post, reachable_one, single_opp,
    MoveGen,
};
use crate::types::board::{
    bar_index, dest_of, home_point, perspective_of, wf_seq, Board, BoardCoord,
};
use crate::types::dice::Die;
use crate::types::prim::{one_checker, owns, Bw};

verus! {

/// The scalar reference implementation of [`MoveGen`]: the correctness
/// oracle the vector generator is held against.
pub struct BasicMoveGenerator;

/// Whether some index of `froms` holds `f`.
pub open spec fn has_from(froms: Seq<int>, f: int) -> bool {
    exists|i: int| 0 <= i < froms.len() && froms[i] == f
}

/// The bookkeeping both generator loops maintain: each produced board is the
/// application of a distinct recorded legal source.
pub open spec fn moves_match_froms(
    s: Seq<i8>,
    d: int,
    c: Bw,
    moves: Seq<Board>,
    froms: Seq<int>,
) -> bool {
    &&& froms.len() == moves.len()
    &&& forall|i: int| 0 <= i < froms.len() ==> legal_from(s, d, c, #[trigger] froms[i])
    &&& forall|i: int|
        0 <= i < froms.len() ==> (#[trigger] moves[i])@ == apply_from(s, d, c, froms[i])
    &&& forall|i: int, j: int| 0 <= i < j < froms.len() ==> froms[i] != froms[j]
}

/// The one-die contract follows once every legal source is recorded.
pub proof fn lemma_post_from_froms(s: Seq<i8>, d: int, c: Bw, moves: Seq<Board>, froms: Seq<int>)
    requires
        wf_seq(s),
        1 <= d <= 6,
        moves_match_froms(s, d, c, moves, froms),
        forall|f: int| #[trigger] legal_from(s, d, c, f) ==> has_from(froms, f),
    ensures
        one_die_post(s, d, c, moves),
{
    assert forall|i: int| 0 <= i < moves.len() implies (#[trigger] moves[i]).wf() by {
        lemma_apply_props(s, d, c, froms[i]);
    }
    assert forall|i: int| 0 <= i < moves.len() implies reachable_one(s, d, c, (#[trigger] moves[i])@) by {
        assert(legal_from(s, d, c, froms[i]) && moves[i]@ == apply_from(s, d, c, froms[i]));
    }
    assert forall|f: int| #[trigger] legal_from(s, d, c, f) implies has_board(
        moves,
        apply_from(s, d, c, f),
    ) by {
        let i = choose|i: int| 0 <= i < froms.len() && froms[i] == f;
        assert(moves[i]@ == apply_from(s, d, c, f));
    }
    assert forall|i: int, j: int| 0 <= i < j < moves.len() implies moves[i]@ != moves[j]@ by {
        lemma_apply_injective(s, d, c, froms[i], froms[j]);
    }
}

/// A forced bar entry yields the one-board result set.
pub proof fn lemma_singleton_post(s: Seq<i8>, d: int, c: Bw, b: Board, r: Seq<Board>)
    requires
        wf_seq(s),
        1 <= d <= 6,
        bar_occupied(s, c),
        legal_from(s, d, c, bar_index(c)),
        r.len() == 1,
        r[0] == b,
        b@ == apply_from(s, d, c, bar_index(c)),
    ensures
        one_die_post(s, d, c, r),
{
    lemma_apply_props(s, d, c, bar_index(c));
    assert forall|i: int| 0 <= i < r.len() implies reachable_one(s, d, c, (#[trigger] r[i])@) by {
        assert(legal_from(s, d, c, bar_index(c)) && r[i]@ == apply_from(s, d, c, bar_index(c)));
    }
    assert forall|f: int| #[trigger] legal_from(s, d, c, f) implies has_board(
        r,
        apply_from(s, d, c, f),
    ) by {
        assert(f == bar_index(c));
        assert(r[0]@ == apply_from(s, d, c, f));
    }
}

/// Whether `player` still has a checker on an inner point outside its home
/// quadrant.
pub fn any_not_home(player: Bw, board: &Board) -> (r: bool)
    ensures
        r <==> !all_home(board@, player),
{
    let cells = board.iter_inner_board();
    let mut k: usize = 0;
    while k < 24
        invariant
            k <= 24,
            cells@.len() == 24,
            forall|j: int|
                0 <= j < 24 ==> (#[trigger] cells@[j]).0.0 == j + 1 && cells@[j].1.0 == board@[j
                    + 1],
            forall|i: int| 1 <= i <= k && !home_point(i, player) ==> !owns(#[trigger] board@[i] as int, player),
        decreases 24 - k,
    {
        let (coord, val) = cells[k];
        if val.matches(player) {
            if !coord.is_home(player) {
                proof {
                    assert(owns(board@[k + 1] as int, player));
                }
                return true;
            }
        }
        k += 1;
    }
    false
}

impl MoveGen for BasicMoveGenerator {
    #[verifier::loop_isolation(false)]
    fn gen_moves_one_die(board: &Board, die: Die, player: Bw) -> (r: Vec<Board>)
    {
        let ghost s = board@;
        let ghost d = die.0 as int;
        let bar = BoardCoord::bar(player);

        if !board.get(bar).is_empty() {
            proof {
                assert(bar_occupied(s, player));
                assert(owns(s[bar_index(player)] as int, player));
            }
            let to = bar.advance(player, die).unwrap();
            let ghost ti = to.0 as int;
            proof {
                assert(ti == entry_index(player, d));
            }
            let entry = board.get(to);
            match entry.to_bwn() {
                Some((own, n)) => {
                    if own != player && n == 1 {
                        let mut b = *board;
                        b.dec_cell(bar);
                        b.set(to, one_checker(player));
                        b.inc_bar(own);
                        let r = vec![b];
                        proof {
                            assert(own == player.spec_opponent());
                            assert(single_opp(s[ti], player));
                            assert(legal_from(s, d, player, bar_index(player)));
                            assert(b@ =~= apply_from(s, d, player, bar_index(player)));
                            lemma_singleton_post(s, d, player, b, r@);
                        }
                        return r;
                    } else if own != player {
                        proof {
                            assert(blocked_for(s[ti], player));
                            assert(forall|f: int| !legal_from(s, d, player, f));
                        }
                        return Vec::new();
                    } else {
                        let mut b = *board;
                        b.dec_cell(bar);
                        b.inc_cell(to);
                        let r = vec![b];
                        proof {
                            assert(!single_opp(s[ti], player) && s[ti] != 0);
                            assert(!blocked_for(s[ti], player));
                            assert(legal_from(s, d, player, bar_index(player)));
                            assert(b@ =~= apply_from(s, d, player, bar_index(player)));
                            lemma_singleton_post(s, d, player, b, r@);
                        }
                        return r;
                    }
                },
                None => {
                    let mut b = *board;
                    b.dec_cell(bar);
                    b.set(to, one_checker(player));
                    let r = vec![b];
                    proof {
                        assert(legal_from(s, d, player, bar_index(player)));
                        assert(b@ =~= apply_from(s, d, player, bar_index(player)));
                        lemma_singleton_post(s, d, player, b, r@);
                    }
                    return r;
                },
            }
        }

        let mut moves: Vec<Board> = Vec::new();
        let ghost mut froms: Seq<int> = Seq::empty();

        if !any_not_home(player, board) {
            let mut k: u8 = 1;
            while k <= 24
                invariant
                    1 <= k <= 25,
                    moves_match_froms(s, d, player, moves@, froms),
                    forall|i: int|
                        0 <= i < froms.len() ==> 1 <= #[trigger] froms[i] < k && perspective_of(
                            froms[i],
                            player,
                        ) <= d,
                    forall|f: int|
                        1 <= f < k && owns(s[f] as int, player) && perspective_of(f, player) <= d
                            ==> has_from(froms, f),
                decreases 25 - k,
            {
                let coord = BoardCoord(k);
                let ghost fi = k as int;
                if board.get(coord).matches(player) {
                    if coord.perspective(player) <= die.0 {
                        let mut b = *board;
                        b.dec_cell(coord);
                        proof {
                            assert(is_bearoff(s, d, player, fi));
                            assert(legal_from(s, d, player, fi));
                            assert(b@ =~= apply_from(s, d, player, fi));
                        }
                        moves.push(b);
                        proof {
                            let froms0 = froms;
                            froms = froms.push(fi);
                            assert(froms[froms.len() - 1] == fi);
                            assert forall|f: int|
                                1 <= f < k + 1 && owns(s[f] as int, player) && perspective_of(
                                    f,
                                    player,
                                ) <= d implies has_from(froms, f) by {
                                if f == fi {
                                    assert(froms[froms.len() - 1] == f);
                                } else {
                                    assert(has_from(froms0, f));
                                    let i = choose|i: int|
                                        0 <= i < froms0.len() && froms0[i] == f;
                                    assert(froms[i] == f);
                                }
                            }
                        }
                    }
                }
                k += 1;
            }
        }

        let mut k: u8 = 1;
        while k <= 24
            invariant
                1 <= k <= 25,
                moves_match_froms(s, d, player, moves@, froms),
                forall|i: int|
                    0 <= i < froms.len() ==> 1 <= #[trigger] froms[i] <= 24 && (perspective_of(
                        froms[i],
                        player,
                    ) <= d || froms[i] < k),
                forall|f: int|
                    1 <= f <= 24 && owns(s[f] as int, player) && perspective_of(f, player) <= d
                        && is_bearoff(s, d, player, f) ==> has_from(froms, f),
                forall|f: int|
                    1 <= f < k && owns(s[f] as int, player) && 1 <= dest_of(f, player, d) <= 24
                        && !blocked_for(s[dest_of(f, player, d)], player) ==> has_from(froms, f),
            decreases 25 - k,
        {
            let coord = BoardCoord(k);
            let ghost fi = k as int;
            let val = board.get(coord);
            if val.matches(player) {
                match coord.advance(player, die) {
                    Some(to) => {
                        let ghost ti = to.0 as int;
                        proof {
                            assert(ti == dest_of(fi, player, d));
                            assert(perspective_of(fi, player) > d);
                        }
                        let tocell = board.get(to);
                        let push = match tocell.to_bwn() {
                            Some((own, n)) => {
                                if own != player && n == 1 {
                                    let mut b = *board;
                                    b.dec_cell(coord);
                                    b.set(to, one_checker(player));
                                    b.inc_bar(own);
                                    proof {
                                        assert(own == player.spec_opponent());
                                        assert(legal_from(s, d, player, fi));
                                        assert(b@ =~= apply_from(s, d, player, fi));
                                    }
                                    Some(b)
                                } else if own != player {
                                    proof {
                                        assert(blocked_for(s[ti], player));
                                    }
                                    None
                                } else {
                                    let mut b = *board;
                                    b.dec_cell(coord);
                                    b.inc_cell(to);
                                    proof {
                                        assert(!single_opp(s[ti], player) && s[ti] != 0);
                                        assert(legal_from(s, d, player, fi));
                                        assert(b@ =~= apply_from(s, d, player, fi));
                                    }
                                    Some(b)
                                }
                            },
                            None => {
                                let mut b = *board;
                                b.dec_cell(coord);
                                b.set(to, one_checker(player));
                                proof {
                                    assert(legal_from(s, d, player, fi));
                                    assert(b@ =~= apply_from(s, d, player, fi));
                                }
                                Some(b)
                            },
                        };
                        if let Some(b) = push {
                            proof {
                                assert(!has_from(froms, fi));
                            }
                            moves.push(b);
                            proof {
                                let froms0 = froms;
                                froms = froms.push(fi);
                                assert(froms[froms.len() - 1] == fi);
                                assert forall|f: int|
                                    1 <= f <= 24 && owns(s[f] as int, player) && perspective_of(
                                        f,
                                        player,
                                    ) <= d && is_bearoff(s, d, player, f) implies has_from(
                                    froms,
                                    f,
                                ) by {
                                    assert(has_from(froms0, f));
                                    let i = choose|i: int|
                                        0 <= i < froms0.len() && froms0[i] == f;
                                    assert(froms[i] == f);
                                }
                                assert forall|f: int|
                                    1 <= f < k + 1 && owns(s[f] as int, player) && 1 <= dest_of(
                                        f,
                                        player,
                                        d,
                                    ) <= 24 && !blocked_for(
                                        s[dest_of(f, player, d)],
                                        player,
                                    ) implies has_from(froms, f) by {
                                    if f == fi {
                                        assert(froms[froms.len() - 1] == f);
                                    } else {
                                        assert(has_from(froms0, f));
                                        let i = choose|i: int|
                                            0 <= i < froms0.len() && froms0[i] == f;
                                        assert(froms[i] == f);
                                    }
                                }
                            }
                        }
                    },
                    None => {
                    },
                }
            }
            k += 1;
        }

        proof {
            assert forall|f: int| #[trigger] legal_from(s, d, player, f) implies has_from(
                froms,
                f,
            ) by {
                assert(1 <= f <= 24 && owns(s[f] as int, player));
                if is_bearoff(s, d, player, f) {
                    assert(perspective_of(f, player) <= d);
                } else {
                    assert(1 <= dest_of(f, player, d) <= 24 && !blocked_for(
                        s[dest_of(f, player, d)],
                        player,
                    ));
                }
            }
            lemma_post_from_froms(s, d, player, moves@, froms);
        }
        moves
    }
}

} // verus!
