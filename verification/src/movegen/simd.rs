//! The wide-lane generator: computes a whole-board legality mask by rotating
//! the occupancy vector, then materializes a board per flagged lane.
//!
//! The occupancy is widened to 32 lanes (the board's 26 slots padded with
//! zeros). Rotating it by the die aligns every point with its hypothetical
//! source, so one pass over the lanes marks every legal destination at once;
//! only the marked lanes are then materialized into boards.

use vstd::prelude::*;

use crate::movegen::basic::{
    has_from, lemma_post_from_froms, lemma_singleton_post, moves_match_froms,
};
use crate::movegen::{
    all_home, apply_from, bar_occupied, blocked_for, entry_index, is_bearoff, legal_from,
    single_opp, MoveGen,
};
use crate::types::board::{bar_index, dest_of, home_point, perspective_of, Board, BoardCoord};
use crate::types::dice::Die;
use crate::types::prim::{one_checker, owns, Bw};

verus! {

broadcast use vstd::array::group_array_axioms;

/// The wide-lane implementation of [`MoveGen`]: replaces the per-point scan
/// with rotate-and-mask passes over the whole occupancy vector.
pub struct Simd1MoveGenerator;

/// A 32-lane vector with every lane set to `v`.
fn splat(v: i8) -> (r: [i8; 32])
    ensures
        forall|i: int| 0 <= i < 32 ==> #[trigger] r@[i] == v,
{
    let r = vstd::array::array_fill_for_copy_types::<i8, 32>(v);
    proof {
        assert forall|i: int| 0 <= i < 32 implies #[trigger] r@[i] == v by {
            assert(vstd::array::spec_array_fill_for_copy_type::<i8, 32>(v).view()[i] == v);
        }
    }
    r
}

/// Rotates the 32 lanes by `cnt` places, with the direction chosen by a
/// compile-time flag: left moves every value toward lower lanes.
#[allow(dead_code)]
fn rotate_dyn<const LEFT: bool>(arr: [i8; 32], cnt: usize) -> (r: [i8; 32])
    requires
        1 <= cnt <= 6,
    ensures
        forall|i: int|
            0 <= i < 32 ==> #[trigger] r@[i] == arr@[if LEFT {
                (i + cnt) % 32
            } else {
                (i + 32 - cnt) % 32
            }],
{
    rotate_dyn_dyn(arr, cnt, LEFT)
}

/// Rotates the 32 lanes by `cnt` places, left or right: rotating left moves
/// every value toward lower lanes, so lane `i` of the result reads lane
/// `i + cnt` of the input, wrapping around.
fn rotate_dyn_dyn(arr: [i8; 32], cnt: usize, left: bool) -> (r: [i8; 32])
    requires
        1 <= cnt <= 6,
    ensures
        forall|i: int|
            0 <= i < 32 ==> #[trigger] r@[i] == arr@[if left {
                (i + cnt) % 32
            } else {
                (i + 32 - cnt) % 32
            }],
{
    let mut r: [i8; 32] = [0; 32];
    let mut i: usize = 0;
    while i < 32
        invariant
            i <= 32,
            1 <= cnt <= 6,
            forall|j: int|
                0 <= j < i ==> #[trigger] r@[j] == arr@[if left {
                    (j + cnt) % 32
                } else {
                    (j + 32 - cnt) % 32
                }],
        decreases 32 - i,
    {
        let src: usize = if left {
            (i + cnt) % 32
        } else {
            (i + 32 - cnt) % 32
        };
        r[i] = arr[src];
        i += 1;
    }
    r
}

impl MoveGen for Simd1MoveGenerator {
    #[verifier::loop_isolation(false)]
    fn gen_moves_one_die(board: &Board, die: Die, player: Bw) -> (r: Vec<Board>)
    {
        let ghost s = board@;
        let ghost d = die.0 as int;
        let bar = BoardCoord::bar(player);

        if !board.get(bar).is_empty() {
            proof {
                assert(bar_occupied(s, player));
                assert(owns(s[bar_index(player)] as int, player));
            }
            let to = bar.advance(player, die).unwrap();
            let ghost ti = to.0 as int;
            proof {
                assert(ti == entry_index(player, d));
            }
            let entry = board.get(to);
            match entry.to_bwn() {
                Some((opp, n)) => {
                    if opp != player && n == 1 {
                        let mut b = *board;
                        b.dec_cell(bar);
                        b.set(to, one_checker(player));
                        b.inc_bar(opp);
                        let r = vec![b];
                        proof {
                            assert(opp == player.spec_opponent());
                            assert(single_opp(s[ti], player));
                            assert(legal_from(s, d, player, bar_index(player)));
                            assert(b@ =~= apply_from(s, d, player, bar_index(player)));
                            lemma_singleton_post(s, d, player, b, r@);
                        }
                        return r;
                    } else if opp != player {
                        proof {
                            assert(blocked_for(s[ti], player));
                            assert(forall|f: int| !legal_from(s, d, player, f));
                        }
                        return Vec::new();
                    } else {
                        let mut b = *board;
                        b.dec_cell(bar);
                        b.inc_cell(to);
                        let r = vec![b];
                        proof {
                            assert(!single_opp(s[ti], player) && s[ti] != 0);
                            assert(!blocked_for(s[ti], player));
                            assert(legal_from(s, d, player, bar_index(player)));
                            assert(b@ =~= apply_from(s, d, player, bar_index(player)));
                            lemma_singleton_post(s, d, player, b, r@);
                        }
                        return r;
                    }
                },
                None => {
                    let mut b = *board;
                    b.dec_cell(bar);
                    b.set(to, one_checker(player));
                    let r = vec![b];
                    proof {
                        assert(legal_from(s, d, player, bar_index(player)));
                        assert(b@ =~= apply_from(s, d, player, bar_index(player)));
                        lemma_singleton_post(s, d, player, b, r@);
                    }
                    return r;
                },
            }
        }

        let mut lanes: [i8; 32] = splat(0);
        let mut k: usize = 0;
        while k < 26
            invariant
                k <= 26,
                forall|i: int| 0 <= i < k ==> #[trigger] lanes@[i] == s[i],
                forall|i: int| k <= i < 32 ==> #[trigger] lanes@[i] == 0i8,
            decreases 26 - k,
        {
            lanes[k] = board.0[k];
            k += 1;
        }

        let mut anti: [i8; 32] = splat(1);
        let mut k2: usize = 0;
        while k2 < 32
            invariant
                k2 <= 32,
                forall|i: int|
                    0 <= i < k2 ==> #[trigger] anti@[i] == if home_point(
                        i,
                        player,
                    ) {
                        0i8
                    } else {
                        1i8
                    },
                forall|i: int| k2 <= i < 32 ==> #[trigger] anti@[i] == 1i8,
        decreases 32 - k2,
        {
            let coord = BoardCoord(k2 as u8);
            if coord.is_home(player) {
                anti[k2] = 0;
            }
            k2 += 1;
        }

        let mut any_outside = false;
        let mut k3: usize = 0;
        while k3 < 32
            invariant
                k3 <= 32,
                any_outside ==> exists|i: int|
                    0 <= i < k3 && anti@[i] == 1i8 && owns(#[trigger] lanes@[i] as int, player),
                !any_outside ==> forall|i: int|
                    0 <= i < k3 ==> !(anti@[i] == 1i8 && owns(#[trigger] lanes@[i] as int, player)),
            decreases 32 - k3,
        {
            let a = lanes[k3];
            let m = anti[k3];
            proof {
                let ai = a as int;
                let mi = m as int;
                assert(mi == 0 || mi == 1);
                assert(ai * mi == if mi == 1 {
                    ai
                } else {
                    0
                }) by (nonlinear_arith)
                    requires
                        mi == 0 || mi == 1,
                ;
            }
            let prod = a * m;
            let outside = match player {
                Bw::White => prod > 0,
                Bw::Black => prod < 0,
            };
            proof {
                assert(outside == (anti@[k3 as int] == 1i8 && owns(lanes@[k3 as int] as int,
                player)));
            }
            if outside {
                proof {
                    assert(anti@[k3 as int] == 1i8 && owns(lanes@[k3 as int] as int, player));
                }
                any_outside = true;
            }
            k3 += 1;
        }
        let removals_possible = !any_outside;
        proof {
            if removals_possible {
                assert forall|t: int|
                    1 <= t <= 24 && !home_point(t, player) implies !owns(
                    #[trigger] s[t] as int,
                    player,
                ) by {
                    assert(anti@[t] == 1i8);
                    assert(lanes@[t] == s[t]);
                }
                assert(all_home(s, player));
            } else {
                let i = choose|i: int|
                    0 <= i < 32 && anti@[i] == 1i8 && owns(#[trigger] lanes@[i] as int, player);
                assert(i < 26);
                assert(lanes@[i] == s[i]);
                assert(i != bar_index(player));
                if i == 0 || i == 25 {
                    assert(!owns(s[i] as int, player));
                }
                assert(1 <= i <= 24 && !home_point(i, player));
                assert(!all_home(s, player));
            }
        }

        let mut moves: Vec<Board> = Vec::new();
        let ghost mut froms: Seq<int> = Seq::empty();

        if removals_possible {
            let mut i: u8 = 1;
            while i <= die.0
                invariant
                    1 <= i <= die.0 + 1,
                    moves_match_froms(s, d, player, moves@, froms),
                    forall|j: int|
                        0 <= j < froms.len() ==> 1 <= #[trigger] froms[j] <= 24 && 1
                            <= perspective_of(froms[j], player) < i,
                    forall|f: int|
                        1 <= f <= 24 && owns(s[f] as int, player) && perspective_of(f, player) < i
                            ==> has_from(froms, f),
                decreases die.0 + 1 - i,
            {
                let c = BoardCoord::rel(player, i);
                let ghost fi = c.0 as int;
                proof {
                    assert(perspective_of(fi, player) == i);
                }
                if board.get(c).matches(player) {
                    let mut b = *board;
                    b.dec_cell(c);
                    proof {
                        assert(is_bearoff(s, d, player, fi));
                        assert(legal_from(s, d, player, fi));
                        assert(b@ =~= apply_from(s, d, player, fi));
                    }
                    moves.push(b);
                    proof {
                        let froms0 = froms;
                        froms = froms.push(fi);
                        assert(froms[froms.len() - 1] == fi);
                        assert forall|f: int|
                            1 <= f <= 24 && owns(s[f] as int, player) && perspective_of(f, player)
                                < i + 1 implies has_from(froms, f) by {
                            if f == fi {
                                assert(froms[froms.len() - 1] == f);
                            } else {
                                assert(perspective_of(f, player) < i);
                                assert(has_from(froms0, f));
                                let j = choose|j: int| 0 <= j < froms0.len() && froms0[j] == f;
                                assert(froms[j] == f);
                            }
                        }
                    }
                }
                i += 1;
            }
        }

        let udie = die.0 as usize;
        let rotated = rotate_dyn_dyn(lanes, udie, matches!(player, Bw::White));
        let mut good: [bool; 32] = [false; 32];
        let mut t: usize = 0;
        while t < 32
            invariant
                t <= 32,
                forall|j: int|
                    0 <= j < t ==> #[trigger] good@[j] == ((match player {
                        Bw::White => rotated@[j] > 0,
                        Bw::Black => rotated@[j] < 0,
                    }) && !(match player {
                        Bw::White => lanes@[j] <= -2,
                        Bw::Black => lanes@[j] >= 2,
                    })),
            decreases 32 - t,
        {
            let valid_from_source = match player {
                Bw::White => rotated[t] > 0,
                Bw::Black => rotated[t] < 0,
            };
            let target_forbidden = match player {
                Bw::White => lanes[t] < -1,
                Bw::Black => lanes[t] > 1,
            };
            good[t] = valid_from_source && !target_forbidden;
            t += 1;
        }
        proof {
            assert forall|to: int| 1 <= to <= 24 implies #[trigger] good@[to] == ({
                let f = dest_of(to, player.spec_opponent(), d);
                &&& 1 <= f <= 24
                &&& owns(s[f] as int, player)
                &&& !blocked_for(s[to], player)
            }) by {
                let f = dest_of(to, player.spec_opponent(), d);
                match player {
                    Bw::White => {
                        assert(f == to + d);
                        assert(2 <= to + d <= 30);
                        assert((to + d) % 32 == to + d);
                        assert(rotated@[to] == lanes@[to + d]);
                        if to + d <= 25 {
                            assert(lanes@[to + d] == s[to + d]);
                        } else {
                            assert(lanes@[to + d] == 0i8);
                        }
                        assert(s[25] == 0);
                    },
                    Bw::Black => {
                        assert(f == to - d);
                        assert(to + 32 - d >= 27);
                        if to - d >= 1 {
                            assert((to + 32 - d) % 32 == to - d);
                            assert(rotated@[to] == lanes@[to - d]);
                            assert(lanes@[to - d] == s[to - d]);
                        } else if to - d == 0 {
                            assert((to + 32 - d) % 32 == 0);
                            assert(rotated@[to] == lanes@[0]);
                            assert(s[0] == 0);
                        } else {
                            assert(27 <= to + 32 - d < 32);
                            assert((to + 32 - d) % 32 == to + 32 - d);
                            assert(rotated@[to] == lanes@[to + 32 - d]);
                            assert(lanes@[to + 32 - d] == 0i8);
                        }
                    },
                }
            }
        }

        let mut lane: u8 = 1;
        while lane <= 24
            invariant
                1 <= lane <= 25,
                moves_match_froms(s, d, player, moves@, froms),
                forall|j: int|
                    0 <= j < froms.len() ==> 1 <= #[trigger] froms[j] <= 24 && (perspective_of(
                        froms[j],
                        player,
                    ) <= d || (perspective_of(froms[j], player) > d && dest_of(
                        froms[j],
                        player,
                        d,
                    ) < lane)),
                forall|f: int|
                    1 <= f <= 24 && owns(s[f] as int, player) && perspective_of(f, player) <= d
                        && is_bearoff(s, d, player, f) ==> has_from(froms, f),
                forall|f: int|
                    1 <= f <= 24 && owns(s[f] as int, player) && 1 <= dest_of(f, player, d) < lane
                        && !blocked_for(s[dest_of(f, player, d)], player) ==> has_from(froms, f),
            decreases 25 - lane,
        {
            if good[lane as usize] {
                let to = BoardCoord(lane);
                let ghost ti = lane as int;
                match to.advance(player.opponent(), die) {
                    Some(from) => {
                        let ghost fi = from.0 as int;
                        proof {
                            assert(fi == dest_of(ti, player.spec_opponent(), d));
                            assert(ti == dest_of(fi, player, d));
                            assert(owns(s[fi] as int, player));
                            assert(!blocked_for(s[ti], player));
                            assert(perspective_of(fi, player) > d);
                            assert(legal_from(s, d, player, fi));
                        }
                        let tocell = board.get(to);
                        let push = match tocell.to_bwn() {
                            Some((opp, n)) => {
                                if opp != player && n == 1 {
                                    let mut b = *board;
                                    b.dec_cell(from);
                                    b.set(to, one_checker(player));
                                    b.inc_bar(opp);
                                    proof {
                                        assert(opp == player.spec_opponent());
                                        assert(b@ =~= apply_from(s, d, player, fi));
                                    }
                                    Some(b)
                                } else if opp != player {
                                    proof {
                                        assert(blocked_for(s[ti], player));
                                        assert(false);
                                    }
                                    None
                                } else {
                                    let mut b = *board;
                                    b.dec_cell(from);
                                    b.inc_cell(to);
                                    proof {
                                        assert(!single_opp(s[ti], player) && s[ti] != 0);
                                        assert(b@ =~= apply_from(s, d, player, fi));
                                    }
                                    Some(b)
                                }
                            },
                            None => {
                                let mut b = *board;
                                b.dec_cell(from);
                                b.set(to, one_checker(player));
                                proof {
                                    assert(b@ =~= apply_from(s, d, player, fi));
                                }
                                Some(b)
                            },
                        };
                        if let Some(b) = push {
                            proof {
                                assert(!has_from(froms, fi));
                            }
                            moves.push(b);
                            proof {
                                let froms0 = froms;
                                froms = froms.push(fi);
                                assert(froms[froms.len() - 1] == fi);
                                assert forall|f: int|
                                    1 <= f <= 24 && owns(s[f] as int, player) && perspective_of(
                                        f,
                                        player,
                                    ) <= d && is_bearoff(s, d, player, f) implies has_from(
                                    froms,
                                    f,
                                ) by {
                                    assert(has_from(froms0, f));
                                    let j = choose|j: int|
                                        0 <= j < froms0.len() && froms0[j] == f;
                                    assert(froms[j] == f);
                                }
                                assert forall|f: int|
                                    1 <= f <= 24 && owns(s[f] as int, player) && 1 <= dest_of(
                                        f,
                                        player,
                                        d,
                                    ) < lane + 1 && !blocked_for(
                                        s[dest_of(f, player, d)],
                                        player,
                                    ) implies has_from(froms, f) by {
                                    if f == fi {
                                        assert(froms[froms.len() - 1] == f);
                                    } else {
                                        assert(dest_of(f, player, d) != ti);
                                        assert(has_from(froms0, f));
                                        let j = choose|j: int|
                                            0 <= j < froms0.len() && froms0[j] == f;
                                        assert(froms[j] == f);
                                    }
                                }
                            }
                        }
                    },
                    None => {
                        proof {
                            let f = dest_of(ti, player.spec_opponent(), d);
                            assert(1 <= f <= 24);
                            assert(dest_of(f, player, d) == ti);
                            assert(false);
                        }
                    },
                }
            } else {
                proof {
                    assert forall|f: int|
                        1 <= f <= 24 && owns(s[f] as int, player) && dest_of(f, player, d) == lane
                            as int && !blocked_for(s[dest_of(f, player, d)], player) implies
                        has_from(froms, f) by {
                        assert(f == dest_of(lane as int, player.spec_opponent(), d));
                        assert(good@[lane as int]);
                    }
                }
            }
            lane += 1;
        }

        proof {
            assert forall|f: int| #[trigger] legal_from(s, d, player, f) implies has_from(
                froms,
                f,
            ) by {
                assert(1 <= f <= 24 && owns(s[f] as int, player));
                if is_bearoff(s, d, player, f) {
                    assert(perspective_of(f, player) <= d);
                } else {
                    assert(1 <= dest_of(f, player, d) <= 24 && !blocked_for(
                        s[dest_of(f, player, d)],
                        player,
                    ));
                }
            }
            lemma_post_from_froms(s, d, player, moves@, froms);
        }
        moves
    }
}

} // verus!
