//! Laws of move generation, stated over the shared specification that both
//! generators are verified against.

use vstd::prelude::*;

use crate::movegen::{
    all_home, apply_from, bar_occupied, blocked_for, doubles_frontier, entry_index, has_board,
    is_bearoff, legal_from, lemma_apply_props, move_checker, one_die_post, reachable_one,
    reachable_two, sign_val, single_opp, succ_contains, succ_exists, unique_moves_post,
};
use crate::types::board::{
    add_sign, bar_index, cell_contrib, color_sum, color_sum_to, dec_val, dest_of, home_point,
    inc_val, inv_seq, neg_cell, perspective_of, wf_seq, Board,
};
use crate::types::dice::Dice;
use crate::types::prim::{mag, owns, Bw};

verus! {

/// The occupancies of the boards of `r`, in order.
pub open spec fn views(r: Seq<Board>) -> Seq<Seq<i8>> {
    r.map_values(|b: Board| b@)
}

/// Checker conservation: every board a single-die generator returns keeps
/// the opponent's full checker count, and keeps the mover's count too except
/// on a bear-off, which removes exactly one checker from the board.
pub proof fn lemma_checker_conservation(s: Seq<i8>, d: int, c: Bw, r: Seq<Board>, i: int)
    requires
        wf_seq(s),
        1 <= d <= 6,
        one_die_post(s, d, c, r),
        0 <= i < r.len(),
        color_sum(s, Bw::White) == 15,
        color_sum(s, Bw::Black) == 15,
    ensures
        color_sum(r[i]@, c.spec_opponent()) == 15,
        color_sum(r[i]@, c) == 15 || (all_home(s, c) && !bar_occupied(s, c) && color_sum(r[i]@, c)
            == 14),
{
    assert(reachable_one(s, d, c, r[i]@));
    let from = choose|from: int|
        #[trigger] legal_from(s, d, c, from) && r[i]@ == apply_from(s, d, c, from);
    lemma_apply_props(s, d, c, from);
}

/// Forced bar entry: while a color has a checker on its bar, every board a
/// single-die generator returns is the one bar entry, and it carries exactly
/// one checker fewer on that bar than the input.
pub proof fn lemma_forced_bar_entry(s: Seq<i8>, d: int, c: Bw, r: Seq<Board>, i: int)
    requires
        wf_seq(s),
        1 <= d <= 6,
        one_die_post(s, d, c, r),
        bar_occupied(s, c),
        0 <= i < r.len(),
    ensures
        r[i]@ == apply_from(s, d, c, bar_index(c)),
        mag(r[i]@[bar_index(c)] as int) == mag(s[bar_index(c)] as int) - 1,
{
    assert(reachable_one(s, d, c, r[i]@));
    let from = choose|from: int|
        #[trigger] legal_from(s, d, c, from) && r[i]@ == apply_from(s, d, c, from);
    assert(from == bar_index(c));
    lemma_apply_props(s, d, c, from);
    assert(r[i]@[bar_index(c)] == dec_val(s[bar_index(c)]));
}

/// No premature bear-off: while a color still has a checker outside its home
/// quadrant or on its bar, no board a single-die generator returns reduces
/// either color's total checker count over board and bars.
pub proof fn lemma_no_premature_bearoff(s: Seq<i8>, d: int, c: Bw, r: Seq<Board>, i: int)
    requires
        wf_seq(s),
        1 <= d <= 6,
        one_die_post(s, d, c, r),
        !all_home(s, c) || bar_occupied(s, c),
        0 <= i < r.len(),
    ensures
        color_sum(r[i]@, c) == color_sum(s, c),
        color_sum(r[i]@, c.spec_opponent()) == color_sum(s, c.spec_opponent()),
{
    assert(reachable_one(s, d, c, r[i]@));
    let from = choose|from: int|
        #[trigger] legal_from(s, d, c, from) && r[i]@ == apply_from(s, d, c, from);
    lemma_apply_props(s, d, c, from);
}

proof fn lemma_nodup_same_members_multiset(v1: Seq<Seq<i8>>, v2: Seq<Seq<i8>>)
    requires
        v1.no_duplicates(),
        v2.no_duplicates(),
        forall|x: Seq<i8>| #[trigger] v1.contains(x) <==> v2.contains(x),
    ensures
        v1.to_multiset() == v2.to_multiset(),
{
    broadcast use vstd::seq_lib::group_to_multiset_ensures;

    v1.lemma_multiset_has_no_duplicates();
    v2.lemma_multiset_has_no_duplicates();
    assert forall|x: Seq<i8>| #[trigger] v1.to_multiset().count(x) == v2.to_multiset().count(
        x,
    ) by {
        if v1.contains(x) {
            assert(v2.contains(x));
            assert(v1.to_multiset().count(x) > 0 && v2.to_multiset().count(x) > 0);
        } else {
            assert(!v2.contains(x));
            assert(v1.to_multiset().count(x) == 0 && v2.to_multiset().count(x) == 0);
        }
    }
    assert(v1.to_multiset() =~= v2.to_multiset());
}

/// Generator equivalence: any two outputs that meet the one-die contract for
/// the same board, die and player hold exactly the same occupancies, each
/// exactly once — so after sorting, the reference and the vector generator
/// return identical lists.
pub proof fn lemma_generators_agree(s: Seq<i8>, d: int, c: Bw, r1: Seq<Board>, r2: Seq<Board>)
    requires
        one_die_post(s, d, c, r1),
        one_die_post(s, d, c, r2),
    ensures
        forall|b: Seq<i8>| #[trigger] has_board(r1, b) <==> has_board(r2, b),
        views(r1).to_multiset() == views(r2).to_multiset(),
{
    assert forall|b: Seq<i8>| #[trigger] has_board(r1, b) implies has_board(r2, b) by {
        lemma_cross_membership(s, d, c, r1, r2, b);
    }
    assert forall|b: Seq<i8>| #[trigger] has_board(r2, b) implies has_board(r1, b) by {
        lemma_cross_membership(s, d, c, r2, r1, b);
    }
    lemma_views_facts(r1);
    lemma_views_facts(r2);
    assert forall|x: Seq<i8>| #[trigger] views(r1).contains(x) <==> views(r2).contains(x) by {
        assert(views(r1).contains(x) <==> has_board(r1, x));
        assert(views(r2).contains(x) <==> has_board(r2, x));
    }
    lemma_nodup_same_members_multiset(views(r1), views(r2));
}

proof fn lemma_cross_membership(s: Seq<i8>, d: int, c: Bw, ra: Seq<Board>, rb: Seq<Board>, b: Seq<i8>)
    requires
        one_die_post(s, d, c, ra),
        one_die_post(s, d, c, rb),
        has_board(ra, b),
    ensures
        has_board(rb, b),
{
    let i = choose|i: int| 0 <= i < ra.len() && (#[trigger] ra[i])@ == b;
    assert(reachable_one(s, d, c, ra[i]@));
    let from = choose|from: int|
        #[trigger] legal_from(s, d, c, from) && b == apply_from(s, d, c, from);
    assert(has_board(rb, apply_from(s, d, c, from)));
}

proof fn lemma_views_facts(r: Seq<Board>)
    requires
        forall|i: int, j: int| 0 <= i < j < r.len() ==> r[i]@ != r[j]@,
    ensures
        views(r).no_duplicates(),
        forall|x: Seq<i8>| #[trigger] views(r).contains(x) <==> has_board(r, x),
{
    assert(views(r).len() == r.len());
    assert forall|x: Seq<i8>| #[trigger] views(r).contains(x) implies has_board(r, x) by {
        let i = choose|i: int| 0 <= i < views(r).len() && views(r)[i] == x;
        assert(r[i]@ == x);
    }
    assert forall|x: Seq<i8>| has_board(r, x) implies views(r).contains(x) by {
        let i = choose|i: int| 0 <= i < r.len() && (#[trigger] r[i])@ == x;
        assert(views(r)[i] == x);
    }
}

/// Whether `b` can be reached from `s` by at most `k` legal single-die
/// moves with die `d`.
pub open spec fn reachable_within(s: Seq<i8>, d: int, c: Bw, b: Seq<i8>, k: nat) -> bool
    decreases k,
{
    if b == s {
        true
    } else if k == 0 {
        false
    } else {
        exists|m: Seq<i8>|
            #[trigger] reachable_one(s, d, c, m) && reachable_within(m, d, c, b, (k - 1) as nat)
    }
}

proof fn lemma_within_mono(s: Seq<i8>, d: int, c: Bw, b: Seq<i8>, k: nat)
    requires
        reachable_within(s, d, c, b, k),
    ensures
        reachable_within(s, d, c, b, k + 1),
    decreases k,
{
    if b != s && k > 0 {
        let m = choose|m: Seq<i8>|
            #[trigger] reachable_one(s, d, c, m) && reachable_within(m, d, c, b, (k - 1) as nat);
        lemma_within_mono(m, d, c, b, (k - 1) as nat);
    }
}

proof fn lemma_within_extend(s: Seq<i8>, d: int, c: Bw, a: Seq<i8>, b: Seq<i8>, k: nat)
    requires
        reachable_within(s, d, c, a, k),
        reachable_one(a, d, c, b),
    ensures
        reachable_within(s, d, c, b, k + 1),
    decreases k,
{
    if b == s {
    } else if a == s {
        assert(reachable_one(s, d, c, b) && reachable_within(b, d, c, b, k));
    } else {
        let m = choose|m: Seq<i8>|
            #[trigger] reachable_one(s, d, c, m) && reachable_within(m, d, c, a, (k - 1) as nat);
        lemma_within_extend(m, d, c, a, b, (k - 1) as nat);
        assert(reachable_one(s, d, c, m) && reachable_within(m, d, c, b, k));
    }
}

/// Flipping a cell twice gives the cell back.
proof fn lemma_neg_cell_involutive(v: i8)
    ensures
        neg_cell(neg_cell(v)) == v,
{
}

/// Mirroring an occupancy twice gives the occupancy back.
pub proof fn lemma_inv_involutive(s: Seq<i8>)
    ensures
        inv_seq(inv_seq(s)) == s,
{
    assert forall|i: int| 0 <= i < s.len() implies inv_seq(inv_seq(s))[i] == s[i] by {
        lemma_neg_cell_involutive(s[i]);
    }
    assert(inv_seq(inv_seq(s)) =~= s);
}

proof fn lemma_inv_sum_to(s: Seq<i8>, c: Bw, n: int)
    requires
        s.len() == 26,
        0 <= n <= 26,
        forall|i: int| 0 <= i < 26 ==> -15 <= #[trigger] s[i] <= 15,
    ensures
        color_sum_to(inv_seq(s), c, n) == color_sum_to(s, c.spec_opponent(), 26) - color_sum_to(
            s,
            c.spec_opponent(),
            26 - n,
        ),
    decreases n,
{
    if n > 0 {
        lemma_inv_sum_to(s, c, n - 1);
        assert(inv_seq(s).len() == 26);
        assert(inv_seq(s)[n - 1] == neg_cell(s[26 - n]));
        assert(-15 <= s[26 - n] <= 15);
        assert(cell_contrib(neg_cell(s[26 - n]), c) == cell_contrib(s[26 - n], c.spec_opponent()));
    }
}

/// The mirrored occupancy is well formed, with the colors' counts swapped.
pub proof fn lemma_wf_inv(s: Seq<i8>)
    requires
        wf_seq(s),
    ensures
        wf_seq(inv_seq(s)),
        color_sum(inv_seq(s), Bw::White) == color_sum(s, Bw::Black),
        color_sum(inv_seq(s), Bw::Black) == color_sum(s, Bw::White),
{
    lemma_inv_sum_to(s, Bw::White, 26);
    lemma_inv_sum_to(s, Bw::Black, 26);
    assert forall|i: int| 0 <= i < 26 implies -15 <= #[trigger] inv_seq(s)[i] <= 15 by {
        assert(inv_seq(s)[i] == neg_cell(s[25 - i]));
    }
    assert(inv_seq(s)[0] == neg_cell(s[25]));
    assert(inv_seq(s)[25] == neg_cell(s[0]));
}

/// A source is legal on a board exactly when its mirror image is legal for
/// the opponent on the mirrored board.
pub proof fn lemma_mirror_legal(s: Seq<i8>, d: int, c: Bw, f: int)
    requires
        wf_seq(s),
        1 <= d <= 6,
    ensures
        legal_from(s, d, c, f) <==> legal_from(inv_seq(s), d, c.spec_opponent(), 25 - f),
{
    let t = inv_seq(s);
    let opp = c.spec_opponent();
    assert forall|i: int| 0 <= i < 26 implies #[trigger] t[i] == neg_cell(s[25 - i]) by {}
    assert(bar_index(opp) == 25 - bar_index(c));
    assert(t[bar_index(opp)] == neg_cell(s[bar_index(c)]));
    assert(bar_occupied(t, opp) <==> bar_occupied(s, c));
    assert(entry_index(opp, d) == 25 - entry_index(c, d));
    assert(t[entry_index(opp, d)] == neg_cell(s[entry_index(c, d)]));
    assert(all_home(t, opp) <==> all_home(s, c)) by {
        if all_home(s, c) {
            assert forall|i: int| 1 <= i <= 24 && !home_point(i, opp) implies !owns(
                #[trigger] t[i] as int,
                opp,
            ) by {
                assert(t[i] == neg_cell(s[25 - i]));
                assert(!home_point(25 - i, c));
                assert(!owns(s[25 - i] as int, c));
            }
        }
        if all_home(t, opp) {
            assert forall|i: int| 1 <= i <= 24 && !home_point(i, c) implies !owns(
                #[trigger] s[i] as int,
                c,
            ) by {
                assert(t[25 - i] == neg_cell(s[i]));
                assert(!home_point(25 - i, opp));
                assert(!owns(t[25 - i] as int, opp));
            }
        }
    }
    if 1 <= f <= 24 {
        assert(t[25 - f] == neg_cell(s[f]));
        assert(owns(t[25 - f] as int, opp) <==> owns(s[f] as int, c));
        assert(perspective_of(25 - f, opp) == perspective_of(f, c));
        assert(dest_of(25 - f, opp, d) == 25 - dest_of(f, c, d));
        if 1 <= dest_of(f, c, d) <= 24 {
            assert(t[dest_of(25 - f, opp, d)] == neg_cell(s[dest_of(f, c, d)]));
            assert(blocked_for(t[dest_of(25 - f, opp, d)], opp) <==> blocked_for(
                s[dest_of(f, c, d)],
                c,
            ));
        }
    }
}

proof fn lemma_inv_update(s: Seq<i8>, i: int, v: i8)
    requires
        s.len() == 26,
        0 <= i < 26,
    ensures
        inv_seq(s.update(i, v)) == inv_seq(s).update(25 - i, neg_cell(v)),
{
    assert(inv_seq(s.update(i, v)) =~= inv_seq(s).update(25 - i, neg_cell(v)));
}

proof fn lemma_mirror_move_checker(s: Seq<i8>, from: int, to: int, c: Bw)
    requires
        wf_seq(s),
        from == bar_index(c) || 1 <= from <= 24,
        owns(s[from] as int, c),
        1 <= to <= 24,
        to != from,
        !blocked_for(s[to], c),
    ensures
        inv_seq(move_checker(s, from, to, c)) == move_checker(
            inv_seq(s),
            25 - from,
            25 - to,
            c.spec_opponent(),
        ),
{
    let t = inv_seq(s);
    let opp = c.spec_opponent();
    assert forall|i: int| 0 <= i < 26 implies #[trigger] t[i] == neg_cell(s[25 - i]) by {}
    let dv = dec_val(s[from]);
    assert(neg_cell(dv) == dec_val(t[25 - from]));
    let s1 = s.update(from, dv);
    let t1 = t.update(25 - from, dec_val(t[25 - from]));
    lemma_inv_update(s, from, dv);
    assert(inv_seq(s1) == t1);
    assert(single_opp(t[25 - to], opp) <==> single_opp(s[to], c));
    if single_opp(s[to], c) {
        let bo = bar_index(opp);
        let s2 = s1.update(to, sign_val(c));
        lemma_inv_update(s1, to, sign_val(c));
        assert(neg_cell(sign_val(c)) == sign_val(opp));
        let t2 = t1.update(25 - to, sign_val(opp));
        assert(inv_seq(s2) == t2);
        let nb = add_sign(s[bo], opp);
        lemma_inv_update(s2, bo, nb);
        assert(25 - bo == bar_index(c));
        assert(t[bar_index(c)] == neg_cell(s[bo]));
        assert(t2[bar_index(c)] == t[bar_index(c)]);
        assert(neg_cell(nb) == add_sign(t[bar_index(c)], c));
        assert(inv_seq(s2.update(bo, nb)) == t2.update(bar_index(c), add_sign(t2[bar_index(c)], c)));
        assert(move_checker(s, from, to, c) == s2.update(bo, nb));
        assert(move_checker(t, 25 - from, 25 - to, opp) == t2.update(
            bar_index(c),
            add_sign(t[bar_index(c)], c),
        ));
    } else if s[to] == 0 {
        assert(t[25 - to] == 0i8);
        lemma_inv_update(s1, to, sign_val(c));
        assert(neg_cell(sign_val(c)) == sign_val(opp));
    } else {
        assert(t[25 - to] == neg_cell(s[to]));
        lemma_inv_update(s1, to, inc_val(s[to]));
        assert(neg_cell(inc_val(s[to])) == inc_val(t[25 - to]));
    }
}

/// Playing a move and mirroring the board commute.
pub proof fn lemma_mirror_apply(s: Seq<i8>, d: int, c: Bw, f: int)
    requires
        wf_seq(s),
        1 <= d <= 6,
        legal_from(s, d, c, f),
    ensures
        inv_seq(apply_from(s, d, c, f)) == apply_from(inv_seq(s), d, c.spec_opponent(), 25 - f),
{
    let t = inv_seq(s);
    let opp = c.spec_opponent();
    lemma_mirror_legal(s, d, c, f);
    assert forall|i: int| 0 <= i < 26 implies #[trigger] t[i] == neg_cell(s[25 - i]) by {}
    assert(bar_occupied(t, opp) <==> bar_occupied(s, c));
    assert(all_home(t, opp) <==> all_home(s, c)) by {
        lemma_mirror_legal(s, d, c, bar_index(c));
        if all_home(s, c) {
            assert forall|i: int| 1 <= i <= 24 && !home_point(i, opp) implies !owns(
                #[trigger] t[i] as int,
                opp,
            ) by {
                assert(t[i] == neg_cell(s[25 - i]));
                assert(!home_point(25 - i, c));
            }
        }
        if all_home(t, opp) {
            assert forall|i: int| 1 <= i <= 24 && !home_point(i, c) implies !owns(
                #[trigger] s[i] as int,
                c,
            ) by {
                assert(t[25 - i] == neg_cell(s[i]));
                assert(!home_point(25 - i, opp));
            }
        }
    }
    if bar_occupied(s, c) {
        assert(owns(s[bar_index(c)] as int, c));
        assert(1 <= entry_index(c, d) <= 24 && entry_index(c, d) != bar_index(c));
        lemma_mirror_move_checker(s, bar_index(c), entry_index(c, d), c);
        assert(25 - bar_index(c) == bar_index(opp));
        assert(25 - entry_index(c, d) == entry_index(opp, d));
    } else if is_bearoff(s, d, c, f) {
        assert(is_bearoff(t, d, opp, 25 - f));
        let dv = dec_val(s[f]);
        lemma_inv_update(s, f, dv);
        assert(t[25 - f] == neg_cell(s[f]));
        assert(neg_cell(dv) == dec_val(t[25 - f]));
    } else {
        assert(perspective_of(25 - f, opp) == perspective_of(f, c));
        assert(!is_bearoff(t, d, opp, 25 - f));
        let to = dest_of(f, c, d);
        lemma_mirror_move_checker(s, f, to, c);
        assert(25 - to == dest_of(25 - f, opp, d));
    }
}

/// One-move reachability mirrors: a board reachable in one move corresponds
/// to its mirror image reachable by the opponent on the mirrored board.
pub proof fn lemma_mirror_reachable(s: Seq<i8>, d: int, c: Bw, b: Seq<i8>)
    requires
        wf_seq(s),
        1 <= d <= 6,
        reachable_one(s, d, c, b),
    ensures
        reachable_one(inv_seq(s), d, c.spec_opponent(), inv_seq(b)),
{
    let f = choose|f: int| #[trigger] legal_from(s, d, c, f) && b == apply_from(s, d, c, f);
    lemma_mirror_legal(s, d, c, f);
    lemma_mirror_apply(s, d, c, f);
    assert(legal_from(inv_seq(s), d, c.spec_opponent(), 25 - f) && inv_seq(b) == apply_from(
        inv_seq(s),
        d,
        c.spec_opponent(),
        25 - f,
    ));
}

proof fn lemma_frontier_wf(s: Seq<i8>, d: int, c: Bw, k: nat)
    requires
        wf_seq(s),
        1 <= d <= 6,
    ensures
        forall|b: Seq<i8>| #[trigger] doubles_frontier(s, d, c, k).contains(b) ==> wf_seq(b),
    decreases k,
{
    if k == 0 {
    } else {
        let prev = doubles_frontier(s, d, c, (k - 1) as nat);
        lemma_frontier_wf(s, d, c, (k - 1) as nat);
        if succ_exists(prev, d, c) {
            assert forall|b: Seq<i8>| #[trigger] doubles_frontier(s, d, c, k).contains(b) implies
                wf_seq(b) by {
                assert(succ_contains(prev, d, c, b));
                let a = choose|a: Seq<i8>| #[trigger] prev.contains(a) && reachable_one(a, d, c, b);
                let f = choose|f: int|
                    #[trigger] legal_from(a, d, c, f) && b == apply_from(a, d, c, f);
                lemma_apply_props(a, d, c, f);
            }
        }
    }
}

proof fn lemma_mirror_succ(prev: Set<Seq<i8>>, prevm: Set<Seq<i8>>, d: int, c: Bw)
    requires
        1 <= d <= 6,
        forall|b: Seq<i8>| #[trigger] prev.contains(b) ==> wf_seq(b),
        forall|b: Seq<i8>| #[trigger] prevm.contains(b) ==> wf_seq(b),
        forall|b: Seq<i8>|
            #![trigger prevm.contains(inv_seq(b))]
            prev.contains(b) ==> prevm.contains(inv_seq(b)),
        forall|b: Seq<i8>|
            #![trigger prev.contains(inv_seq(b))]
            prevm.contains(b) ==> prev.contains(inv_seq(b)),
    ensures
        succ_exists(prev, d, c) <==> succ_exists(prevm, d, c.spec_opponent()),
        forall|b: Seq<i8>|
            #![trigger succ_contains(prevm, d, c.spec_opponent(), inv_seq(b))]
            succ_contains(prev, d, c, b) ==> succ_contains(prevm, d, c.spec_opponent(), inv_seq(b)),
        forall|b: Seq<i8>|
            #![trigger succ_contains(prev, d, c, inv_seq(b))]
            succ_contains(prevm, d, c.spec_opponent(), b) ==> succ_contains(prev, d, c, inv_seq(b)),
{
    let opp = c.spec_opponent();
    assert(opp.spec_opponent() == c);
    assert forall|b: Seq<i8>|
        #![trigger succ_contains(prevm, d, opp, inv_seq(b))]
        succ_contains(prev, d, c, b) implies succ_contains(prevm, d, opp, inv_seq(b)) by {
        let a = choose|a: Seq<i8>| #[trigger] prev.contains(a) && reachable_one(a, d, c, b);
        lemma_mirror_reachable(a, d, c, b);
        assert(prevm.contains(inv_seq(a)));
    }
    assert forall|b: Seq<i8>|
        #![trigger succ_contains(prev, d, c, inv_seq(b))]
        succ_contains(prevm, d, opp, b) implies succ_contains(prev, d, c, inv_seq(b)) by {
        let a = choose|a: Seq<i8>| #[trigger] prevm.contains(a) && reachable_one(a, d, opp, b);
        lemma_mirror_reachable(a, d, opp, b);
        assert(prev.contains(inv_seq(a)));
        assert(reachable_one(inv_seq(a), d, c, inv_seq(b)));
    }
    if succ_exists(prev, d, c) {
        let b0 = choose|b0: Seq<i8>| #[trigger] succ_contains(prev, d, c, b0);
        assert(succ_contains(prevm, d, opp, inv_seq(b0)));
    }
    if succ_exists(prevm, d, opp) {
        let b0 = choose|b0: Seq<i8>| #[trigger] succ_contains(prevm, d, opp, b0);
        assert(succ_contains(prev, d, c, inv_seq(b0)));
    }
}

proof fn lemma_mirror_frontier(s: Seq<i8>, d: int, c: Bw, k: nat)
    requires
        wf_seq(s),
        1 <= d <= 6,
    ensures
        forall|b: Seq<i8>|
            #![trigger doubles_frontier(inv_seq(s), d, c.spec_opponent(), k).contains(inv_seq(b))]
            doubles_frontier(s, d, c, k).contains(b) ==> doubles_frontier(
                inv_seq(s),
                d,
                c.spec_opponent(),
                k,
            ).contains(inv_seq(b)),
        forall|b: Seq<i8>|
            #![trigger doubles_frontier(s, d, c, k).contains(inv_seq(b))]
            doubles_frontier(inv_seq(s), d, c.spec_opponent(), k).contains(b) ==> doubles_frontier(
                s,
                d,
                c,
                k,
            ).contains(inv_seq(b)),
    decreases k,
{
    let t = inv_seq(s);
    let opp = c.spec_opponent();
    lemma_wf_inv(s);
    if k == 0 {
        lemma_inv_involutive(s);
        assert(doubles_frontier(s, d, c, 0).contains(s));
        assert(inv_seq(t) == s);
    } else {
        let km1 = (k - 1) as nat;
        let prev = doubles_frontier(s, d, c, km1);
        let prevm = doubles_frontier(t, d, opp, km1);
        lemma_mirror_frontier(s, d, c, km1);
        lemma_frontier_wf(s, d, c, km1);
        lemma_frontier_wf(t, d, opp, km1);
        lemma_mirror_succ(prev, prevm, d, c);
        if succ_exists(prev, d, c) {
            assert forall|b: Seq<i8>|
                #![trigger doubles_frontier(t, d, opp, k).contains(inv_seq(b))]
                doubles_frontier(s, d, c, k).contains(b) implies doubles_frontier(
                t,
                d,
                opp,
                k,
            ).contains(inv_seq(b)) by {
                assert(succ_contains(prev, d, c, b));
                assert(succ_contains(prevm, d, opp, inv_seq(b)));
            }
            assert forall|b: Seq<i8>|
                #![trigger doubles_frontier(s, d, c, k).contains(inv_seq(b))]
                doubles_frontier(t, d, opp, k).contains(b) implies doubles_frontier(
                s,
                d,
                c,
                k,
            ).contains(inv_seq(b)) by {
                assert(succ_contains(prevm, d, opp, b));
                assert(succ_contains(prev, d, c, inv_seq(b)));
            }
        }
    }
}

/// Two-move reachability mirrors as one-move reachability does.
pub proof fn lemma_mirror_reachable_two(s: Seq<i8>, d0: int, d1: int, c: Bw, b: Seq<i8>)
    requires
        wf_seq(s),
        1 <= d0 <= 6,
        1 <= d1 <= 6,
        reachable_two(s, d0, d1, c, b),
    ensures
        reachable_two(inv_seq(s), d0, d1, c.spec_opponent(), inv_seq(b)),
{
    let m = choose|m: Seq<i8>|
        #[trigger] reachable_one(s, d0, c, m) && reachable_one(m, d1, c, b);
    lemma_mirror_reachable(s, d0, c, m);
    let f = choose|f: int| #[trigger] legal_from(s, d0, c, f) && m == apply_from(s, d0, c, f);
    lemma_apply_props(s, d0, c, f);
    lemma_mirror_reachable(m, d1, c, b);
    assert(reachable_one(inv_seq(s), d0, c.spec_opponent(), inv_seq(m)) && reachable_one(
        inv_seq(m),
        d1,
        c.spec_opponent(),
        inv_seq(b),
    ));
}

/// Mirror symmetry: the moves generated for a position are exactly the
/// mirror images of the moves generated for the mirrored position by the
/// opponent.
pub proof fn lemma_mirror_symmetry(s: Seq<i8>, dice: Dice, c: Bw, r: Seq<Board>, rm: Seq<Board>)
    requires
        wf_seq(s),
        dice.valid(),
        unique_moves_post(s, dice, c, r),
        unique_moves_post(inv_seq(s), dice, c.spec_opponent(), rm),
    ensures
        forall|b: Seq<i8>| #[trigger] has_board(r, b) <==> has_board(rm, inv_seq(b)),
{
    let t = inv_seq(s);
    let opp = c.spec_opponent();
    let d0 = dice.0.0 as int;
    let d1 = dice.1.0 as int;
    lemma_wf_inv(s);
    if dice.0 == dice.1 {
        lemma_mirror_frontier(s, d0, c, 4);
        assert forall|b: Seq<i8>| #[trigger] has_board(r, b) implies has_board(rm, inv_seq(b)) by {
            assert(doubles_frontier(s, d0, c, 4).contains(b));
            assert(doubles_frontier(t, d0, opp, 4).contains(inv_seq(b)));
        }
        assert forall|b: Seq<i8>| has_board(rm, inv_seq(b)) implies has_board(r, b) by {
            assert(doubles_frontier(t, d0, opp, 4).contains(inv_seq(b)));
            assert(doubles_frontier(s, d0, c, 4).contains(inv_seq(inv_seq(b))));
            lemma_inv_involutive(b);
        }
    } else {
        assert forall|b: Seq<i8>| #[trigger] has_board(r, b) implies has_board(rm, inv_seq(b)) by {
            if reachable_two(s, d0, d1, c, b) {
                lemma_mirror_reachable_two(s, d0, d1, c, b);
            } else {
                lemma_mirror_reachable_two(s, d1, d0, c, b);
            }
        }
        assert forall|b: Seq<i8>| has_board(rm, inv_seq(b)) implies has_board(r, b) by {
            lemma_inv_involutive(s);
            lemma_inv_involutive(b);
            if reachable_two(t, d0, d1, opp, inv_seq(b)) {
                lemma_mirror_reachable_two(t, d0, d1, opp, inv_seq(b));
            } else {
                lemma_mirror_reachable_two(t, d1, d0, opp, inv_seq(b));
            }
        }
    }
}

/// Bounded doubles: every board in the frontier that `k` rounds of a double
/// die produce is reachable from the input by at most `k` single-die moves;
/// in particular the four-round composition never yields a board beyond four
/// sequential applications.
pub proof fn lemma_doubles_bounded(s: Seq<i8>, d: int, c: Bw, b: Seq<i8>, k: nat)
    requires
        doubles_frontier(s, d, c, k).contains(b),
    ensures
        reachable_within(s, d, c, b, k),
    decreases k,
{
    if k == 0 {
        assert(b == s);
    } else {
        let prev = doubles_frontier(s, d, c, (k - 1) as nat);
        if succ_exists(prev, d, c) {
            assert(succ_contains(prev, d, c, b));
            let a = choose|a: Seq<i8>| #[trigger] prev.contains(a) && reachable_one(a, d, c, b);
            lemma_doubles_bounded(s, d, c, a, (k - 1) as nat);
            lemma_within_extend(s, d, c, a, b, (k - 1) as nat);
        } else {
            lemma_doubles_bounded(s, d, c, b, (k - 1) as nat);
            lemma_within_mono(s, d, c, b, (k - 1) as nat);
        }
    }
}

} // verus!
