use rand::rngs::StdRng;
use rand::SeedableRng;

use backgammon_simd::util::timings::{time, PerfParts};
use backgammon_simd::{BAndW, BOrW, Board, BoardCoord, Bw, Dice, Die};

#[test]
fn color_codes() {
    assert_eq!(Bw::Black.as_u8(), 0);
    assert_eq!(Bw::White.as_u8(), 1);
    assert_eq!(Bw::Black.as_alnum(), 'B');
    assert_eq!(Bw::White.as_alnum(), 'W');
    assert_eq!(Bw::White.opponent(), Bw::Black);
    assert_eq!(Bw::Black.opponent(), Bw::White);
}

#[test]
fn cell_values() {
    assert!(BOrW::empty().is_empty());
    assert_eq!(BOrW::white(3).0, 3);
    assert_eq!(BOrW::black(4).0, -4);
    assert_eq!(BOrW::white(3).to_bwn(), Some((Bw::White, 3)));
    assert_eq!(BOrW::black(4).to_bwn(), Some((Bw::Black, 4)));
    assert_eq!(BOrW::empty().to_bwn(), None);
    assert_eq!(BOrW::black(4).to_count(), 4);
    assert_eq!(BOrW::white(2).to_color(), Some(Bw::White));
    assert_eq!(BOrW::empty().to_color(), None);
    assert!(BOrW::white(2).matches(Bw::White));
    assert!(!BOrW::white(2).matches(Bw::Black));
    assert_eq!(BOrW::from((Bw::Black, 2)).0, -2);
    assert_eq!(BOrW::from((Bw::White, 0)).0, 0);
    assert_eq!(BOrW::white(1).as_u32(), 1);
    assert_eq!(BOrW::white(2).as_alnum(), 'c');
    assert_eq!(BOrW::black(2).as_alnum(), 'C');
    assert_eq!(BOrW::empty().as_alnum(), '0');
}

#[test]
fn count_pairs() {
    let mut p = BAndW::new(3, 4);
    assert!(!p.is_empty());
    assert!(BAndW::empty().is_empty());
    assert_eq!(p.get(&Bw::Black), 3);
    assert_eq!(p.get(&Bw::White), 4);
    p.set(&Bw::White, 9);
    assert_eq!(p.get(&Bw::White), 9);
    assert_eq!(p.as_u32(), 3 * 256 + 9);
    assert_eq!(BAndW::from_u32(p.as_u32()), p);
    assert_eq!(p.as_alnum(), ['D', 'j']);
}

#[test]
fn dice_encodings() {
    for dice in Dice::iter_all_possible() {
        assert!(1 <= dice.0 .0 && dice.0 .0 <= 6);
        assert!(1 <= dice.1 .0 && dice.1 .0 <= 6);
        assert_eq!(Dice::from_u8(dice.as_u8()), dice);
        assert_eq!(Dice::from_alnum(dice.as_alnum()), dice);
    }
    assert_eq!(Dice::iter_all_possible().len(), 36);
    assert_eq!(Dice(Die(2), Die(5)).as_u8(), 2 * 8 + 5);
    assert_eq!(Dice(Die(1), Die(1)).as_alnum(), '0');
    assert_eq!(Dice(Die(2), Die(3)).as_alnum(), '8');
    assert_eq!(Dice(Die(6), Die(6)).as_alnum(), 'Z');
}

#[test]
fn dice_expansion() {
    assert_eq!(Dice(Die(2), Die(5)).dice(), vec![Die(2), Die(5)]);
    assert_eq!(Dice(Die(4), Die(4)).dice(), vec![Die(4), Die(4), Die(4), Die(4)]);
    assert!(Dice(Die(4), Die(4)).is_double());
    assert!(!Dice(Die(2), Die(5)).is_double());
}

#[test]
fn rolls_are_valid() {
    let rng = &mut StdRng::seed_from_u64(42);
    for _ in 0..200 {
        let dice = Dice::roll(rng);
        assert!(1 <= dice.0 .0 && dice.0 .0 <= 6);
        assert!(1 <= dice.1 .0 && dice.1 .0 <= 6);
    }
}

#[test]
fn coordinates() {
    let coords = BoardCoord::inner_board_coords();
    assert_eq!(coords.len(), 24);
    assert_eq!(coords[0], BoardCoord(1));
    assert_eq!(coords[23], BoardCoord(24));

    assert_eq!(BoardCoord::bar(Bw::White), BoardCoord(25));
    assert_eq!(BoardCoord::bar(Bw::Black), BoardCoord(0));
    assert_eq!(BoardCoord::rel(Bw::White, 3), BoardCoord(3));
    assert_eq!(BoardCoord::rel(Bw::Black, 3), BoardCoord(22));
    assert_eq!(BoardCoord(7).mirror(), BoardCoord(18));

    assert!(BoardCoord(3).is_home(Bw::White));
    assert!(!BoardCoord(7).is_home(Bw::White));
    assert!(BoardCoord(20).is_home(Bw::Black));
    assert!(!BoardCoord(0).is_home(Bw::Black));

    assert!(BoardCoord(25).is_bar(Bw::White));
    assert!(!BoardCoord(25).is_bar(Bw::Black));

    assert_eq!(BoardCoord(7).perspective(Bw::White), 7);
    assert_eq!(BoardCoord(7).perspective(Bw::Black), 18);

    assert_eq!(BoardCoord(5).advance(Bw::White, Die(3)), Some(BoardCoord(2)));
    assert_eq!(BoardCoord(5).advance(Bw::White, Die(5)), None);
    assert_eq!(BoardCoord(22).advance(Bw::Black, Die(2)), Some(BoardCoord(24)));
    assert_eq!(BoardCoord(22).advance(Bw::Black, Die(3)), None);
}

#[test]
fn board_basics() {
    let board = Board::default();
    assert_eq!(board.get(BoardCoord(1)).0, -2);
    assert_eq!(board.get(BoardCoord(6)).0, 5);
    assert_eq!(board.get(BoardCoord(8)).0, 3);
    assert_eq!(board.get(BoardCoord(12)).0, -5);
    assert_eq!(board.get(BoardCoord(13)).0, 5);
    assert_eq!(board.get(BoardCoord(17)).0, -3);
    assert_eq!(board.get(BoardCoord(19)).0, -5);
    assert_eq!(board.get(BoardCoord(24)).0, 2);
    assert_eq!(board.get(BoardCoord(0)).0, 0);
    assert_eq!(board.get(BoardCoord(25)).0, 0);

    let cells = board.iter_inner_board();
    assert_eq!(cells.len(), 24);
    assert_eq!(cells[0], (BoardCoord(1), BOrW(-2)));
    assert_eq!(cells[23], (BoardCoord(24), BOrW(2)));
}

#[test]
fn board_mutation() {
    let mut b = Board::empty();
    b.set(BoardCoord(10), BOrW::white(3));
    b.inc_cell(BoardCoord(10));
    assert_eq!(b.get(BoardCoord(10)).0, 4);
    b.dec_cell(BoardCoord(10));
    assert_eq!(b.get(BoardCoord(10)).0, 3);

    b.inc_bar(Bw::Black);
    assert_eq!(b.get(BoardCoord(0)).0, -1);
    b.dec_bar(Bw::Black);
    assert_eq!(b.get(BoardCoord(0)).0, 0);
    b.inc_bar(Bw::White);
    assert_eq!(b.get(BoardCoord(25)).0, 1);
    b.dec_bar(Bw::White);
    assert_eq!(b.get(BoardCoord(25)).0, 0);
}

#[test]
fn winners() {
    let empty = Board::empty();
    assert!(empty.is_winner(Bw::White));
    assert!(empty.is_winner(Bw::Black));
    assert_eq!(empty.winner(), Some(Bw::White));

    let mut b = Board::empty();
    b.set(BoardCoord(3), BOrW::black(2));
    assert!(b.is_winner(Bw::White));
    assert!(!b.is_winner(Bw::Black));
    assert_eq!(b.winner(), Some(Bw::White));

    assert_eq!(Board::default().winner(), None);
}

#[test]
fn inverse_mirrors_and_restores() {
    let board = Board::default();
    let inv = board.inverse();
    for i in 0..26usize {
        assert_eq!(inv.0[i], -board.0[25 - i]);
    }
    assert_eq!(inv.inverse(), board);
    // The starting position is symmetric under mirroring.
    assert_eq!(inv, board);
}

#[test]
fn debug_bool_board_layout() {
    let mut vals = [false; 8];
    vals[0] = true;
    vals[6] = true;
    let s = backgammon_simd::types::board::debug_bool_board(&vals);
    assert_eq!(s, " *,  -,  -,  -,  -,  - |  *,  -");
}

#[test]
fn time_passes_through() {
    let n = time(PerfParts::OneDie, || 41 + 1);
    assert_eq!(n, 42);
}
