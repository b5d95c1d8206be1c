use rand::distributions::Distribution;
use rand::rngs::StdRng;
use rand::Rng;
use rand::SeedableRng;
use rand_distr::WeightedAliasIndex;

use backgammon_simd::{BasicMoveGenerator, Board, BoardCoord, Bw, Dice, Die, MoveGen, Simd1MoveGenerator};

fn key(b: &Board) -> Vec<i8> {
    b.0.to_vec()
}

fn sorted_keys(mut moves: Vec<Board>) -> Vec<Vec<i8>> {
    let mut keys: Vec<Vec<i8>> = moves.drain(..).map(|b| key(&b)).collect();
    keys.sort();
    keys
}

fn random_color(rng: &mut StdRng) -> Bw {
    if rng.gen() {
        Bw::White
    } else {
        Bw::Black
    }
}

fn random_coord(rng: &mut StdRng) -> BoardCoord {
    BoardCoord(rng.gen_range(1..=24))
}

fn put_on_board(rng: &mut StdRng, board: &mut Board, bw: Bw, remaining: &mut usize) {
    let stack_size = WeightedAliasIndex::new(vec![0.1 + 0.15, 0.45, 0.25, 0.1, 0.05]).unwrap();
    let (pos, cur) = loop {
        let pos = random_coord(rng);
        if board.get(pos).is_empty() {
            break (pos, 0);
        }
        if board.get(pos).matches(bw) {
            break (pos, board.get(pos).to_count());
        }
    };
    let cnt = (*remaining).min(stack_size.sample(rng) + 1);
    board.set(pos, (bw, cur + cnt as u8).into());
    *remaining -= cnt;
}

fn random_board(rng: &mut StdRng) -> Board {
    let which_has_eaten = WeightedAliasIndex::new(vec![0.7, 0.14, 0.14, 0.02]).unwrap();
    let eaten_probs = WeightedAliasIndex::new(vec![0.15, 0.04, 0.01]).unwrap();
    let game_stage = WeightedAliasIndex::new(vec![0.8, 0.2]).unwrap();

    let which_eaten = which_has_eaten.sample(rng);
    let (white_eaten, black_eaten) = match which_eaten {
        0 => (0, 0),
        1 => (eaten_probs.sample(rng), 0),
        2 => (0, eaten_probs.sample(rng)),
        3 => (eaten_probs.sample(rng), eaten_probs.sample(rng)),
        _ => unreachable!(),
    };

    let (white_removed, black_removed) = match game_stage.sample(rng) {
        0 => (0, 0),
        1 => (rng.gen_range(0..14), rng.gen_range(0..14)),
        _ => unreachable!(),
    };

    let mut white_remaining: usize = 15 - white_eaten - white_removed;
    let mut black_remaining: usize = 15 - black_eaten - black_removed;

    let mut board = Board::empty();
    while white_remaining > 0 && black_remaining > 0 {
        if white_remaining > 0 {
            put_on_board(rng, &mut board, Bw::White, &mut white_remaining);
        }
        if black_remaining > 0 {
            put_on_board(rng, &mut board, Bw::Black, &mut black_remaining);
        }
    }

    board.set(BoardCoord::bar(Bw::White), (Bw::White, white_eaten as u8).into());
    board.set(BoardCoord::bar(Bw::Black), (Bw::Black, black_eaten as u8).into());
    board
}

fn random_die(rng: &mut StdRng) -> Die {
    Die(rng.gen_range(1..=6))
}

#[test]
pub fn test_same_random_moves() {
    let rng = &mut StdRng::seed_from_u64(20_260_213);

    for iter in 0..1000 {
        let board = random_board(rng);
        let die = random_die(rng);
        let player = random_color(rng);

        let basic_moves = BasicMoveGenerator::gen_moves_one_die(&board, die, player);
        let simd_moves = Simd1MoveGenerator::gen_moves_one_die(&board, die, player);

        assert_eq!(sorted_keys(basic_moves), sorted_keys(simd_moves), "iter: {}", iter);
    }
}

#[test]
fn unique_moves_equal_between_generators() {
    let rng = &mut StdRng::seed_from_u64(7);
    for _ in 0..300 {
        let board = random_board(rng);
        let dice = Dice(random_die(rng), random_die(rng));
        let player = random_color(rng);

        let basic = BasicMoveGenerator::gen_unique_moves(&board, dice, player);
        let simd = Simd1MoveGenerator::gen_unique_moves(&board, dice, player);
        assert_eq!(sorted_keys(basic), sorted_keys(simd));
    }
}

#[test]
fn starting_board_three_one_moves() {
    let board = Board::default();
    let moves = Simd1MoveGenerator::gen_unique_moves(&board, Dice(Die(3), Die(1)), Bw::White);
    assert!(!moves.is_empty());

    // 24 -> 21 -> 20: the two checkers on 24 become one, and one lands on 20.
    let mut expected = Board::default();
    expected.dec_cell(BoardCoord(24));
    expected.set(BoardCoord(20), (Bw::White, 1).into());
    assert!(moves.iter().any(|b| *b == expected));

    // 13 -> 10 -> 9 with a single checker.
    let mut expected2 = Board::default();
    expected2.dec_cell(BoardCoord(13));
    expected2.set(BoardCoord(9), (Bw::White, 1).into());
    assert!(moves.iter().any(|b| *b == expected2));
}

#[test]
fn blocked_bar_entry_yields_no_moves() {
    // White has one checker on the bar and the entry point for a die of 3
    // (point 22) is held by two black checkers.
    let mut board = Board::empty();
    board.set(BoardCoord::bar(Bw::White), (Bw::White, 1).into());
    board.set(BoardCoord(22), (Bw::Black, 2).into());
    board.set(BoardCoord(5), (Bw::White, 14).into());
    board.set(BoardCoord(10), (Bw::Black, 13).into());

    let basic = BasicMoveGenerator::gen_moves_one_die(&board, Die(3), Bw::White);
    let simd = Simd1MoveGenerator::gen_moves_one_die(&board, Die(3), Bw::White);
    assert!(basic.is_empty());
    assert!(simd.is_empty());
}

fn color_total(b: &Board, color: Bw) -> i32 {
    let mut total = 0i32;
    for v in b.0.iter() {
        let owned = match color {
            Bw::White => *v > 0,
            Bw::Black => *v < 0,
        };
        if owned {
            total += (*v as i32).abs();
        }
    }
    total
}

#[test]
fn generated_boards_conserve_checkers() {
    // From the full starting board no bear-off is possible, so every
    // generated board keeps both colors at 15 checkers.
    let board = Board::default();
    for first in 1..=6u8 {
        for second in 1..=6u8 {
            for player in [Bw::White, Bw::Black] {
                let moves =
                    BasicMoveGenerator::gen_unique_moves(&board, Dice(Die(first), Die(second)), player);
                for b in moves.iter() {
                    assert_eq!(color_total(b, Bw::White), 15);
                    assert_eq!(color_total(b, Bw::Black), 15);
                }
            }
        }
    }
}

#[test]
fn bearoff_removes_exactly_one_checker() {
    // All white checkers in the home quadrant: a die of 6 bears off from the
    // highest occupied point.
    let mut board = Board::empty();
    board.set(BoardCoord(6), (Bw::White, 5).into());
    board.set(BoardCoord(5), (Bw::White, 5).into());
    board.set(BoardCoord(4), (Bw::White, 5).into());
    board.set(BoardCoord(19), (Bw::Black, 15).into());

    let moves = BasicMoveGenerator::gen_moves_one_die(&board, Die(6), Bw::White);
    assert!(moves.iter().any(|b| color_total(b, Bw::White) == 14));
    for b in moves.iter() {
        assert_eq!(color_total(b, Bw::Black), 15);
    }
}

#[test]
fn forced_bar_entry_single_move() {
    // White has a checker on the bar; the entry point for die 2 is open, so
    // the only move is that entry.
    let mut board = Board::empty();
    board.set(BoardCoord::bar(Bw::White), (Bw::White, 1).into());
    board.set(BoardCoord(5), (Bw::White, 14).into());
    board.set(BoardCoord(10), (Bw::Black, 15).into());

    for gen_moves in [
        BasicMoveGenerator::gen_moves_one_die as fn(&Board, Die, Bw) -> Vec<Board>,
        Simd1MoveGenerator::gen_moves_one_die as fn(&Board, Die, Bw) -> Vec<Board>,
    ] {
        let moves = gen_moves(&board, Die(2), Bw::White);
        assert_eq!(moves.len(), 1);
        let b = &moves[0];
        assert!(b.get(BoardCoord::bar(Bw::White)).is_empty());
        assert_eq!(b.get(BoardCoord(23)).0, 1);
    }
}

#[test]
fn bar_entry_captures_lone_checker() {
    let mut board = Board::empty();
    board.set(BoardCoord::bar(Bw::White), (Bw::White, 1).into());
    board.set(BoardCoord(21), (Bw::Black, 1).into());
    board.set(BoardCoord(5), (Bw::White, 14).into());
    board.set(BoardCoord(10), (Bw::Black, 14).into());

    let moves = Simd1MoveGenerator::gen_moves_one_die(&board, Die(4), Bw::White);
    assert_eq!(moves.len(), 1);
    let b = &moves[0];
    assert_eq!(b.get(BoardCoord(21)).0, 1);
    assert_eq!(b.get(BoardCoord::bar(Bw::Black)).0, -1);
}

#[test]
fn doubles_use_at_most_four_submoves() {
    // A lone white checker on point 24 with double 1: four rounds move it to
    // 23, 22, 21, 20 — the frontier after four rounds is exactly {20}.
    let mut board = Board::empty();
    board.set(BoardCoord(24), (Bw::White, 1).into());
    board.set(BoardCoord(1), (Bw::Black, 15).into());

    let moves = BasicMoveGenerator::gen_unique_moves(&board, Dice(Die(1), Die(1)), Bw::White);
    assert_eq!(moves.len(), 1);
    assert_eq!(moves[0].get(BoardCoord(20)).0, 1);
    assert!(moves[0].get(BoardCoord(24)).is_empty());
}

#[test]
fn doubles_with_no_move_return_input_frontier() {
    // White's only checker is blocked wherever the double would take it, so
    // no round yields anything and the input board itself comes back.
    let mut board = Board::empty();
    board.set(BoardCoord(24), (Bw::White, 1).into());
    board.set(BoardCoord(23), (Bw::Black, 7).into());
    board.set(BoardCoord(10), (Bw::Black, 8).into());

    let moves = Simd1MoveGenerator::gen_unique_moves(&board, Dice(Die(1), Die(1)), Bw::White);
    assert_eq!(moves.len(), 1);
    assert_eq!(moves[0], board);
}

#[test]
fn non_double_considers_both_orders() {
    // Black holds point 23, so the lone white checker on 24 cannot play the
    // 1 first; only the ordering 3-then-1 reaches point 20 through 21.
    let mut board = Board::empty();
    board.set(BoardCoord(24), (Bw::White, 1).into());
    board.set(BoardCoord(23), (Bw::Black, 2).into());
    board.set(BoardCoord(5), (Bw::White, 14).into());
    board.set(BoardCoord(10), (Bw::Black, 13).into());

    let moves = BasicMoveGenerator::gen_unique_moves(&board, Dice(Die(1), Die(3)), Bw::White);
    // 24 -> 21 (die 3) -> 20 (die 1) works; 24 -> 23 (die 1) is blocked.
    // Moves of the 14-stack on point 5 also contribute.
    assert!(!moves.is_empty());
    let mut via_21 = Board::empty();
    via_21.set(BoardCoord(20), (Bw::White, 1).into());
    via_21.set(BoardCoord(5), (Bw::White, 14).into());
    via_21.set(BoardCoord(23), (Bw::Black, 2).into());
    via_21.set(BoardCoord(10), (Bw::Black, 13).into());
    assert!(moves.iter().any(|b| *b == via_21));
}

#[test]
fn unique_one_die_deduplicates_nothing_but_matches() {
    let rng = &mut StdRng::seed_from_u64(99);
    for _ in 0..200 {
        let board = random_board(rng);
        let die = random_die(rng);
        let player = random_color(rng);
        let raw = BasicMoveGenerator::gen_moves_one_die(&board, die, player);
        let unique = BasicMoveGenerator::gen_unique_moves_one_die(&board, die, player);
        assert_eq!(sorted_keys(raw), sorted_keys(unique));
    }
}
