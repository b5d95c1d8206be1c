use rand::rngs::StdRng;
use rand::SeedableRng;

use backgammon_simd::decision::{MoveDecision, RandomMoveDecision};
use backgammon_simd::{Board, Bw, Dice, Game, GameState, MoveGen, Simd1MoveGenerator};

fn roll_non_double(rng: &mut StdRng) -> Dice {
    let mut dice = Dice::roll(rng);
    while dice.0 == dice.1 {
        dice = Dice::roll(rng);
    }
    dice
}

fn new_game(rng: &mut StdRng) -> Game {
    Game::new(roll_non_double(rng))
}

/// One turn of random play: roll, generate, choose, install.
fn step<D: MoveDecision>(game: &mut Game, rng: &mut StdRng, decision: &mut D) {
    let GameState::Dice(player, _) = game.state else {
        return;
    };
    let moves = game.next_moves::<Simd1MoveGenerator>();
    let dice = Dice::roll(rng);
    if moves.is_empty() {
        game.skip_move_by_necessity(dice);
    } else {
        let mov = decision.choose_move(player, moves);
        game.make_move_unchecked(dice, mov);
    }
}

#[test]
fn print_game() {
    let rng = &mut StdRng::seed_from_u64(1);
    let mut game = new_game(rng);

    println!("{:?}", game);

    let mut decision = RandomMoveDecision(StdRng::seed_from_u64(2));
    for _ in 0..100 {
        if game.is_finished() {
            break;
        }
        step(&mut game, rng, &mut decision);
        println!("{:?}\n", game);
    }
}

#[test]
fn count_game() {
    let rng = &mut StdRng::seed_from_u64(3);
    let mut game = new_game(rng);
    let mut decision = RandomMoveDecision(StdRng::seed_from_u64(4));

    let mut turns = 0u64;
    while !game.is_finished() {
        step(&mut game, rng, &mut decision);
        turns += 1;
    }
    println!("{}", turns);
}

#[test]
fn random_games_stats() {
    let rng = &mut StdRng::seed_from_u64(5);
    let mut blacks = 0;
    let mut whites = 0;

    for seed in 0..100u64 {
        let mut game = new_game(rng);
        let mut decision = RandomMoveDecision(StdRng::seed_from_u64(seed));

        let mut turns = 0u64;
        while !game.is_finished() {
            step(&mut game, rng, &mut decision);
            turns += 1;
        }
        println!("{}", turns);

        match game.state {
            GameState::Dice(_, _) => {}
            GameState::Finished(Bw::Black) => {
                blacks += 1;
            }
            GameState::Finished(Bw::White) => {
                whites += 1;
            }
        }
    }

    println!("{} / {}", whites, blacks);
}

fn sorted_keys(moves: &[Board]) -> Vec<Vec<i8>> {
    let mut keys: Vec<Vec<i8>> = moves.iter().map(|b| b.0.to_vec()).collect();
    keys.sort();
    keys
}

#[test]
pub fn test_generators_same() {
    let rng = &mut StdRng::seed_from_u64(6);
    for seed in 0..100u64 {
        let mut game = new_game(rng);
        let mut decision = RandomMoveDecision(StdRng::seed_from_u64(seed + 1000));

        let mut turns = 0u64;
        while !game.is_finished() && turns < 500 {
            let GameState::Dice(player, dice) = game.state else {
                break;
            };

            let normal = Simd1MoveGenerator::gen_unique_moves(&game.board, dice, player);
            let reversed: Vec<Board> = Simd1MoveGenerator::gen_unique_moves(
                &game.board.inverse(),
                dice,
                player.opponent(),
            )
            .into_iter()
            .map(|b| b.inverse())
            .collect();

            if normal.len() <= 2 {
                if sorted_keys(&normal) != sorted_keys(&reversed) {
                    println!("{:?}", game);
                    println!("{} {}", normal.len(), reversed.len());

                    println!("MOVES BY NORMAL:");
                    for brd in &normal {
                        println!("{brd:?}");
                    }

                    println!("MOVES BY REVERSED:");
                    for brd in &reversed {
                        println!("{brd:?}");
                    }

                    panic!();
                }
            }

            step(&mut game, rng, &mut decision);
            turns += 1;
        }
    }
}

#[test]
fn game_transitions() {
    let dice = Dice(backgammon_simd::Die(5), backgammon_simd::Die(2));
    let mut game = Game::new(dice);
    assert!(matches!(game.state, GameState::Dice(Bw::White, _)));
    assert!(!game.is_finished());

    // A forced pass leaves the board alone and flips the player.
    let board_before = game.board;
    game.skip_move_by_necessity(Dice(backgammon_simd::Die(6), backgammon_simd::Die(6)));
    assert_eq!(game.board, board_before);
    assert!(matches!(game.state, GameState::Dice(Bw::Black, _)));

    // Installing a board with a white winner finishes the game.
    let mut empty_white = Board::empty();
    empty_white.set(backgammon_simd::BoardCoord(19), (Bw::Black, 15).into());
    game.make_move_unchecked(Dice(backgammon_simd::Die(1), backgammon_simd::Die(2)), empty_white);
    assert!(game.is_finished());
    assert!(matches!(game.state, GameState::Finished(Bw::White)));
}

#[test]
fn chosen_move_is_offered() {
    let game = Game::new(Dice(backgammon_simd::Die(3), backgammon_simd::Die(1)));
    let moves = game.next_moves::<Simd1MoveGenerator>();
    assert!(!moves.is_empty());
    let mut decision = RandomMoveDecision(StdRng::seed_from_u64(11));
    for _ in 0..50 {
        let picked = decision.choose_move(Bw::White, moves.clone());
        assert!(moves.iter().any(|b| *b == picked));
    }
}
