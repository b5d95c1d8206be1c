use backgammon::rules::{Board as TheirBoard, Move, Player};

use backgammon_simd::{Board, Bw};

fn player_of(bw: Bw) -> Player {
    match bw {
        Bw::White => Player::Player0,
        Bw::Black => Player::Player1,
    }
}

fn bw_of(player: Player) -> Result<Bw, ()> {
    match player {
        Player::Player0 => Ok(Bw::White),
        Player::Player1 => Ok(Bw::Black),
        _ => Err(()),
    }
}

/// Our board in the neighboring crate's display shape: 24 signed fields with
/// player 0 positive, plus bar and off counts per player.
fn as_their_display(ours: &Board) -> ([i8; 24], (u8, u8), (u8, u8)) {
    let mut fields = [0i8; 24];
    let mut white_total: i32 = 0;
    let mut black_total: i32 = 0;
    for i in 0..24 {
        let v = ours.0[i + 1];
        fields[i] = v;
        if v > 0 {
            white_total += v as i32;
        } else {
            black_total += (-v) as i32;
        }
    }
    let white_bar = ours.0[25];
    let black_bar = -ours.0[0];
    white_total += white_bar as i32;
    black_total += black_bar as i32;
    assert!(white_total <= 15 && black_total <= 15);
    (
        fields,
        (white_bar as u8, black_bar as u8),
        ((15 - white_total) as u8, (15 - black_total) as u8),
    )
}

#[test]
pub fn test_default_boards() {
    let ours = Board::default();
    let their = TheirBoard::new();

    let (fields, bar, off) = as_their_display(&ours);
    let display = their.get_board();
    assert!(fields == display.board && bar == display.bar && off == display.off);
}

#[test]
fn player_identity_round_trip() {
    assert_eq!(bw_of(player_of(Bw::White)), Ok(Bw::White));
    assert_eq!(bw_of(player_of(Bw::Black)), Ok(Bw::Black));
    assert_eq!(bw_of(Player::Nobody), Err(()));
}
