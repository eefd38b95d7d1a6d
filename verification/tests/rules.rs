use hexgame::hex::HexPosition;
use hexgame::{GameState, MoveResult, Player};

fn play(gs: &mut GameState, q: i32, r: i32) -> MoveResult {
    gs.make_move(&HexPosition::from_axial(q, r))
}

#[test]
fn starting_player_is_red() {
    assert_eq!(Player::starting(), Player::Red);
    let gs = GameState::new();
    assert_eq!(gs.current_player(), Player::Red);
}

#[test]
fn inverse_swaps_players() {
    assert_eq!(Player::Red.inverse(), Player::Green);
    assert_eq!(Player::Green.inverse(), Player::Red);
}

#[test]
fn first_move_accepted() {
    let mut gs = GameState::new();
    assert_eq!(gs.map().len(), 0);
    let res = play(&mut gs, 0, 0);
    assert_eq!(res, MoveResult::Good);
    assert_eq!(gs.current_player(), Player::Green);
    assert_eq!(gs.map().len(), 1);
}

#[test]
fn occupied_cell_rejected() {
    let mut gs = GameState::new();
    assert_eq!(play(&mut gs, 1, 1), MoveResult::Good);
    let res = play(&mut gs, 1, 1);
    assert_eq!(res, MoveResult::Bad);
    assert_eq!(gs.map().len(), 1);
    assert_eq!(gs.current_player(), Player::Green);
}

#[test]
fn off_board_cell_rejected() {
    let mut gs = GameState::new();
    assert_eq!(play(&mut gs, 5, 0), MoveResult::Bad);
    assert_eq!(play(&mut gs, 0, -5), MoveResult::Bad);
    assert_eq!(play(&mut gs, 3, 3), MoveResult::Bad);
    assert_eq!(gs.map().len(), 0);
    assert_eq!(gs.current_player(), Player::Red);
}

#[test]
fn run_of_three_loses_the_game() {
    let mut gs = GameState::new();
    assert_eq!(play(&mut gs, -1, 0), MoveResult::Good);
    assert_eq!(play(&mut gs, 4, 0), MoveResult::Good);
    assert_eq!(play(&mut gs, 1, 0), MoveResult::Good);
    assert_eq!(play(&mut gs, 0, 4), MoveResult::Good);
    let res = play(&mut gs, 0, 0);
    assert_eq!(res, MoveResult::End(Player::Green));
    assert_eq!(gs.is_over(), MoveResult::End(Player::Green));
    assert!(gs.is_game_over());
}

#[test]
fn run_of_four_wins_and_overrides_a_three() {
    let mut gs = GameState::new();
    assert_eq!(play(&mut gs, -2, 0), MoveResult::Good);
    assert_eq!(play(&mut gs, 4, 0), MoveResult::Good);
    assert_eq!(play(&mut gs, -1, 0), MoveResult::Good);
    assert_eq!(play(&mut gs, 0, 4), MoveResult::Good);
    assert_eq!(play(&mut gs, 1, 0), MoveResult::Good);
    assert_eq!(play(&mut gs, -4, 0), MoveResult::Good);
    assert_eq!(play(&mut gs, 1, -1), MoveResult::Good);
    assert_eq!(play(&mut gs, 0, -4), MoveResult::Good);
    assert_eq!(play(&mut gs, -1, 1), MoveResult::Good);
    assert_eq!(play(&mut gs, 4, -4), MoveResult::Good);
    // (0, 0) completes a run of 4 on one axis and a run of 3 on another:
    // the 4 decides, in the mover's favour.
    let res = play(&mut gs, 0, 0);
    assert_eq!(res, MoveResult::End(Player::Red));
    assert_eq!(gs.is_over(), MoveResult::End(Player::Red));
}

#[test]
fn board_fills_to_a_tie() {
    let mut gs = GameState::new();
    let mut placed = 0u32;
    for q in -4..=4 {
        for r in -4..=4 {
            let pos = HexPosition::from_axial(q, r);
            if gs.map().could_contain(&pos) {
                assert!(!gs.map().is_full());
                let res = gs.make_move(&pos);
                assert_ne!(res, MoveResult::Bad);
                placed += 1;
            } else {
                assert_eq!(gs.make_move(&pos), MoveResult::Bad);
            }
        }
    }
    assert_eq!(placed, 61);
    assert_eq!(gs.map().len(), 61);
    assert!(gs.map().is_full());
    assert_eq!(gs.is_over(), MoveResult::Tie);
}

#[test]
fn legal_moves_shrink_as_stones_land() {
    let mut gs = GameState::new();
    assert_eq!(gs.legal_moves().len(), 61);
    assert_eq!(play(&mut gs, 0, 0), MoveResult::Good);
    let moves = gs.legal_moves();
    assert_eq!(moves.len(), 60);
    for m in &moves {
        assert!(gs.map().could_contain(m));
        assert!(!gs.map().contains(m));
    }
}

#[test]
fn with_move_leaves_the_original_alone() {
    let gs = GameState::new();
    let child = gs.with_move(&HexPosition::from_axial(2, -1));
    assert_eq!(gs.map().len(), 0);
    assert_eq!(child.map().len(), 1);
    assert_eq!(child.current_player(), Player::Green);
    assert!(child.map().contains(&HexPosition::from_axial(2, -1)));
}

#[test]
fn fresh_board_is_merely_good() {
    let gs = GameState::new();
    assert_eq!(gs.is_over(), MoveResult::Good);
    assert!(!gs.is_game_over());
    assert!(!gs.map().is_full());
}

#[test]
fn axial_round_trip() {
    let p = HexPosition::from_axial(-3, 2);
    assert_eq!(p.as_axial(), (-3, 2));
    let n = p.neighbor(0);
    assert_eq!(n.as_axial(), (-2, 2));
    let opposite = n.neighbor(3);
    assert_eq!(opposite.as_axial(), (-3, 2));
}
