use hexgame::ai::{Ai, FeatureRanker, NullRanker, RankerAi};
use hexgame::hex::HexPosition;
use hexgame::{GameState, MoveResult, Player};

fn play(gs: &mut GameState, q: i32, r: i32) {
    let res = gs.make_move(&HexPosition::from_axial(q, r));
    assert_ne!(res, MoveResult::Bad);
}

/// A position where Red, to move, can win on the spot by playing (0, 0).
fn winning_in_one() -> GameState {
    let mut gs = GameState::new();
    play(&mut gs, -2, 0);
    play(&mut gs, 4, 0);
    play(&mut gs, -1, 0);
    play(&mut gs, 0, 4);
    play(&mut gs, 1, 0);
    play(&mut gs, -4, 4);
    assert_eq!(gs.current_player(), Player::Red);
    assert_eq!(gs.is_over(), MoveResult::Good);
    gs
}

#[test]
fn depth_one_search_takes_the_win() {
    let mut ai = RankerAi::with_seed(NullRanker, 1, 7);
    let gs = winning_in_one();
    let mv = ai.choose_move(&gs, Player::Red);
    assert_eq!(mv.as_axial(), (0, 0));
}

#[test]
fn deeper_search_still_takes_the_win() {
    let mut ai = RankerAi::with_seed(NullRanker, 3, 99);
    let gs = winning_in_one();
    let mv = ai.choose_move(&gs, Player::Red);
    assert_eq!(mv.as_axial(), (0, 0));
}

#[test]
fn chosen_move_is_always_legal() {
    let mut ai = RankerAi::new(NullRanker, 1);
    let gs = GameState::new();
    let mv = ai.choose_move(&gs, Player::Red);
    assert!(gs.map().could_contain(&mv));
    assert!(!gs.map().contains(&mv));
}

#[test]
fn fixed_seed_is_reproducible() {
    let gs = GameState::new();
    let mut a = RankerAi::with_seed(NullRanker, 1, 12345);
    let mut b = RankerAi::with_seed(NullRanker, 1, 12345);
    let ma = a.choose_move(&gs, Player::Red);
    let mb = b.choose_move(&gs, Player::Red);
    assert_eq!(ma.as_axial(), mb.as_axial());
}

#[test]
fn recursion_limit_is_clamped_to_one() {
    let ai = RankerAi::with_seed(NullRanker, 0, 1);
    assert_eq!(ai.recursion_limit, 1);
    let ai2 = RankerAi::new(NullRanker, 5);
    assert_eq!(ai2.recursion_limit, 5);
}

#[test]
fn self_play_ends_without_illegal_moves() {
    let mut fr = FeatureRanker { window_score: 2, triad_score: 5, slot_score: 1, double_score: 1 };
    fr.normalize();
    let mut ai = RankerAi::with_seed(fr, 1, 2024);
    let mut gs = GameState::new();
    let mut moves = 0u32;
    loop {
        let mv = ai.choose_move(&gs, gs.current_player());
        let res = gs.make_move(&mv);
        assert_ne!(res, MoveResult::Bad);
        moves += 1;
        assert!(moves <= 61);
        match res {
            MoveResult::Good => continue,
            _ => break,
        }
    }
    assert!(gs.is_over() != MoveResult::Good);
}
