use hexgame::ai::{FeatureRanker, NullRanker, Ranker, SCALE, WIN};
use hexgame::hex::HexPosition;
use hexgame::{GameState, MoveResult, Player};

fn play(gs: &mut GameState, q: i32, r: i32) {
    let res = gs.make_move(&HexPosition::from_axial(q, r));
    assert_ne!(res, MoveResult::Bad);
}

#[test]
fn normalize_scales_to_one_unit() {
    let mut fr = FeatureRanker { window_score: 2, triad_score: 5, slot_score: 1, double_score: 1 };
    fr.normalize();
    assert_eq!(fr.window_score, 2 * SCALE / 9);
    assert_eq!(fr.triad_score, 5 * SCALE / 9);
    assert_eq!(fr.slot_score, SCALE / 9);
    assert_eq!(fr.double_score, SCALE / 9);
    let sum = fr.window_score + fr.triad_score + fr.slot_score + fr.double_score;
    assert!(SCALE - 3 <= sum && sum <= SCALE);
}

#[test]
fn normalize_even_split() {
    let mut fr = FeatureRanker { window_score: 7, triad_score: 7, slot_score: 7, double_score: 7 };
    fr.normalize();
    assert_eq!(fr.window_score, SCALE / 4);
    assert_eq!(fr.triad_score, SCALE / 4);
    let sum = fr.window_score + fr.triad_score + fr.slot_score + fr.double_score;
    assert_eq!(sum, SCALE);
}

#[test]
fn one_triad_is_counted() {
    let mut gs = GameState::new();
    play(&mut gs, 0, 0);
    play(&mut gs, 4, 0);
    play(&mut gs, 1, -1);
    play(&mut gs, 0, 4);
    play(&mut gs, 0, -1);
    assert_eq!(FeatureRanker::count_triads(&gs, Player::Red), 1);
    assert_eq!(FeatureRanker::count_triads(&gs, Player::Green), 0);
}

#[test]
fn one_window_is_counted() {
    let mut gs = GameState::new();
    play(&mut gs, 0, 0);
    play(&mut gs, 4, 0);
    play(&mut gs, -3, 0);
    assert_eq!(FeatureRanker::count_windows(&gs, Player::Red), 1);
    assert_eq!(FeatureRanker::count_windows(&gs, Player::Green), 0);
}

#[test]
fn one_slot_is_counted() {
    let mut gs = GameState::new();
    play(&mut gs, 0, 0);
    play(&mut gs, 0, 4);
    play(&mut gs, 2, 0);
    assert_eq!(FeatureRanker::count_slots(&gs, Player::Red), 1);
    assert_eq!(FeatureRanker::count_slots(&gs, Player::Green), 0);
}

#[test]
fn doubles_count_both_endpoints() {
    let mut gs = GameState::new();
    play(&mut gs, 0, 0);
    play(&mut gs, 4, 0);
    play(&mut gs, 1, 0);
    assert_eq!(FeatureRanker::count_doubles(&gs, Player::Red), 2);
    assert_eq!(FeatureRanker::count_doubles(&gs, Player::Green), 0);
}

#[test]
fn empty_board_counts_nothing() {
    let gs = GameState::new();
    for p in [Player::Red, Player::Green] {
        assert_eq!(FeatureRanker::count_triads(&gs, p), 0);
        assert_eq!(FeatureRanker::count_windows(&gs, p), 0);
        assert_eq!(FeatureRanker::count_slots(&gs, p), 0);
        assert_eq!(FeatureRanker::count_doubles(&gs, p), 0);
    }
}

#[test]
fn feature_rank_weighs_motifs() {
    let mut gs = GameState::new();
    play(&mut gs, 0, 0);
    play(&mut gs, 4, 0);
    play(&mut gs, 1, 0);
    // Red has exactly two doubles and nothing else.
    let fr = FeatureRanker { window_score: 10, triad_score: 20, slot_score: 30, double_score: 7 };
    assert_eq!(fr.rank(&gs, Player::Red), 14);
    assert_eq!(fr.rank(&gs, Player::Green), 0);
}

#[test]
fn terminal_positions_get_the_constants() {
    let mut gs = GameState::new();
    play(&mut gs, -1, 0);
    play(&mut gs, 4, 0);
    play(&mut gs, 1, 0);
    play(&mut gs, 0, 4);
    play(&mut gs, 0, 0);
    // Red completed a run of exactly 3 and so loses.
    assert_eq!(gs.is_over(), MoveResult::End(Player::Green));
    let fr = FeatureRanker { window_score: 1, triad_score: 1, slot_score: 1, double_score: 1 };
    assert_eq!(fr.rank(&gs, Player::Green), WIN);
    assert_eq!(fr.rank(&gs, Player::Red), -WIN);
    assert_eq!(NullRanker.rank(&gs, Player::Green), WIN);
    assert_eq!(NullRanker.rank(&gs, Player::Red), -WIN);
}

#[test]
fn null_ranker_is_silent_midgame() {
    let mut gs = GameState::new();
    play(&mut gs, 0, 0);
    assert_eq!(NullRanker.rank(&gs, Player::Red), 0);
    assert_eq!(NullRanker.rank(&gs, Player::Green), 0);
}

#[test]
fn rank_difference_is_antisymmetric() {
    let mut gs = GameState::new();
    play(&mut gs, 0, 0);
    play(&mut gs, 1, 0);
    play(&mut gs, -1, 1);
    let fr = FeatureRanker { window_score: 3, triad_score: 9, slot_score: 2, double_score: 5 };
    let a = fr.rank(&gs, Player::Red) - fr.rank(&gs, Player::Green);
    let b = fr.rank(&gs, Player::Green) - fr.rank(&gs, Player::Red);
    assert_eq!(a, -b);
}
