use bowling::game::BowlingGame;

#[test]
fn test_all_zero_rolls_score_zero() {
    let mut game = BowlingGame::new();
    for _ in 0..20 {
        game.roll(0);
    }
    assert_eq!(game.score(), 0);
}

#[test]
fn test_empty_game_scores_zero() {
    let game = BowlingGame::new();
    assert_eq!(game.score(), 0);
}

#[test]
fn test_strike_without_bonus_rolls() {
    let mut game = BowlingGame::new();
    game.roll(10);
    assert_eq!(game.score(), 10);
}

#[test]
fn test_score_idempotent() {
    let mut game = BowlingGame::new();
    game.roll(10);
    game.roll(3);
    game.roll(6);
    let first = game.score();
    let second = game.score();
    assert_eq!(first, second);
}

#[test]
fn test_score_monotonic_as_rolls_accumulate() {
    let rolls = [5, 5, 10, 3, 4, 0, 10, 8, 1, 2, 7, 10, 10, 9, 0, 6, 4, 10];
    let mut game = BowlingGame::new();
    let mut prev = 0;
    for &pins in rolls.iter() {
        game.roll(pins);
        if let Some(score) = game.try_score() {
            assert!(score >= prev);
            prev = score;
        }
    }
    assert_eq!(prev, 157);
}

#[test]
fn test_try_score_pending_spare() {
    let mut game = BowlingGame::new();
    game.roll(4);
    game.roll(6);
    assert_eq!(game.try_score(), None);
    game.roll(3);
    assert_eq!(game.try_score(), Some(16));
}

#[test]
fn test_try_score_pending_tenth_frame_spare() {
    let mut game = BowlingGame::new();
    for _ in 0..9 {
        game.roll(10);
    }
    game.roll(9);
    game.roll(1);
    assert_eq!(game.try_score(), None);
    game.roll(10);
    assert_eq!(game.try_score(), Some(279));
}

#[test]
fn test_try_score_perfect_game() {
    let mut game = BowlingGame::new();
    for _ in 0..12 {
        game.roll(10);
    }
    assert_eq!(game.try_score(), Some(300));
}
