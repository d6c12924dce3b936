use bowling::game::BowlingGame;
use bowling::game::Frame;

#[test]
fn test_roll_single_pin() {
    let mut game = BowlingGame::new();
    game.roll(1);
    assert_eq!(game.score(), 1);
}

#[test]
fn test_two_rolls_frame_total() {
    let mut game = BowlingGame::new();
    game.roll(4);
    game.roll(5);
    let expected = vec![Frame { rolls: vec![4, 5] }];
    assert_eq!(game.frames, expected);
    assert_eq!(game.score(), 9);
}

#[test]
fn test_two_frames_total() {
    let mut game = BowlingGame::new();
    game.roll(4);
    game.roll(5);
    game.roll(3);
    game.roll(6);
    let expected = vec![Frame { rolls: vec![4, 5] }, Frame { rolls: vec![3, 6] }];
    assert_eq!(game.frames, expected);
    assert_eq!(game.score(), 18);
}

#[test]
fn test_spare() {
    let mut game = BowlingGame::new();
    game.roll(4);
    game.roll(6);
    game.roll(3);
    game.roll(6);
    let expected = vec![Frame { rolls: vec![4, 6] }, Frame { rolls: vec![3, 6] }];
    assert_eq!(game.frames, expected);
    assert_eq!(game.score(), 22);
}

#[test]
fn test_strike() {
    let mut game = BowlingGame::new();
    game.roll(10);
    game.roll(3);
    game.roll(6);
    let expected = vec![Frame { rolls: vec![10] }, Frame { rolls: vec![3, 6] }];
    assert_eq!(game.frames, expected);
    assert_eq!(game.score(), 28);
}

#[test]
fn test_perfect_game() {
    let mut game = BowlingGame::new();
    for _ in 0..12 {
        game.roll(10);
    }
    let mut expected = Vec::new();
    for _ in 0..9 {
        expected.push(Frame { rolls: vec![10] });
    }
    expected.push(Frame {
        rolls: vec![10, 10, 10],
    });
    assert_eq!(game.frames, expected);
    assert_eq!(game.score(), 300);
}

#[test]
fn test_almost_perfect_game() {
    let mut game = BowlingGame::new();
    for _ in 0..10 {
        game.roll(10);
    }
    game.roll(9);
    game.roll(1);

    let mut expected = Vec::new();
    for _ in 0..9 {
        expected.push(Frame { rolls: vec![10] });
    }
    expected.push(Frame {
        rolls: vec![10, 9, 1],
    });

    assert_eq!(game.frames, expected);
    assert_eq!(game.score(), 289);
}

#[test]
fn test_game_279() {
    let mut game = BowlingGame::new();
    for _ in 0..9 {
        game.roll(10);
    }
    game.roll(9);
    game.roll(1);
    game.roll(10);

    let mut expected = Vec::new();
    for _ in 0..9 {
        expected.push(Frame { rolls: vec![10] });
    }
    expected.push(Frame {
        rolls: vec![9, 1, 10],
    });

    assert_eq!(game.frames, expected);
    assert_eq!(game.score(), 279);
}
