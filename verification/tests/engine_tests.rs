use starplayer::StarAI;
use starplayer::player::Player;

#[test]
fn engine_size_bounds() {
    assert!(StarAI::new(0).is_none());
    assert!(StarAI::new(8).is_none());
    assert!(StarAI::new(100).is_none());
    for size in 1..=7usize {
        let ai = StarAI::new(size).unwrap();
        assert_eq!(ai.size(), size);
    }
}

#[test]
fn engine_size_two_scenario() {
    let mut ai = StarAI::new(2).unwrap();
    assert_eq!(ai.point_count(), 7);
    // The six boundary points have between 2 and 4 neighbours; the single
    // interior point of a side-2 board touches all 6 others.
    let centre = ai.info().index_of(1, 1).unwrap();
    for i in 0..7 {
        let entries = ai.info().adjacencies[i].len();
        if i == centre {
            assert_eq!(entries, 6);
        } else {
            assert!(entries >= 2 && entries <= 4, "point {} has {} neighbours", i, entries);
        }
    }
    // Fill all 7 points by alternating moves in coordinate-enumeration order.
    let coords: Vec<(usize, usize)> = ai.info().coords.clone();
    for (x, y) in coords {
        assert!(ai.add_move(x, y));
    }
    assert!(ai.finished(0));
    let winner = ai.winner(0);
    assert!(winner == Some(Player::First) || winner == Some(Player::Second));
}

#[test]
fn add_move_rejects_invalid() {
    let mut ai = StarAI::new(2).unwrap();
    // (0, 0) is outside the hexagonal footprint of a side-2 board.
    assert!(!ai.add_move(0, 0));
    assert!(!ai.add_move(50, 50));
    assert!(ai.add_move(0, 1));
    // The same point cannot be played twice.
    assert!(!ai.add_move(0, 1));
    assert_eq!(ai.player_turn(), Player::Second);
}

#[test]
fn tree_reset_on_add_move() {
    let mut ai = StarAI::new(2).unwrap();
    ai.calculate(10, 1);
    assert!(ai.tree_size() > 1);
    assert!(ai.add_move(0, 1));
    // Committing a real move discards the whole tree: only the new root is left.
    assert_eq!(ai.tree_size(), 1);
    ai.calculate(5, 1);
    assert!(ai.tree_size() > 1);
    assert!(ai.add_move(1, 1));
    assert_eq!(ai.tree_size(), 1);
}

#[test]
fn best_move_returns_vacant() {
    let mut ai = StarAI::new(3).unwrap();
    assert!(ai.add_move(0, 2));
    ai.calculate(20, 1);
    let (x, y) = ai.best_move().unwrap();
    let idx = ai.info().index_of(x, y).unwrap();
    assert!(!ai.state().any(idx));
    assert!((x, y) != (0, 2));
}

#[test]
fn best_move_none_before_search() {
    let ai = StarAI::new(2).unwrap();
    // No calculation has run, so no child of the root has a node yet.
    assert!(ai.best_move().is_none());
}

#[test]
fn engine_plays_a_game() {
    let mut ai = StarAI::new(2).unwrap();
    let mut moves = 0;
    while !ai.finished(1) && moves < 7 {
        ai.calculate(8, 1);
        match ai.best_move() {
            Some((x, y)) => {
                assert!(ai.add_move(x, y));
                moves += 1;
            },
            None => break,
        }
    }
    // The game always ends decided: a full side-2 board has an odd score
    // with komi 1, and play may stop earlier once a winner is established.
    assert!(ai.finished(1) || moves == 7);
    let score_first = ai.score(Player::First, 1);
    let score_second = ai.score(Player::Second, 1);
    if ai.state().moves == 7 {
        assert_eq!(score_first + score_second, 0);
    }
}

#[test]
fn player_turn_alternates() {
    let mut ai = StarAI::new(2).unwrap();
    assert_eq!(ai.player_turn(), Player::First);
    assert!(ai.add_move(0, 1));
    assert_eq!(ai.player_turn(), Player::Second);
    assert!(ai.add_move(0, 2));
    assert_eq!(ai.player_turn(), Player::First);
    assert_eq!(Player::First.other(), Player::Second);
    assert_eq!(Player::Second.other(), Player::First);
}
