use starplayer::board::BoardState;
use starplayer::boardvec::BoardVec;
use starplayer::info::{BoardInfo, Pattern};
use starplayer::player::Player;
use starplayer::statistics::Stats;

#[test]
fn count_formula_small_sizes() {
    let expected = [1usize, 7, 19, 37, 61, 91, 127];
    for size in 1..=7usize {
        let info = BoardInfo::new(size);
        let cr = 2 * size - 1;
        assert_eq!(info.count, cr * cr - size * (size - 1));
        assert_eq!(info.count, expected[size - 1]);
        assert!(info.count <= 128);
        assert_eq!(info.coords.len(), info.count);
    }
}

#[test]
fn coordinate_bijection_roundtrip() {
    let info = BoardInfo::new(3);
    for i in 0..info.count {
        let (x, y) = info.coords[i];
        assert_eq!(info.index_of(x, y), Some(i));
    }
    assert_eq!(info.index_of(0, 0), None);
    assert_eq!(info.index_of(99, 0), None);
}

#[test]
fn adjacency_symmetry_concrete() {
    let info = BoardInfo::new(3);
    for i in 0..info.count {
        for j in 0..info.count {
            let i_to_j = info.adjacencies[i].contains(&j);
            let j_to_i = info.adjacencies[j].contains(&i);
            assert_eq!(i_to_j, j_to_i);
        }
    }
}

#[test]
fn topology_deterministic() {
    let a = BoardInfo::new(3);
    let b = BoardInfo::new(3);
    assert_eq!(a.count, b.count);
    assert_eq!(a.coords, b.coords);
    assert_eq!(a.reverse_coords, b.reverse_coords);
    assert_eq!(a.adjacencies, b.adjacencies);
    // Coordinates are listed in increasing x-then-y order.
    for i in 1..a.count {
        let (x0, y0) = a.coords[i - 1];
        let (x1, y1) = a.coords[i];
        assert!(x0 < x1 || (x0 == x1 && y0 < y1));
    }
    // No adjacency list repeats an entry or contains its own point.
    for i in 0..a.count {
        let row = &a.adjacencies[i];
        for k1 in 0..row.len() {
            assert_ne!(row[k1], i);
            for k2 in (k1 + 1)..row.len() {
                assert_ne!(row[k1], row[k2]);
            }
        }
    }
}

#[test]
fn boundary_detection() {
    let info = BoardInfo::new(2);
    // The centre (1, 1) is the only interior point of a side-2 board.
    let centre = info.index_of(1, 1).unwrap();
    assert!(!info.on_boundary(centre));
    for i in 0..info.count {
        if i != centre {
            assert!(info.on_boundary(i));
        }
    }
}

#[test]
fn bitset_set_get_and_relations() {
    let mut a = BoardVec::new();
    a.set(0);
    a.set(127);
    assert!(a.get(0));
    assert!(a.get(127));
    assert!(!a.get(63));
    let mut b = BoardVec::new();
    b.set(64);
    assert!(!a.intersects(&b));
    assert!(!b.intersects(&a));
    assert!(!a.contains(&b));
    assert!(!b.contains(&a));
    let mut c = BoardVec::new();
    c.set(127);
    assert!(a.intersects(&c));
    assert!(a.contains(&c));
    assert!(!c.contains(&a));
}

#[test]
fn pattern_check_applicability() {
    // Bridge pattern: ours = {2, 4}, empty = {3}, to_play = 3.
    let mut ours = BoardVec::new();
    ours.set(2);
    ours.set(4);
    let mut empty = BoardVec::new();
    empty.set(3);
    let pattern = Pattern { ours, empty, to_play: 3 };

    let mut current = BoardVec::new();
    current.set(2);
    current.set(4);
    let last = BoardVec::new();
    // Current player holds both bridge ends and the gap is free.
    assert_eq!(pattern.check(&last, &current), Some(3));

    // Current player holds only one end.
    let mut one_end = BoardVec::new();
    one_end.set(2);
    assert_eq!(pattern.check(&last, &one_end), None);

    // The gap is taken by the opponent.
    let mut last_on_gap = BoardVec::new();
    last_on_gap.set(3);
    assert_eq!(pattern.check(&last_on_gap, &current), None);

    // The gap is taken by the current player themselves.
    let mut current_on_gap = current;
    current_on_gap.set(3);
    assert_eq!(pattern.check(&last, &current_on_gap), None);
}

#[test]
fn add_move_monotonic() {
    let info = BoardInfo::new(2);
    let mut state = BoardState::new(&info);
    assert_eq!(state.moves, 0);
    assert_eq!(state.player_turn(), Player::First);
    state.add_move(0);
    assert_eq!(state.moves, 1);
    assert_eq!(state.player_turn(), Player::Second);
    assert!(state.first_player.get(0));
    state.add_move(3);
    assert_eq!(state.moves, 2);
    // Previously set bits are never cleared.
    assert!(state.first_player.get(0));
    assert!(state.second_player.get(3));
    assert!(state.any(0));
    assert!(state.any(3));
    assert!(!state.any(1));
}

#[test]
fn state_occupancies_disjoint() {
    let info = BoardInfo::new(2);
    let mut state = BoardState::new(&info);
    for i in 0..info.count {
        state.add_move(i);
        assert!(!state.first_player.intersects(&state.second_player));
    }
    assert!(state.finished(&info));
}

#[test]
fn score_exact_full_board() {
    // Side-2 board filled in enumeration order: first player takes points
    // 0, 2, 4, 6 and second player takes 1, 3, 5. The first player's three
    // two-point boundary regions score -2 each for the regions they own and
    // +2 for the opponent region, in total -2; the second player scores +2.
    let info = BoardInfo::new(2);
    let mut state = BoardState::new(&info);
    for i in 0..info.count {
        state.add_move(i);
    }
    assert_eq!(state.player_score(&info, Player::First, 0), -2);
    assert_eq!(state.player_score(&info, Player::Second, 0), 2);
    assert!(!state.is_winner(&info, Player::First, 0));
    assert!(state.is_winner(&info, Player::Second, 0));
    // Komi shifts the score: -komi for the first player, +komi for the second.
    assert_eq!(state.player_score(&info, Player::First, 3), -5);
    assert_eq!(state.player_score(&info, Player::Second, 3), 5);
}

#[test]
fn termination_exclusive_full_board() {
    // On a fully filled board the two scores are exact negatives, so at
    // most one player is winning, and exactly one when the score is nonzero.
    let info = BoardInfo::new(2);
    let mut state = BoardState::new(&info);
    for i in 0..info.count {
        state.add_move(i);
    }
    for komi in [-5isize, -1, 0, 1, 5] {
        let first = state.player_score(&info, Player::First, komi);
        let second = state.player_score(&info, Player::Second, komi);
        assert_eq!(first + second, 0);
        let w1 = state.is_winner(&info, Player::First, komi);
        let w2 = state.is_winner(&info, Player::Second, komi);
        assert!(!(w1 && w2));
        if first != 0 {
            assert!(w1 != w2);
        }
    }
}

#[test]
fn single_point_board() {
    let info = BoardInfo::new(1);
    assert_eq!(info.count, 1);
    let mut state = BoardState::new(&info);
    state.add_move(0);
    assert_eq!(state.player_score(&info, Player::First, 0), -1);
    assert_eq!(state.player_score(&info, Player::Second, 0), 1);
    // With komi -1 both scores are zero: the one full-board situation in
    // which neither player is winning.
    assert_eq!(state.player_score(&info, Player::First, -1), 0);
    assert_eq!(state.player_score(&info, Player::Second, -1), 0);
    assert!(!state.is_winner(&info, Player::First, -1));
    assert!(!state.is_winner(&info, Player::Second, -1));
}

#[test]
fn board_text_grid() {
    let info = BoardInfo::new(1);
    let mut state = BoardState::new(&info);
    assert_eq!(state.board_text(&info), "  1\n 1 .\n");
    state.add_move(0);
    assert_eq!(state.board_text(&info), "  1\n 1 X\n");

    let info2 = BoardInfo::new(2);
    let mut s2 = BoardState::new(&info2);
    s2.add_move(0);
    s2.add_move(1);
    // Points 0 and 1 are (0, 1) and (0, 2): column 1 of rows 2 and 3.
    assert_eq!(s2.board_text(&info2), "  1 2 3\n 1 _ . .\n  2 X . .\n   3 O . _\n");
}

#[test]
fn stats_record_counts() {
    let info = BoardInfo::new(2);
    let mut stats = Stats::new(&info);
    assert_eq!(stats.count, 0);
    assert_eq!(stats.first_player_wins, 0);
    stats.record_game(Player::First);
    stats.record_game(Player::Second);
    stats.record_game(Player::First);
    assert_eq!(stats.count, 3);
    assert_eq!(stats.first_player_wins, 2);
    stats.record_point(Player::First, 4, Player::First);
    stats.record_point(Player::First, 4, Player::Second);
    stats.record_point(Player::Second, 4, Player::Second);
    assert_eq!(stats.point_stats[4].p1, 1);
    assert_eq!(stats.point_stats[4].p1_wins, 1);
    assert_eq!(stats.point_stats[4].p2, 2);
    assert_eq!(stats.point_stats[4].p2_wins, 1);
    assert_eq!(stats.point_stats[0].p1, 0);
}

#[test]
fn stats_single_values() {
    let info = BoardInfo::new(2);
    let first = Stats::single(&info, Player::First, 32);
    assert_eq!(first.count, 32);
    assert_eq!(first.first_player_wins, 32);
    let second = Stats::single(&info, Player::Second, 32);
    assert_eq!(second.count, 32);
    assert_eq!(second.first_player_wins, 0);
    for i in 0..info.count {
        assert_eq!(second.point_stats[i].p1, 0);
        assert_eq!(second.point_stats[i].p2, 0);
    }
}

#[test]
fn playout_statistics_consistent() {
    let info = BoardInfo::new(2);
    let state = BoardState::new(&info);
    let mut rng = starplayer::rng::new_rng();
    let stats = state.play_random(&info, &mut rng, 0, 10);
    assert_eq!(stats.count, 10);
    assert!(stats.first_player_wins <= 10);
    // Every completed playout fills the board, so each point is occupied by
    // exactly one player in each game.
    for i in 0..info.count {
        let e = stats.point_stats[i];
        assert_eq!(e.p1 + e.p2, 10);
        assert!(e.p1_wins <= e.p1);
        assert!(e.p2_wins <= e.p2);
    }
}
