use vstd::prelude::*;

use crate::info::BoardInfo;
use crate::player::Player;

verus! {

/// Win statistics for a particular point: for each player, in how many
/// playouts they occupied the point, and in how many of those they won.
#[derive(Copy, Clone, PartialEq, Eq, Structural, Debug)]
pub struct PointStats {
    /// Number of playouts in which the first player held this point.
    pub p1: u32,
    /// Number of those playouts that the first player won.
    pub p1_wins: u32,
    /// Number of playouts in which the second player held this point.
    pub p2: u32,
    /// Number of those playouts that the second player won.
    pub p2_wins: u32,
}

impl PointStats {
    pub open spec fn zero() -> PointStats {
        PointStats { p1: 0, p1_wins: 0, p2: 0, p2_wins: 0 }
    }

    pub open spec fn wf(self, games: int) -> bool {
        &&& self.p1_wins <= self.p1
        &&& self.p2_wins <= self.p2
        &&& self.p1 + self.p2 <= games
    }

    pub fn new() -> (r: PointStats)
        ensures
            r == PointStats::zero(),
    {
        PointStats { p1: 0, p1_wins: 0, p2: 0, p2_wins: 0 }
    }
}

/// Win statistics for a batch of playouts: how many were played, how many the
/// first player won, and per-point occupancy/win counters.
#[derive(Debug)]
pub struct Stats {
    /// Number of playouts recorded.
    pub count: u32,
    /// Number of recorded playouts won by the first player.
    pub first_player_wins: u32,
    /// Win statistics grouped by the player occupying each point.
    pub point_stats: Vec<PointStats>,
}

impl Stats {
    /// Well-formed for a board of `n` points.
    pub open spec fn wf(self, n: int) -> bool {
        &&& self.first_player_wins <= self.count
        &&& self.point_stats@.len() == n
        &&& forall|k: int|
            0 <= k < n ==> (#[trigger] self.point_stats@[k]).wf(self.count as int)
    }

    /// An empty accumulator sized for the given board.
    pub fn new(info: &BoardInfo) -> (r: Stats)
        ensures
            r.count == 0,
            r.first_player_wins == 0,
            r.point_stats@.len() == info.count,
            forall|k: int| 0 <= k < info.count ==> r.point_stats@[k] == PointStats::zero(),
            r.wf(info.count as int),
    {
        let mut points: Vec<PointStats> = Vec::new();
        let n = info.count;
        let mut t: usize = 0;
        while t < n
            invariant
                t <= n,
                points@.len() == t,
                forall|k: int| 0 <= k < t ==> points@[k] == PointStats::zero(),
            decreases n - t,
        {
            points.push(PointStats::new());
            t += 1;
        }
        Stats { count: 0, first_player_wins: 0, point_stats: points }
    }

    /// Statistics as if `winner` won `count` playouts outright, with no
    /// per-point records; used for positions whose outcome is already decided.
    pub fn single(info: &BoardInfo, winner: Player, count: u32) -> (r: Stats)
        ensures
            r.count == count,
            r.first_player_wins == (if winner == Player::First { count } else { 0u32 }),
            r.point_stats@.len() == info.count,
            forall|k: int| 0 <= k < info.count ==> r.point_stats@[k] == PointStats::zero(),
            r.wf(info.count as int),
    {
        let mut r = Stats::new(info);
        r.count = count;
        r.first_player_wins = match winner {
            Player::First => count,
            Player::Second => 0,
        };
        r
    }

    /// Record one completed playout and its winner.
    pub fn record_game(&mut self, winner: Player)
        requires
            old(self).count < u32::MAX,
            old(self).first_player_wins < u32::MAX,
        ensures
            final(self).count == old(self).count + 1,
            final(self).first_player_wins == old(self).first_player_wins
                + (if winner == Player::First { 1int } else { 0int }),
            final(self).point_stats == old(self).point_stats,
    {
        self.count += 1;
        if winner == Player::First {
            self.first_player_wins += 1;
        }
    }

    /// Record which player occupied `point` in a playout won by `winner`.
    pub fn record_point(&mut self, winner: Player, point: usize, player: Player)
        requires
            point < old(self).point_stats@.len(),
            old(self).point_stats@[point as int].p1 < u32::MAX,
            old(self).point_stats@[point as int].p1_wins < u32::MAX,
            old(self).point_stats@[point as int].p2 < u32::MAX,
            old(self).point_stats@[point as int].p2_wins < u32::MAX,
        ensures
            final(self).count == old(self).count,
            final(self).first_player_wins == old(self).first_player_wins,
            final(self).point_stats@ == old(self).point_stats@.update(
                point as int,
                Stats::point_update(old(self).point_stats@[point as int], winner, player),
            ),
    {
        match player {
            Player::First => {
                let e = self.point_stats[point];
                let won: u32 = if winner == player {
                    1
                } else {
                    0
                };
                self.point_stats[point] = PointStats {
                    p1: e.p1 + 1,
                    p1_wins: e.p1_wins + won,
                    p2: e.p2,
                    p2_wins: e.p2_wins,
                };
            },
            Player::Second => {
                let e = self.point_stats[point];
                let won: u32 = if winner == player {
                    1
                } else {
                    0
                };
                self.point_stats[point] = PointStats {
                    p1: e.p1,
                    p1_wins: e.p1_wins,
                    p2: e.p2 + 1,
                    p2_wins: e.p2_wins + won,
                };
            },
        }
    }

    /// The entry for a point after recording that `player` occupied it in a
    /// playout won by `winner`.
    pub open spec fn point_update(e: PointStats, winner: Player, player: Player) -> PointStats {
        let won: int = if winner == player {
            1
        } else {
            0
        };
        if player == Player::First {
            PointStats {
                p1: (e.p1 + 1) as u32,
                p1_wins: (e.p1_wins + won) as u32,
                p2: e.p2,
                p2_wins: e.p2_wins,
            }
        } else {
            PointStats {
                p1: e.p1,
                p1_wins: e.p1_wins,
                p2: (e.p2 + 1) as u32,
                p2_wins: (e.p2_wins + won) as u32,
            }
        }
    }
}

} // verus!
