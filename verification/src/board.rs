use vstd::prelude::*;
use vstd::string::StringExecFns;

use crate::boardvec::BoardVec;
use crate::info::{BoardInfo, on_boundary_spec};
use crate::player::Player;
use crate::statistics::Stats;

verus! {

/// The mutable part of a game: both players' occupancy and the move count.
/// A value type: copied, never aliased, and usable as a hash-map key.
#[derive(Copy, Clone, PartialEq, Eq, Structural, Hash, Debug)]
pub struct BoardState {
    /// Number of moves played so far.
    pub moves: usize,
    /// Points occupied by the first player.
    pub first_player: BoardVec,
    /// Points occupied by the second player.
    pub second_player: BoardVec,
}

impl BoardState {
    /// Whether either player occupies point `i`.
    pub open spec fn any_spec(self, i: int) -> bool {
        self.first_player@.contains(i) || self.second_player@.contains(i)
    }

    /// State invariant for a board of `count` points: the two occupancy sets
    /// are disjoint, lie on the board, and together account for every move.
    pub open spec fn valid_for(self, count: int) -> bool {
        &&& self.first_player@.disjoint(self.second_player@)
        &&& self.moves == self.first_player@.len() + self.second_player@.len()
        &&& forall|p: int| self.first_player@.contains(p) ==> 0 <= p < count
        &&& forall|p: int| self.second_player@.contains(p) ==> 0 <= p < count
    }

    /// The player whose turn it is: parity of the move count.
    pub open spec fn turn_spec(self) -> Player {
        if self.moves % 2 == 0 {
            Player::First
        } else {
            Player::Second
        }
    }

    /// The state reached by the current player playing point `i`.
    pub open spec fn child(self, i: int) -> BoardState {
        if self.moves % 2 == 0 {
            BoardState {
                moves: (self.moves + 1) as usize,
                first_player: self.first_player.spec_insert(i),
                second_player: self.second_player,
            }
        } else {
            BoardState {
                moves: (self.moves + 1) as usize,
                first_player: self.first_player,
                second_player: self.second_player.spec_insert(i),
            }
        }
    }

    /// A valid state has at most `count` moves.
    pub proof fn lemma_moves_le_count(self, count: int)
        requires
            self.valid_for(count),
            0 <= count,
        ensures
            self.moves <= count,
    {
        let f = self.first_player@;
        let sc = self.second_player@;
        let r = vstd::set_lib::set_int_range(0, count);
        vstd::set_lib::lemma_int_range(0, count);
        self.first_player.lemma_view_bounds();
        self.second_player.lemma_view_bounds();
        vstd::set_lib::lemma_len_union(f, sc);
        assert(f.union(sc).subset_of(r));
        vstd::set_lib::lemma_len_subset(f.union(sc), r);
        assert(f.union(sc).len() == f.len() + sc.len()) by {
            lemma_disjoint_union_len(f, sc);
        }
    }

    /// A valid state with fewer moves than points has a vacant point.
    pub proof fn lemma_exists_vacant(self, count: int)
        requires
            self.valid_for(count),
            self.moves < count,
        ensures
            exists|p: int| 0 <= p < count && !self.any_spec(p),
    {
        let f = self.first_player@;
        let sc = self.second_player@;
        let u = f.union(sc);
        let r = vstd::set_lib::set_int_range(0, count);
        vstd::set_lib::lemma_int_range(0, count);
        self.first_player.lemma_view_bounds();
        self.second_player.lemma_view_bounds();
        lemma_disjoint_union_len(f, sc);
        if forall|p: int| 0 <= p < count ==> self.any_spec(p) {
            assert forall|p: int| r.contains(p) implies u.contains(p) by {
                assert(0 <= p < count);
                assert(self.any_spec(p));
            }
            assert(r.subset_of(u));
            vstd::set_lib::lemma_len_subset(r, u);
            assert(false);
        }
    }

    /// Playing a vacant on-board point preserves the state invariant.
    pub proof fn lemma_child_valid(self, count: int, i: int)
        requires
            self.valid_for(count),
            0 <= i < count,
            count <= 128,
            !self.any_spec(i),
        ensures
            self.child(i).valid_for(count),
            self.child(i).moves == self.moves + 1,
    {
        self.first_player.lemma_view_bounds();
        self.second_player.lemma_view_bounds();
        self.first_player.lemma_spec_insert_view(i);
        self.second_player.lemma_spec_insert_view(i);
        let c = self.child(i);
        self.lemma_moves_le_count(count);
        if self.moves % 2 == 0 {
            assert(c.first_player@ == self.first_player@.insert(i));
            vstd::set::axiom_set_insert_len(self.first_player@, i);
            assert(c.first_player@.disjoint(c.second_player@));
        } else {
            assert(c.second_player@ == self.second_player@.insert(i));
            vstd::set::axiom_set_insert_len(self.second_player@, i);
            assert(c.first_player@.disjoint(c.second_player@));
        }
    }

    /// Distinct vacant points lead to distinct children.
    pub proof fn lemma_child_injective(self, i: int, j: int)
        requires
            0 <= i < 128,
            0 <= j < 128,
            i != j,
            !self.any_spec(i),
        ensures
            self.child(i) != self.child(j),
    {
        self.first_player.lemma_spec_insert_view(i);
        self.second_player.lemma_spec_insert_view(i);
        self.first_player.lemma_spec_insert_view(j);
        self.second_player.lemma_spec_insert_view(j);
        if self.moves % 2 == 0 {
            assert(self.child(i).first_player@.contains(i));
            assert(!self.child(j).first_player@.contains(i));
            assert(self.child(i).first_player@ != self.child(j).first_player@);
        } else {
            assert(self.child(i).second_player@.contains(i));
            assert(!self.child(j).second_player@.contains(i));
            assert(self.child(i).second_player@ != self.child(j).second_player@);
        }
    }

    /// An empty board.
    pub fn new(info: &BoardInfo) -> (r: BoardState)
        requires
            info.wf(),
        ensures
            r.moves == 0,
            r.first_player@ == Set::<int>::empty(),
            r.second_player@ == Set::<int>::empty(),
            r.valid_for(info.count as int),
    {
        let r = BoardState {
            moves: 0,
            first_player: BoardVec::new(),
            second_player: BoardVec::new(),
        };
        r
    }

    /// The player whose turn it currently is.
    pub fn player_turn(&self) -> (r: Player)
        ensures
            r == self.turn_spec(),
    {
        if self.moves % 2 == 0 {
            Player::First
        } else {
            Player::Second
        }
    }

    /// Plays point `i` for the current player and increments the move count.
    /// The point must be vacant; occupancy bits are only ever added.
    pub fn add_move(&mut self, i: usize)
        requires
            i < 128,
            !old(self).any_spec(i as int),
            old(self).moves < usize::MAX,
        ensures
            *final(self) == old(self).child(i as int),
            final(self).moves == old(self).moves + 1,
            old(self).moves % 2 == 0 ==> final(self).first_player@ == old(
                self,
            ).first_player@.insert(i as int) && final(self).second_player == old(
                self,
            ).second_player,
            old(self).moves % 2 != 0 ==> final(self).second_player@ == old(
                self,
            ).second_player@.insert(i as int) && final(self).first_player == old(
                self,
            ).first_player,
            forall|p: int|
                old(self).first_player@.contains(p) ==> final(self).first_player@.contains(p),
            forall|p: int|
                old(self).second_player@.contains(p) ==> final(self).second_player@.contains(p),
    {
        if self.moves % 2 == 0 {
            self.first_player.set(i);
        } else {
            self.second_player.set(i);
        }
        self.moves += 1;
    }

    /// Whether the board has been filled.
    pub fn finished(&self, info: &BoardInfo) -> (r: bool)
        ensures
            r == (self.moves == info.count),
    {
        self.moves == info.count
    }

    /// Whether either player has played at the given position.
    pub fn any(&self, i: usize) -> (r: bool)
        requires
            i < 128,
        ensures
            r == self.any_spec(i as int),
    {
        self.first_player.get(i) || self.second_player.get(i)
    }

    /// The player's score, under the assumption that all points not occupied
    /// by them are occupied by their opponent (their minimum possible score).
    /// If this is greater than zero they have won.
    #[verifier::rlimit(80)]
    #[verifier::loop_isolation(false)]
    pub fn player_score(&self, info: &BoardInfo, player: Player, komi: isize) -> (r: isize)
        requires
            info.wf(),
            komi_ok(komi as int),
        ensures
            r as int == score_spec(*info, *self, player, komi as int),
    {
        let player_points = match player {
            Player::First => self.first_player,
            Player::Second => self.second_player,
        };
        let starting_score: isize = match player {
            Player::First => -komi,
            Player::Second => komi,
        };
        let ghost pv = player_points@;
        let mut visited = BoardVec::new();
        let mut score: isize = starting_score;
        let count = info.count;
        let mut i: usize = 0;
        proof {
            lemma_score_points_props(*info, pv, Set::empty(), 0);
        }
        while i < count
            invariant
                info.wf(),
                count == info.count,
                pv == (if player == Player::First {
                    self.first_player@
                } else {
                    self.second_player@
                }),
                i <= count,
                visited@.finite(),
                forall|q: int| visited@.contains(q) ==> 0 <= q < count,
                komi_ok(komi as int),
                starting_score as int == (if player == Player::First {
                    -(komi as int)
                } else {
                    komi as int
                }),
                score as int == starting_score as int + score_points(*info, pv, Set::empty(), 0)
                    - score_points(*info, pv, visited@, i as int),
            decreases count - i,
        {
            proof {
                lemma_score_points_props(*info, pv, Set::empty(), 0);
                lemma_score_points_props(*info, pv, visited@, i as int);
                lemma_score_points_props(*info, pv, visited@, i as int + 1);
            }
            if visited.get(i) {
                proof {
                    assert(score_points(*info, pv, visited@, i as int) == score_points(
                        *info,
                        pv,
                        visited@,
                        i as int + 1,
                    ));
                }
                i += 1;
                continue ;
            }
            let tl = player_points.get(i);
            let ghost v_pre = visited@;
            visited.set(i);
            let ghost v0 = visited@;
            let mut stack: Vec<usize> = Vec::new();
            stack.push(i);
            proof {
                assert(stack@ =~= seq![i]);
                vstd::set::axiom_set_insert_finite(v_pre, i as int);
                assert(region_inv(*info, v0, seq![i])) by {
                    assert(seq![i][0] == i);
                }
            }
            let ghost rg = region_scan(*info, pv, tl, v0, seq![i]);
            proof {
                lemma_region_scan_props(*info, pv, tl, v0, seq![i]);
                assert(rg.0 <= 7 * 128 + 1);
            }
            let mut b: usize = 0;
            while stack.len() > 0
                invariant
                    info.wf(),
                    count == info.count,
                    pv == (if player == Player::First {
                        self.first_player@
                    } else {
                        self.second_player@
                    }),
                    region_inv(*info, visited@, stack@),
                    rg == region_scan(*info, pv, tl, v0, seq![i]),
                    region_scan(*info, pv, tl, visited@, stack@) == (rg.0 - b, rg.1),
                    b <= rg.0,
                    rg.0 <= 7 * 128 + 1,
                decreases 7 * (128 - visited@.len()) + stack@.len(),
            {
                let ghost vb = visited@;
                let ghost sb = stack@;
                let ghost m0 = 7 * (128 - visited@.len()) + stack@.len();
                let p = match stack.pop() {
                    Some(p) => p,
                    None => {
                        proof {
                            assert(false);
                        }
                        0
                    },
                };
                proof {
                    assert(sb[sb.len() - 1] < info.count);
                    assert(stack@ =~= sb.drop_last());
                    lemma_scan_nbrs_props(*info, pv, tl, vb, sb.drop_last(), p as int, 0);
                }
                let ghost s_pop = stack@;
                let row_len = info.adjacencies[p].len();
                let mut k: usize = 0;
                while k < row_len
                    invariant
                        info.wf(),
                        count == info.count,
                        pv == (if player == Player::First {
                            self.first_player@
                        } else {
                            self.second_player@
                        }),
                        p < count,
                        row_len == info.adj(p as int).len(),
                        k <= row_len,
                        visited@.finite(),
                        forall|q: int| visited@.contains(q) ==> 0 <= q < count,
                        forall|kk: int|
                            0 <= kk < stack@.len() ==> (#[trigger] stack@[kk]) < count
                                && visited@.contains(stack@[kk] as int),
                        scan_nbrs(*info, pv, tl, vb, s_pop, p as int, 0) == scan_nbrs(
                            *info,
                            pv,
                            tl,
                            visited@,
                            stack@,
                            p as int,
                            k as int,
                        ),
                    decreases row_len - k,
                {
                    let ghost prev_v = visited@;
                    let ghost prev_s = stack@;
                    let q = info.adjacencies[p][k];
                    proof {
                        assert(info.adj(p as int)[k as int] < info.count);
                    }
                    if !visited.get(q) && player_points.get(q) == tl {
                        visited.set(q);
                        stack.push(q);
                        proof {
                            assert(visited@ == prev_v.insert(q as int));
                            assert(stack@ =~= prev_s.push(q));
                            assert(scan_nbrs(*info, pv, tl, prev_v, prev_s, p as int, k as int)
                                == scan_nbrs(
                                *info,
                                pv,
                                tl,
                                visited@,
                                stack@,
                                p as int,
                                k as int + 1,
                            ));
                        }
                    } else {
                        proof {
                            assert(scan_nbrs(*info, pv, tl, prev_v, prev_s, p as int, k as int)
                                == scan_nbrs(
                                *info,
                                pv,
                                tl,
                                visited@,
                                stack@,
                                p as int,
                                k as int + 1,
                            ));
                        }
                    }
                    k += 1;
                }
                proof {
                    assert(scan_nbrs(*info, pv, tl, visited@, stack@, p as int, k as int) == (
                    visited@,
                    stack@,
                    ));
                    assert((visited@, stack@) == scan_nbrs(*info, pv, tl, vb, s_pop, p as int, 0));
                    lemma_region_set_bounded(*info, visited@);
                    assert(region_inv(*info, visited@, stack@));
                    lemma_region_scan_props(*info, pv, tl, visited@, stack@);
                    assert(region_scan(*info, pv, tl, vb, sb) == ((
                    if on_boundary_spec(info.size as int, info.cx(p as int), info.cy(p as int)) {
                        1int
                    } else {
                        0int
                    }) + region_scan(*info, pv, tl, visited@, stack@).0, region_scan(
                        *info,
                        pv,
                        tl,
                        visited@,
                        stack@,
                    ).1));
                    assert(7 * (128 - visited@.len()) + stack@.len() < m0);
                }
                if info.on_boundary(p) {
                    b += 1;
                }
            }
            proof {
                assert(region_scan(*info, pv, tl, visited@, stack@) == (0int, visited@));
                assert(b == rg.0);
                assert(visited@ == rg.1);
                assert(!v_pre.contains(i as int));
                assert(v0 == v_pre.insert(i as int));
                assert(tl == pv.contains(i as int));
                assert(score_points(*info, pv, v_pre, i as int) == contribution(tl, rg.0)
                    + score_points(*info, pv, rg.1, i as int + 1));
                lemma_score_points_props(*info, pv, rg.1, i as int + 1);
            }
            let region_value: isize = if b < 2 {
                if tl {
                    -(b as isize)
                } else {
                    b as isize
                }
            } else {
                if tl {
                    (b as isize) - 4
                } else {
                    4 - (b as isize)
                }
            };
            score = score + region_value;
            i += 1;
        }
        proof {
            assert(score_points(*info, pv, visited@, count as int) == 0);
        }
        score
    }

    /// Whether the given player has won: their score is strictly positive.
    pub fn is_winner(&self, info: &BoardInfo, player: Player, komi: isize) -> (r: bool)
        requires
            info.wf(),
            komi_ok(komi as int),
        ensures
            r == (score_spec(*info, *self, player, komi as int) > 0),
    {
        self.player_score(info, player, komi) > 0
    }

    /// The printed form of the cell at `(x, y)`.
    fn cell_str(&self, info: &BoardInfo, x: usize, y: usize) -> (r: &'static str)
        requires
            info.wf(),
            x < info.coords_range,
            y < info.coords_range,
        ensures
            r@ == seq![cell_char(*info, *self, x as int, y as int)],
    {
        let r: &'static str = match info.index_of(x, y) {
            Some(idx) => {
                if self.first_player.get(idx) {
                    "X"
                } else if self.second_player.get(idx) {
                    "O"
                } else {
                    "."
                }
            },
            None => "_",
        };
        proof {
            reveal_strlit("X");
            reveal_strlit("O");
            reveal_strlit(".");
            reveal_strlit("_");
            assert(r@ =~= seq![cell_char(*info, *self, x as int, y as int)]);
        }
        r
    }

    /// Renders the board as the diagnostic grid: column labels, then one
    /// indented row per y coordinate with `X`/`O`/`.`/`_` for first player,
    /// second player, vacant and off-board cells.
    #[verifier::loop_isolation(false)]
    pub fn board_text(&self, info: &BoardInfo) -> (r: String)
        requires
            info.wf(),
        ensures
            r@ == board_text_spec(*info, *self),
    {
        let cr = info.coords_range;
        let mut out = String::new();
        out.append(" ");
        proof {
            reveal_strlit(" ");
            assert(out@ =~= seq![' ']);
        }
        let mut x: usize = 0;
        while x < cr
            invariant
                x <= cr,
                out@ + header_tail(*info, x as int) == seq![' '] + header_tail(*info, 0),
            decreases cr - x,
        {
            let ghost pre = out@;
            out.append(" ");
            out.append(digit_str((x + 1) % 10));
            proof {
                reveal_strlit(" ");
                assert(out@ =~= pre + seq![' ', digit_char((x as int + 1) % 10)]);
                assert(header_tail(*info, x as int) == seq![
                    ' ',
                    digit_char((x as int + 1) % 10),
                ] + header_tail(*info, x as int + 1));
                assert(out@ + header_tail(*info, x as int + 1) =~= pre + header_tail(
                    *info,
                    x as int,
                ));
            }
            x += 1;
        }
        out.append("
");
        proof {
            reveal_strlit("
");
            assert(out@ =~= seq![' '] + header_tail(*info, 0));
        }
        let ghost head = out@;
        let mut y: usize = 0;
        while y < cr
            invariant
                y <= cr,
                out@ + rows_from(*info, *self, y as int) == head + rows_from(*info, *self, 0),
            decreases cr - y,
        {
            let ghost row_start = out@;
            let mut k: usize = 0;
            while k < y + 1
                invariant
                    k <= y + 1,
                    out@ == row_start + pad(k as int),
                decreases y + 1 - k,
            {
                out.append(" ");
                proof {
                    reveal_strlit(" ");
                    assert(out@ =~= row_start + pad(k as int + 1));
                }
                k += 1;
            }
            out.append(digit_str((y + 1) % 10));
            proof {
                assert(out@ =~= row_start + pad(y as int + 1) + seq![
                    digit_char((y as int + 1) % 10),
                ]);
            }
            let ghost row_head = out@;
            let mut x2: usize = 0;
            while x2 < cr
                invariant
                    x2 <= cr,
                    out@ + row_tail(*info, *self, y as int, x2 as int) == row_head + row_tail(
                        *info,
                        *self,
                        y as int,
                        0,
                    ),
                decreases cr - x2,
            {
                let ghost pre2 = out@;
                out.append(" ");
                out.append(self.cell_str(info, x2, y));
                proof {
                    reveal_strlit(" ");
                    assert(out@ =~= pre2 + seq![
                        ' ',
                        cell_char(*info, *self, x2 as int, y as int),
                    ]);
                    assert(row_tail(*info, *self, y as int, x2 as int) == seq![
                        ' ',
                        cell_char(*info, *self, x2 as int, y as int),
                    ] + row_tail(*info, *self, y as int, x2 as int + 1));
                    assert(out@ + row_tail(*info, *self, y as int, x2 as int + 1) =~= pre2
                        + row_tail(*info, *self, y as int, x2 as int));
                }
                x2 += 1;
            }
            out.append("
");
            proof {
                reveal_strlit("
");
                assert(out@ =~= row_head + row_tail(*info, *self, y as int, 0));
                assert(rows_from(*info, *self, y as int) == pad(y as int + 1) + seq![
                    digit_char((y as int + 1) % 10),
                ] + row_tail(*info, *self, y as int, 0) + rows_from(*info, *self, y as int + 1));
                assert(out@ + rows_from(*info, *self, y as int + 1) =~= row_start + rows_from(
                    *info,
                    *self,
                    y as int,
                ));
            }
            y += 1;
        }
        proof {
            assert(out@ =~= board_text_spec(*info, *self));
        }
        out
    }

    /// Completes the board: shuffles the vacant points, then each turn first
    /// tries the patterns keyed by the last move played, falling back to the
    /// next still-vacant entry of the shuffled list.
    #[verifier::loop_isolation(false)]
    fn play_random_inner(&mut self, info: &BoardInfo, rng: &mut rand::rngs::SmallRng)
        requires
            info.wf(),
            old(self).valid_for(info.count as int),
        ensures
            final(self).valid_for(info.count as int),
            final(self).moves == info.count,
            forall|p: int|
                old(self).first_player@.contains(p) ==> final(self).first_player@.contains(p),
            forall|p: int|
                old(self).second_player@.contains(p) ==> final(self).second_player@.contains(p),
            final(self).first_player@.len() == old(self).first_player@.len() + even_moves_between(
                old(self).moves as int,
                info.count as int,
            ),
    {
        let count = info.count;
        let ghost n: int = count as int;
        let mut unplayed: Vec<usize> = Vec::new();
        let mut i: usize = 0;
        while i < count
            invariant
                i <= count,
                forall|kk: int| 0 <= kk < unplayed@.len() ==> (#[trigger] unplayed@[kk]) < count,
                forall|p: int|
                    0 <= p < i && !self.any_spec(p) ==> unplayed@.contains(p as usize),
            decreases count - i,
        {
            let ghost pre_un = unplayed@;
            let was_vacant = !self.any(i);
            if was_vacant {
                unplayed.push(i);
            }
            proof {
                assert forall|p: int| 0 <= p < i + 1 && !self.any_spec(p) implies unplayed@.contains(
                    p as usize,
                ) by {
                    if p < i {
                        assert(pre_un.contains(p as usize));
                        let jj = choose|jj: int| 0 <= jj < pre_un.len() && pre_un[jj] == p as usize;
                        assert(unplayed@[jj] == p as usize);
                        assert(unplayed@.contains(p as usize));
                    } else {
                        assert(unplayed@[unplayed@.len() - 1] == i);
                        assert(unplayed@.contains(i));
                    }
                }
            }
            i += 1;
        }
        let ghost before_shuffle = unplayed@;
        crate::rng::shuffle_points(&mut unplayed, rng);
        proof {
            assert forall|kk: int| 0 <= kk < unplayed@.len() implies (#[trigger] unplayed@[kk])
                < count by {
                let e = unplayed@[kk];
                assert(unplayed@.contains(e));
                assert(before_shuffle.contains(e));
                let jj = choose|jj: int| 0 <= jj < before_shuffle.len() && before_shuffle[jj] == e;
            }
        }
        let mut index: usize = 0;
        let mut last_played: Option<usize> = None;
        while self.moves < count
            invariant
                self.valid_for(n),
                index <= unplayed@.len(),
                forall|kk: int| 0 <= kk < unplayed@.len() ==> (#[trigger] unplayed@[kk]) < count,
                forall|kk: int| 0 <= kk < index ==> self.any_spec(unplayed@[kk] as int),
                forall|p: int|
                    0 <= p < n && !self.any_spec(p) ==> unplayed@.contains(p as usize),
                last_played matches Some(lp) ==> lp < count,
                forall|p: int|
                    old(self).first_player@.contains(p) ==> self.first_player@.contains(p),
                forall|p: int|
                    old(self).second_player@.contains(p) ==> self.second_player@.contains(p),
                self.moves >= old(self).moves,
                self.first_player@.len() == old(self).first_player@.len() + even_moves_between(
                    old(self).moves as int,
                    self.moves as int,
                ),
            decreases count - self.moves,
        {
            let ghost pre_loop = *self;
            let mut to_play: Option<usize> = None;
            match last_played {
                Some(last_pos) => {
                    let pats_len = info.patterns[last_pos].len();
                    let mut pi: usize = 0;
                    while pi < pats_len
                        invariant
                            pats_len == info.patterns@[last_pos as int]@.len(),
                            pi <= pats_len,
                            to_play matches Some(tp) ==> tp < count && !self.any_spec(tp as int),
                        decreases pats_len - pi,
                    {
                        let pattern = info.patterns[last_pos][pi];
                        let (last_player, current_player) = if self.moves % 2 == 0 {
                            (self.second_player, self.first_player)
                        } else {
                            (self.first_player, self.second_player)
                        };
                        match pattern.check(&last_player, &current_player) {
                            Some(pos) => {
                                proof {
                                    assert(info.patterns@[last_pos as int]@[pi as int].wf(n));
                                    assert(pattern.empty@.contains(pos as int));
                                    assert(!last_player@.contains(pos as int));
                                    assert(!current_player@.contains(pos as int));
                                }
                                to_play = Some(pos);
                                break ;
                            },
                            None => {},
                        }
                        pi += 1;
                    }
                },
                None => {},
            }
            if to_play.is_none() {
                while index < unplayed.len() && self.any(unplayed[index])
                    invariant
                        index <= unplayed@.len(),
                        forall|kk: int| 0 <= kk < index ==> self.any_spec(unplayed@[kk] as int),
                    decreases unplayed@.len() - index,
                {
                    index += 1;
                }
                if index < unplayed.len() {
                    to_play = Some(unplayed[index]);
                }
            }
            proof {
                if to_play is None {
                    self.lemma_exists_vacant(n);
                    let p = choose|p: int| 0 <= p < n && !self.any_spec(p);
                    assert(unplayed@.contains(p as usize));
                    let kk = choose|kk: int|
                        0 <= kk < unplayed@.len() && unplayed@[kk] == p as usize;
                    assert(kk < index ==> self.any_spec(p));
                    assert(false);
                }
            }
            match to_play {
                Some(pos) => {
                    proof {
                        self.lemma_moves_le_count(n);
                    }
                    self.add_move(pos);
                    proof {
                        pre_loop.lemma_child_valid(n, pos as int);
                        pre_loop.first_player.lemma_view_bounds();
                        vstd::set::axiom_set_insert_len(pre_loop.first_player@, pos as int);
                        if pre_loop.moves % 2 == 0 {
                            assert(self.first_player@.len() == pre_loop.first_player@.len() + 1);
                            assert(even_moves_between(old(self).moves as int, self.moves as int)
                                == even_moves_between(old(self).moves as int, pre_loop.moves as int)
                                + 1);
                        } else {
                            assert(self.first_player@.len() == pre_loop.first_player@.len());
                            assert(even_moves_between(old(self).moves as int, self.moves as int)
                                == even_moves_between(
                                old(self).moves as int,
                                pre_loop.moves as int,
                            ));
                        }
                        assert forall|kk: int| 0 <= kk < index implies self.any_spec(
                            unplayed@[kk] as int,
                        ) by {
                            assert(pre_loop.any_spec(unplayed@[kk] as int));
                        }
                        assert forall|p: int| 0 <= p < n && !self.any_spec(p) implies unplayed@.contains(
                            p as usize,
                        ) by {
                            assert(!pre_loop.any_spec(p));
                        }
                    }
                    last_played = Some(pos);
                },
                None => {
                    proof {
                        assert(false);
                    }
                },
            }
        }
        proof {
            self.lemma_moves_le_count(n);
        }
    }

    /// Play `iterations` independent pattern-biased random completions of
    /// this state and return the accumulated win statistics. Every completed
    /// playout fills the board, so each point is occupied by exactly one
    /// player in each recorded game, whatever the random choices were.
    #[verifier::loop_isolation(false)]
    pub fn play_random(
        self,
        info: &BoardInfo,
        rng: &mut rand::rngs::SmallRng,
        komi: isize,
        iterations: u32,
    ) -> (r: Stats)
        requires
            info.wf(),
            self.valid_for(info.count as int),
            komi_ok(komi as int),
        ensures
            r.count == iterations,
            r.first_player_wins <= iterations,
            r.wf(info.count as int),
            forall|k: int|
                0 <= k < info.count ==> (#[trigger] r.point_stats@[k]).p1 + r.point_stats@[k].p2
                    == r.count,
            forall|k: int|
                0 <= k < info.count ==> (#[trigger] r.point_stats@[k]).p1_wins
                    <= r.first_player_wins && r.point_stats@[k].p2_wins <= r.count
                    - r.first_player_wins,
    {
        let ghost n: int = info.count as int;
        let mut result = Stats::new(info);
        let mut it: u32 = 0;
        while it < iterations
            invariant
                it <= iterations,
                result.count == it,
                result.first_player_wins <= result.count,
                result.point_stats@.len() == n,
                forall|k: int|
                    0 <= k < n ==> (#[trigger] result.point_stats@[k]).wf(result.count as int),
                forall|k: int|
                    0 <= k < n ==> (#[trigger] result.point_stats@[k]).p1
                        + result.point_stats@[k].p2 == result.count,
                forall|k: int|
                    0 <= k < n ==> (#[trigger] result.point_stats@[k]).p1_wins
                        <= result.first_player_wins && result.point_stats@[k].p2_wins
                        <= result.count - result.first_player_wins,
            decreases iterations - it,
        {
            let ghost fpw0 = result.first_player_wins;
            let mut new_state = self;
            new_state.play_random_inner(info, rng);
            let winner = if new_state.is_winner(info, Player::First, komi) {
                Player::First
            } else {
                Player::Second
            };
            result.record_game(winner);
            let ghost base = result.point_stats@;
            let ghost fpw1 = result.first_player_wins;
            proof {
                assert forall|k: int| 0 <= k < n implies {
                    &&& (#[trigger] base[k]).wf(it as int)
                    &&& base[k].p1 + base[k].p2 == it
                    &&& base[k].p1_wins <= fpw0
                    &&& base[k].p2_wins <= it - fpw0
                } by {}
            }
            let mut i: usize = 0;
            while i < info.count
                invariant
                    i <= n,
                    result.count == it + 1,
                    result.first_player_wins == fpw1,
                    result.point_stats@.len() == n,
                    forall|k: int| i <= k < n ==> result.point_stats@[k] == base[k],
                    forall|k: int|
                        0 <= k < i ==> result.point_stats@[k] == Stats::point_update(
                            base[k],
                            winner,
                            (if new_state.first_player@.contains(k) {
                                Player::First
                            } else {
                                Player::Second
                            }),
                        ),
                decreases n - i,
            {
                let occupant = if new_state.first_player.get(i) {
                    Player::First
                } else {
                    Player::Second
                };
                proof {
                    assert(result.point_stats@[i as int] == base[i as int]);
                    assert(base[i as int].p1 + base[i as int].p2 == it);
                    assert(base[i as int].wf(it as int));
                }
                result.record_point(winner, i, occupant);
                i += 1;
            }
            proof {
                assert forall|k: int| 0 <= k < n implies {
                    let e = #[trigger] result.point_stats@[k];
                    &&& e.wf(it + 1)
                    &&& e.p1 + e.p2 == it + 1
                    &&& e.p1_wins <= fpw1
                    &&& e.p2_wins <= it + 1 - fpw1
                } by {
                    assert(base[k].p1 + base[k].p2 == it);
                    assert(base[k].p1_wins <= fpw0);
                    assert(base[k].p2_wins <= it - fpw0);
                }
            }
            it += 1;
        }
        result
    }
}

/// The digit character of a 1-based row or column label, printed modulo 10.
pub open spec fn digit_char(d: int) -> char {
    if d == 0 {
        '0'
    } else if d == 1 {
        '1'
    } else if d == 2 {
        '2'
    } else if d == 3 {
        '3'
    } else if d == 4 {
        '4'
    } else if d == 5 {
        '5'
    } else if d == 6 {
        '6'
    } else if d == 7 {
        '7'
    } else if d == 8 {
        '8'
    } else {
        '9'
    }
}

/// The character shown for the cell at `(x, y)`: the occupant, `.` when
/// vacant, `_` off the board.
pub open spec fn cell_char(info: BoardInfo, state: BoardState, x: int, y: int) -> char {
    match info.rv(x, y) {
        Some(idx) => if state.first_player@.contains(idx as int) {
            'X'
        } else if state.second_player@.contains(idx as int) {
            'O'
        } else {
            '.'
        },
        None => '_',
    }
}

/// The header line from column `x` on: a space and a label per column, then
/// a newline.
pub open spec fn header_tail(info: BoardInfo, x: int) -> Seq<char>
    decreases info.coords_range - x,
{
    if x < 0 || x >= info.coords_range {
        seq!['\n']
    } else {
        seq![' ', digit_char((x + 1) % 10)] + header_tail(info, x + 1)
    }
}

/// One grid row from column `x` on: a space and a cell per column, then a
/// newline.
pub open spec fn row_tail(info: BoardInfo, state: BoardState, y: int, x: int) -> Seq<char>
    decreases info.coords_range - x,
{
    if x < 0 || x >= info.coords_range {
        seq!['\n']
    } else {
        seq![' ', cell_char(info, state, x, y)] + row_tail(info, state, y, x + 1)
    }
}

/// `k` spaces of indentation.
pub open spec fn pad(k: int) -> Seq<char>
    decreases k,
{
    if k <= 0 {
        Seq::empty()
    } else {
        pad(k - 1) + seq![' ']
    }
}

/// The grid rows from row `y` on, each indented one space further.
pub open spec fn rows_from(info: BoardInfo, state: BoardState, y: int) -> Seq<char>
    decreases info.coords_range - y,
{
    if y < 0 || y >= info.coords_range {
        Seq::empty()
    } else {
        pad(y + 1) + seq![digit_char((y + 1) % 10)] + row_tail(info, state, y, 0) + rows_from(
            info,
            state,
            y + 1,
        )
    }
}

/// The full text of the board grid, as the diagnostic printer shows it.
pub open spec fn board_text_spec(info: BoardInfo, state: BoardState) -> Seq<char> {
    seq![' '] + header_tail(info, 0) + rows_from(info, state, 0)
}

/// The printed form of a label digit.
fn digit_str(d: usize) -> (r: &'static str)
    requires
        d < 10,
    ensures
        r@ == seq![digit_char(d as int)],
{
    let r: &'static str = match d {
        0 => "0",
        1 => "1",
        2 => "2",
        3 => "3",
        4 => "4",
        5 => "5",
        6 => "6",
        7 => "7",
        8 => "8",
        _ => "9",
    };
    proof {
        reveal_strlit("0");
        reveal_strlit("1");
        reveal_strlit("2");
        reveal_strlit("3");
        reveal_strlit("4");
        reveal_strlit("5");
        reveal_strlit("6");
        reveal_strlit("7");
        reveal_strlit("8");
        reveal_strlit("9");
        assert(r@ =~= seq![digit_char(d as int)]);
    }
    r
}

/// Number of even move indices in `[from, to)`: under strict turn
/// alternation, the moves that fall to the first player.
pub open spec fn even_moves_between(from: int, to: int) -> int {
    (to - from + (if from % 2 == 0 {
        1int
    } else {
        0int
    })) / 2
}

/// The komi values the scoring functions accept: anything that leaves room
/// for the bounded region contributions (at most about 130000 in magnitude)
/// inside `isize`. This is a machine limit only; the rules put no bound on
/// komi.
pub open spec fn komi_ok(komi: int) -> bool {
    isize::MIN + 1000000 <= komi <= isize::MAX - 1000000
}

/// Score contribution of one region with `b` boundary touches: regions
/// touching the boundary at least twice score `b - 4` for their owner,
/// poorly connected regions are penalised by `b`; `tl` says whether the
/// region is owned by the scored player.
pub open spec fn contribution(tl: bool, b: int) -> int {
    if b < 2 {
        if tl {
            -b
        } else {
            b
        }
    } else {
        if tl {
            b - 4
        } else {
            4 - b
        }
    }
}

/// One step of the flood fill: walk the adjacency list of point `p` from
/// entry `k`, marking and stacking each unvisited same-label neighbour.
pub open spec fn scan_nbrs(
    info: BoardInfo,
    pv: Set<int>,
    tl: bool,
    v: Set<int>,
    stack: Seq<usize>,
    p: int,
    k: int,
) -> (Set<int>, Seq<usize>)
    decreases info.adj(p).len() - k,
{
    let lst = info.adj(p);
    if k < 0 || k >= lst.len() {
        (v, stack)
    } else {
        let q = lst[k] as int;
        if v.contains(q) || pv.contains(q) != tl {
            scan_nbrs(info, pv, tl, v, stack, p, k + 1)
        } else {
            scan_nbrs(info, pv, tl, v.insert(q), stack.push(lst[k]), p, k + 1)
        }
    }
}

/// Invariant of a flood-fill state: every visited point and every stacked
/// point is on the board, and stacked points are already marked visited.
pub open spec fn region_inv(info: BoardInfo, v: Set<int>, stack: Seq<usize>) -> bool {
    &&& info.wf()
    &&& v.finite()
    &&& forall|q: int| v.contains(q) ==> 0 <= q < info.count
    &&& forall|k: int|
        0 <= k < stack.len() ==> (#[trigger] stack[k]) < info.count && v.contains(stack[k] as int)
}

/// A set of on-board points has at most 128 elements.
proof fn lemma_region_set_bounded(info: BoardInfo, v: Set<int>)
    requires
        info.wf(),
        v.finite(),
        forall|q: int| v.contains(q) ==> 0 <= q < info.count,
    ensures
        v.len() <= 128,
{
    let r = vstd::set_lib::set_int_range(0, 128);
    vstd::set_lib::lemma_int_range(0, 128);
    assert forall|q: int| v.contains(q) implies r.contains(q) by {
        assert(0 <= q < info.count);
    }
    vstd::set_lib::lemma_len_subset(v, r);
}

/// What one `scan_nbrs` pass does to the flood-fill state: visited grows by
/// exactly the points pushed, the old stack is a preserved prefix, and all
/// new points are on the board.
pub proof fn lemma_scan_nbrs_props(
    info: BoardInfo,
    pv: Set<int>,
    tl: bool,
    v: Set<int>,
    stack: Seq<usize>,
    p: int,
    k: int,
)
    requires
        info.wf(),
        0 <= p < info.count,
        v.finite(),
        forall|q: int| v.contains(q) ==> 0 <= q < info.count,
        forall|kk: int|
            0 <= kk < stack.len() ==> (#[trigger] stack[kk]) < info.count && v.contains(
                stack[kk] as int,
            ),
    ensures
        ({
            let r = scan_nbrs(info, pv, tl, v, stack, p, k);
            &&& r.0.finite()
            &&& v.subset_of(r.0)
            &&& forall|q: int| r.0.contains(q) ==> 0 <= q < info.count
            &&& forall|kk: int|
                0 <= kk < r.1.len() ==> (#[trigger] r.1[kk]) < info.count && r.0.contains(
                    r.1[kk] as int,
                )
            &&& r.1.len() >= stack.len()
            &&& forall|kk: int| 0 <= kk < stack.len() ==> r.1[kk] == stack[kk]
            &&& r.0.len() - v.len() == r.1.len() - stack.len()
        }),
    decreases info.adj(p).len() - k,
{
    let lst = info.adj(p);
    if k < 0 || k >= lst.len() {
    } else {
        let q = lst[k] as int;
        assert(lst[k] < info.count);
        if v.contains(q) || pv.contains(q) != tl {
            lemma_scan_nbrs_props(info, pv, tl, v, stack, p, k + 1);
        } else {
            vstd::set::axiom_set_insert_len(v, q);
            vstd::set::axiom_set_insert_finite(v, q);
            lemma_scan_nbrs_props(info, pv, tl, v.insert(q), stack.push(lst[k]), p, k + 1);
            let r = scan_nbrs(info, pv, tl, v.insert(q), stack.push(lst[k]), p, k + 1);
            assert forall|kk: int| 0 <= kk < stack.len() implies r.1[kk] == stack[kk] by {
                assert(r.1[kk] == stack.push(lst[k])[kk]);
            }
        }
    }
}

/// Flood fill driven by an explicit work stack: pops a point, counts it if
/// it lies on the boundary, and scans its neighbours. Returns the number of
/// boundary touches of the whole region and the final visited set.
pub open spec fn region_scan(
    info: BoardInfo,
    pv: Set<int>,
    tl: bool,
    v: Set<int>,
    stack: Seq<usize>,
) -> (int, Set<int>)
    decreases 7 * (128 - v.len()) + stack.len()
        when region_inv(info, v, stack)
        via region_scan_decreases
{
    if stack.len() == 0 {
        (0, v)
    } else {
        let p = stack.last() as int;
        let vs = scan_nbrs(info, pv, tl, v, stack.drop_last(), p, 0);
        let r = region_scan(info, pv, tl, vs.0, vs.1);
        ((if on_boundary_spec(info.size as int, info.cx(p), info.cy(p)) {
            1int
        } else {
            0int
        }) + r.0, r.1)
    }
}

#[via_fn]
proof fn region_scan_decreases(
    info: BoardInfo,
    pv: Set<int>,
    tl: bool,
    v: Set<int>,
    stack: Seq<usize>,
) {
    if region_inv(info, v, stack) && stack.len() != 0 {
        let p = stack.last() as int;
        assert(stack[stack.len() - 1] < info.count);
        lemma_scan_nbrs_props(info, pv, tl, v, stack.drop_last(), p, 0);
        let vs = scan_nbrs(info, pv, tl, v, stack.drop_last(), p, 0);
        lemma_region_set_bounded(info, vs.0);
        lemma_region_set_bounded(info, v);
        assert(region_inv(info, vs.0, vs.1));
    }
}

/// The flood fill only grows the visited set with on-board points, and its
/// boundary count is bounded by the work remaining.
pub proof fn lemma_region_scan_props(
    info: BoardInfo,
    pv: Set<int>,
    tl: bool,
    v: Set<int>,
    stack: Seq<usize>,
)
    requires
        region_inv(info, v, stack),
    ensures
        ({
            let r = region_scan(info, pv, tl, v, stack);
            &&& r.1.finite()
            &&& v.subset_of(r.1)
            &&& forall|q: int| r.1.contains(q) ==> 0 <= q < info.count
            &&& 0 <= r.0
            &&& r.0 <= 7 * (128 - v.len()) + stack.len()
        }),
    decreases 7 * (128 - v.len()) + stack.len(),
{
    lemma_region_set_bounded(info, v);
    if stack.len() == 0 {
    } else {
        let p = stack.last() as int;
        assert(stack[stack.len() - 1] < info.count);
        lemma_scan_nbrs_props(info, pv, tl, v, stack.drop_last(), p, 0);
        let vs = scan_nbrs(info, pv, tl, v, stack.drop_last(), p, 0);
        lemma_region_set_bounded(info, vs.0);
        assert(region_inv(info, vs.0, vs.1));
        lemma_region_scan_props(info, pv, tl, vs.0, vs.1);
    }
}

/// The outer scoring pass: visits every point in index order, flood-filling
/// the region of each not-yet-visited point and summing the contributions.
pub open spec fn score_points(info: BoardInfo, pv: Set<int>, v: Set<int>, i: int) -> int
    decreases info.count - i,
{
    if i < 0 || i >= info.count {
        0
    } else if v.contains(i) {
        score_points(info, pv, v, i + 1)
    } else {
        let tl = pv.contains(i);
        let r = region_scan(info, pv, tl, v.insert(i), seq![i as usize]);
        contribution(tl, r.0) + score_points(info, pv, r.1, i + 1)
    }
}

/// The scoring pass stays within on-board visited sets and its value is
/// bounded by the number of points left to visit.
pub proof fn lemma_score_points_props(info: BoardInfo, pv: Set<int>, v: Set<int>, i: int)
    requires
        info.wf(),
        v.finite(),
        forall|q: int| v.contains(q) ==> 0 <= q < info.count,
        0 <= i,
    ensures
        ({
            let rem: int = if i <= info.count {
                info.count - i
            } else {
                0
            };
            -(1000 * rem) <= score_points(info, pv, v, i) <= 1000 * rem
        }),
    decreases info.count - i,
{
    if 0 <= i < info.count {
        if v.contains(i) {
            lemma_score_points_props(info, pv, v, i + 1);
        } else {
            let tl = pv.contains(i);
            let v1 = v.insert(i);
            vstd::set::axiom_set_insert_finite(v, i as int);
            assert(region_inv(info, v1, seq![i as usize])) by {
                assert(seq![i as usize][0] == i as usize);
            }
            let r = region_scan(info, pv, tl, v1, seq![i as usize]);
            lemma_region_scan_props(info, pv, tl, v1, seq![i as usize]);
            assert(r.0 <= 7 * 128 + 1);
            lemma_score_points_props(info, pv, r.1, i + 1);
        }
    }
}

/// The player's score: the komi handicap plus the summed region
/// contributions, classifying every point by whether the scored player
/// occupies it (unoccupied points count for the opponent).
pub open spec fn score_spec(info: BoardInfo, state: BoardState, player: Player, komi: int) -> int {
    let pv = if player == Player::First {
        state.first_player@
    } else {
        state.second_player@
    };
    let start: int = if player == Player::First {
        -komi
    } else {
        komi
    };
    start + score_points(info, pv, Set::empty(), 0)
}

/// Scanning neighbours with the complement labelling and the opposite label
/// visits exactly the same points.
proof fn lemma_scan_nbrs_flip(
    info: BoardInfo,
    pv1: Set<int>,
    pv2: Set<int>,
    tl: bool,
    v: Set<int>,
    stack: Seq<usize>,
    p: int,
    k: int,
)
    requires
        info.wf(),
        0 <= p < info.count,
        forall|q: int| 0 <= q < info.count ==> (pv2.contains(q) <==> !pv1.contains(q)),
    ensures
        scan_nbrs(info, pv1, tl, v, stack, p, k) == scan_nbrs(info, pv2, !tl, v, stack, p, k),
    decreases info.adj(p).len() - k,
{
    let lst = info.adj(p);
    if k < 0 || k >= lst.len() {
    } else {
        let q = lst[k] as int;
        assert(lst[k] < info.count);
        assert((pv1.contains(q) != tl) == (pv2.contains(q) != !tl));
        if v.contains(q) || pv1.contains(q) != tl {
            lemma_scan_nbrs_flip(info, pv1, pv2, tl, v, stack, p, k + 1);
        } else {
            lemma_scan_nbrs_flip(info, pv1, pv2, tl, v.insert(q), stack.push(lst[k]), p, k + 1);
        }
    }
}

/// Flood-filling with the complement labelling and the opposite label gives
/// the same region and boundary count.
proof fn lemma_region_scan_flip(
    info: BoardInfo,
    pv1: Set<int>,
    pv2: Set<int>,
    tl: bool,
    v: Set<int>,
    stack: Seq<usize>,
)
    requires
        region_inv(info, v, stack),
        forall|q: int| 0 <= q < info.count ==> (pv2.contains(q) <==> !pv1.contains(q)),
    ensures
        region_scan(info, pv1, tl, v, stack) == region_scan(info, pv2, !tl, v, stack),
    decreases 7 * (128 - v.len()) + stack.len(),
{
    lemma_region_set_bounded(info, v);
    if stack.len() == 0 {
    } else {
        let p = stack.last() as int;
        assert(stack[stack.len() - 1] < info.count);
        lemma_scan_nbrs_props(info, pv1, tl, v, stack.drop_last(), p, 0);
        lemma_scan_nbrs_flip(info, pv1, pv2, tl, v, stack.drop_last(), p, 0);
        let vs = scan_nbrs(info, pv1, tl, v, stack.drop_last(), p, 0);
        lemma_region_set_bounded(info, vs.0);
        assert(region_inv(info, vs.0, vs.1));
        lemma_region_scan_flip(info, pv1, pv2, tl, vs.0, vs.1);
    }
}

/// Scoring with the complement labelling negates every contribution, hence
/// the whole sum.
proof fn lemma_score_points_flip(info: BoardInfo, pv1: Set<int>, pv2: Set<int>, v: Set<int>, i: int)
    requires
        info.wf(),
        v.finite(),
        forall|q: int| v.contains(q) ==> 0 <= q < info.count,
        0 <= i,
        forall|q: int| 0 <= q < info.count ==> (pv2.contains(q) <==> !pv1.contains(q)),
    ensures
        score_points(info, pv2, v, i) == -score_points(info, pv1, v, i),
    decreases info.count - i,
{
    if 0 <= i < info.count {
        if v.contains(i) {
            lemma_score_points_flip(info, pv1, pv2, v, i + 1);
        } else {
            let tl = pv1.contains(i);
            assert(pv2.contains(i) == !tl);
            let v1 = v.insert(i);
            vstd::set::axiom_set_insert_finite(v, i as int);
            assert(region_inv(info, v1, seq![i as usize])) by {
                assert(seq![i as usize][0] == i as usize);
            }
            lemma_region_scan_flip(info, pv1, pv2, tl, v1, seq![i as usize]);
            let r = region_scan(info, pv1, tl, v1, seq![i as usize]);
            lemma_region_scan_props(info, pv1, tl, v1, seq![i as usize]);
            lemma_score_points_flip(info, pv1, pv2, r.1, i + 1);
            assert(contribution(!tl, r.0) == -contribution(tl, r.0));
        }
    }
}

/// On a fully filled board the two players' scores are exact negatives of
/// each other: at most one player is winning, and exactly one whenever the
/// score is nonzero. (A zero score, e.g. a full single-point board scored
/// with komi -1, leaves neither player winning.)
pub proof fn lemma_termination_exclusive(info: BoardInfo, state: BoardState, komi: int)
    requires
        info.wf(),
        state.valid_for(info.count as int),
        state.moves == info.count,
    ensures
        score_spec(info, state, Player::First, komi) + score_spec(
            info,
            state,
            Player::Second,
            komi,
        ) == 0,
        !(score_spec(info, state, Player::First, komi) > 0 && score_spec(
            info,
            state,
            Player::Second,
            komi,
        ) > 0),
        score_spec(info, state, Player::First, komi) != 0 ==> ((score_spec(
            info,
            state,
            Player::First,
            komi,
        ) > 0) <==> !(score_spec(info, state, Player::Second, komi) > 0)),
{
    let pv1 = state.first_player@;
    let pv2 = state.second_player@;
    let n = info.count as int;
    assert forall|q: int| 0 <= q < n implies (pv2.contains(q) <==> !pv1.contains(q)) by {
        if !state.any_spec(q) {
            let f = pv1;
            let sc = pv2;
            let u = f.union(sc);
            let r = vstd::set_lib::set_int_range(0, n);
            vstd::set_lib::lemma_int_range(0, n);
            state.first_player.lemma_view_bounds();
            state.second_player.lemma_view_bounds();
            lemma_disjoint_union_len(f, sc);
            assert(u.subset_of(r.remove(q)));
            vstd::set::axiom_set_remove_len(r, q);
            vstd::set_lib::lemma_len_subset(u, r.remove(q));
            assert(false);
        }
    }
    lemma_score_points_flip(info, pv1, pv2, Set::empty(), 0);
}

/// The size of a disjoint union is the sum of the sizes.
pub proof fn lemma_disjoint_union_len(a: Set<int>, b: Set<int>)
    requires
        a.finite(),
        b.finite(),
        a.disjoint(b),
    ensures
        a.union(b).len() == a.len() + b.len(),
    decreases a.len(),
{
    if a.len() == 0 {
        assert(a.is_empty()) by {
            if exists|x: int| a.contains(x) {
                let x = choose|x: int| a.contains(x);
                assert(a.remove(x).len() + 1 == a.len());
            }
        }
        assert(a.union(b) =~= b);
    } else {
        let x = a.choose();
        assert(a.contains(x));
        assert(a.remove(x).union(b) =~= a.union(b).remove(x));
        lemma_disjoint_union_len(a.remove(x), b);
    }
}

} // verus!
