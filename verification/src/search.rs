use vstd::prelude::*;

use crate::board::BoardState;
use crate::board::komi_ok;
use crate::board::score_spec;
use crate::info::BoardInfo;
use crate::info::count_spec;
use crate::info::lemma_count_formula;
use crate::player::Player;
use crate::statistics::PointStats;
use crate::statistics::Stats;
use crate::tree::{SearchTree, tree_entries};

verus! {

/// Cap on node statistics counters: counter additions saturate here, far
/// beyond any practical visit count, so winrates can be compared exactly in
/// 128-bit integer arithmetic.
pub const COUNTER_CAP: u32 = 1000000000;

/// Number of playouts run (or credited) per simulated batch.
pub const INNER_ITERATIONS: u32 = 32;

/// Denominator parameter of the AMAF blending weight.
pub const AMAF_PARAMETER: u32 = 1000;

/// Per-state search statistics: the move leading here (none for the root),
/// whether the children have been materialised, direct tree-policy counters
/// (`self_visits`/`self_wins`), and AMAF counters (`visits`/`wins`) credited
/// from any playout below any descendant where this move occurred.
#[derive(Copy, Clone, Debug)]
pub struct Node {
    /// The move leading into this state; none for the root.
    pub pos: Option<usize>,
    /// Whether all legal children of this state are in the tree.
    pub children_created: bool,
    /// Direct visits through this node.
    pub self_visits: u32,
    /// Wins recorded on direct visits.
    pub self_wins: u32,
    /// AMAF visits credited to the move leading here.
    pub visits: u32,
    /// AMAF wins credited to the move leading here.
    pub wins: u32,
}

impl Node {
    /// Counters are consistent and capped.
    pub open spec fn wf(self) -> bool {
        &&& self.self_wins <= self.self_visits <= COUNTER_CAP
        &&& self.wins <= self.visits <= COUNTER_CAP
    }

    /// A fresh root node.
    pub open spec fn root_spec() -> Node {
        Node {
            pos: None,
            children_created: false,
            self_visits: 0,
            self_wins: 0,
            visits: 0,
            wins: 0,
        }
    }

    /// A fresh node for the child reached by playing `pos`.
    pub open spec fn child_spec(pos: usize) -> Node {
        Node {
            pos: Some(pos),
            children_created: false,
            self_visits: 0,
            self_wins: 0,
            visits: 0,
            wins: 0,
        }
    }

    pub fn new() -> (r: Node)
        ensures
            r == Node::root_spec(),
    {
        Node {
            pos: None,
            children_created: false,
            self_visits: 0,
            self_wins: 0,
            visits: 0,
            wins: 0,
        }
    }

    pub fn with_pos(pos: usize) -> (r: Node)
        ensures
            r == Node::child_spec(pos),
    {
        Node {
            pos: Some(pos),
            children_created: false,
            self_visits: 0,
            self_wins: 0,
            visits: 0,
            wins: 0,
        }
    }
}

/// Exact numerator of a node's winrate. An unvisited node rates as 2,
/// above every true winrate, so unvisited children are explored first. For
/// a visited node the blended rate
/// `alpha * self_rate + (1 - alpha) * amaf`, with
/// `alpha = self_visits / (2 * (AMAF_PARAMETER + self_visits))` rising
/// toward its limit of one half, reduces to the fraction
/// `(self_wins * visits + (2 * AMAF_PARAMETER + self_visits) * wins) /
///  (2 * (AMAF_PARAMETER + self_visits) * visits)`.
pub open spec fn wr_num(n: Node) -> int {
    if n.visits == 0 {
        2
    } else {
        n.self_wins * n.visits + (2 * AMAF_PARAMETER + n.self_visits) * n.wins
    }
}

/// Exact denominator of a node's winrate; see `wr_num`.
pub open spec fn wr_den(n: Node) -> int {
    if n.visits == 0 {
        1
    } else {
        2 * (AMAF_PARAMETER + n.self_visits) * n.visits
    }
}

/// Whether node `a`'s winrate strictly exceeds node `b`'s, as an exact
/// comparison of the two rationals.
pub open spec fn wr_gt(a: Node, b: Node) -> bool {
    wr_num(a) * wr_den(b) > wr_num(b) * wr_den(a)
}

/// The winrate numerator is nonnegative and the denominator positive.
proof fn lemma_wr_bounds(nd: Node)
    ensures
        wr_num(nd) >= 0,
        wr_den(nd) >= 1,
{
    if nd.visits != 0 {
        assert(nd.self_wins * nd.visits + (2 * AMAF_PARAMETER + nd.self_visits) * nd.wins >= 0 && 2
            * (AMAF_PARAMETER + nd.self_visits) * nd.visits >= 1) by (nonlinear_arith)
            requires
                nd.visits >= 1,
                nd.self_wins >= 0,
                nd.self_visits >= 0,
                nd.wins >= 0,
        ;
    }
}

/// Winrate comparison chains: strictly above `b` and `c` not above `b`
/// makes `a` strictly above `c`.
proof fn lemma_wr_gt_trans(a: Node, b: Node, c: Node)
    requires
        wr_gt(a, b),
        !wr_gt(c, b),
    ensures
        wr_gt(a, c),
{
    lemma_wr_bounds(a);
    lemma_wr_bounds(b);
    lemma_wr_bounds(c);
    assert(wr_num(a) * wr_den(c) > wr_num(c) * wr_den(a)) by (nonlinear_arith)
        requires
            wr_num(a) * wr_den(b) > wr_num(b) * wr_den(a),
            wr_num(c) * wr_den(b) <= wr_num(b) * wr_den(c),
            wr_den(a) >= 1,
            wr_den(b) >= 1,
            wr_den(c) >= 1,
            wr_num(a) >= 0,
            wr_num(b) >= 0,
            wr_num(c) >= 0,
    ;
}

/// The node a child of `state` carries at selection time, as a function of
/// the tree before the children were materialised: its stored node when it
/// was already present, a fresh node otherwise.
pub open spec fn sel_node(m: Map<BoardState, Node>, state: BoardState, i: int) -> Node {
    if m.dom().contains(state.child(i)) {
        m[state.child(i)]
    } else {
        Node::child_spec(i as usize)
    }
}

/// Numerator and denominator of a node's winrate, exactly.
fn winrate_parts(n: &Node) -> (r: (u128, u128))
    requires
        n.wf(),
    ensures
        r.0 as int == wr_num(*n),
        r.1 as int == wr_den(*n),
        r.0 <= 0x3000000000000000u128,
        r.1 <= 0x3000000000000000u128,
{
    if n.visits == 0 {
        (2, 1)
    } else {
        let sw = n.self_wins as u128;
        let sv = n.self_visits as u128;
        let v = n.visits as u128;
        let w = n.wins as u128;
        proof {
            assert(sw * v <= 1000000000000000000 && (2000 + sv) * w <= 2000000000000000000 && 2 * (
            1000 + sv) * v <= 3000000000000000000) by (nonlinear_arith)
                requires
                    sw <= 1000000000,
                    sv <= 1000000000,
                    v <= 1000000000,
                    w <= 1000000000,
            ;
        }
        (sw * v + (2000 + sv) * w, 2 * (1000 + sv) * v)
    }
}

/// Whether node `a`'s winrate strictly exceeds node `b`'s.
fn winrate_gt(a: &Node, b: &Node) -> (r: bool)
    requires
        a.wf(),
        b.wf(),
    ensures
        r == wr_gt(*a, *b),
{
    let (na, da) = winrate_parts(a);
    let (nb, db) = winrate_parts(b);
    proof {
        assert(na * db <= 0x3000000000000000 * 0x3000000000000000 && nb * da <= 0x3000000000000000
            * 0x3000000000000000) by (nonlinear_arith)
            requires
                na <= 0x3000000000000000u128,
                db <= 0x3000000000000000u128,
                nb <= 0x3000000000000000u128,
                da <= 0x3000000000000000u128,
        ;
    }
    na * db > nb * da
}

/// Addition on statistics counters, saturating at `COUNTER_CAP`.
pub open spec fn cap_add_spec(a: int, b: int) -> int {
    if a + b > COUNTER_CAP {
        COUNTER_CAP as int
    } else {
        a + b
    }
}

fn cap_add(a: u32, b: u32) -> (r: u32)
    ensures
        r as int == cap_add_spec(a as int, b as int),
{
    let s = a as u64 + b as u64;
    if s > COUNTER_CAP as u64 {
        COUNTER_CAP
    } else {
        s as u32
    }
}

/// A node after a finished batch is credited to it directly: `self_visits`
/// grows by the batch size and `self_wins` by the batch's win count for the
/// player who made the move leading into the state (inferred from the move
/// parity); AMAF counters are untouched.
pub open spec fn credited_node(n: Node, state: BoardState, stats: Stats) -> Node {
    let delta: int = if state.moves % 2 != 0 {
        stats.first_player_wins as int
    } else {
        stats.count - stats.first_player_wins
    };
    Node {
        pos: n.pos,
        children_created: n.children_created,
        self_visits: cap_add_spec(n.self_visits as int, stats.count as int) as u32,
        self_wins: cap_add_spec(n.self_wins as int, delta) as u32,
        visits: n.visits,
        wins: n.wins,
    }
}

/// A child node after the AMAF credit step: the per-point counters of the
/// player who would move into the child are added to its `visits`/`wins`;
/// direct counters are untouched. `is_first_player` is the parity bit of
/// the parent (`state.moves % 2 != 0`, as the update step uses it).
pub open spec fn amaf_credited(n: Node, is_first_player: bool, e: PointStats) -> Node {
    Node {
        pos: n.pos,
        children_created: n.children_created,
        self_visits: n.self_visits,
        self_wins: n.self_wins,
        visits: cap_add_spec(
            n.visits as int,
            if is_first_player {
                e.p2 as int
            } else {
                e.p1 as int
            },
        ) as u32,
        wins: cap_add_spec(
            n.wins as int,
            if is_first_player {
                e.p2_wins as int
            } else {
                e.p1_wins as int
            },
        ) as u32,
    }
}

/// Well-formedness of the search tree relative to the topology: every key
/// is a valid state with consistent counters, and once a node's children
/// are flagged as created, every legal child state is present.
pub open spec fn tree_wf(info: BoardInfo, m: Map<BoardState, Node>) -> bool {
    &&& m.dom().finite()
    &&& forall|s: BoardState| #[trigger]
        m.dom().contains(s) ==> s.valid_for(info.count as int) && m[s].wf()
    &&& forall|s: BoardState, i: int|
        #![trigger m[s].children_created, s.child(i)]
        m.dom().contains(s) && m[s].children_created && 0 <= i < info.count && !s.any_spec(i)
            ==> m.dom().contains(s.child(i))
}

/// Materialises every legal child of `state` in the tree (inserting fresh
/// nodes for the missing ones) and flags the state's node.
#[verifier::loop_isolation(false)]
fn create_children(info: &BoardInfo, tree: &mut SearchTree, state: BoardState)
    requires
        info.wf(),
        tree_wf(*info, tree_entries(*old(tree))),
        tree_entries(*old(tree)).dom().contains(state),
        state.valid_for(info.count as int),
    ensures
        tree_wf(*info, tree_entries(*final(tree))),
        tree_entries(*old(tree)).dom().subset_of(tree_entries(*final(tree)).dom()),
        tree_entries(*final(tree)).dom().contains(state),
        tree_entries(*final(tree))[state] == (Node {
            children_created: true,
            ..tree_entries(*old(tree))[state]
        }),
        forall|s: BoardState| #[trigger]
            tree_entries(*old(tree)).dom().contains(s) && s != state ==> tree_entries(
                *final(tree),
            )[s] == tree_entries(*old(tree))[s],
        forall|i: int|
            0 <= i < info.count && !state.any_spec(i) ==> tree_entries(*final(tree)).dom().contains(
                #[trigger] state.child(i),
            ),
        forall|i: int|
            0 <= i < info.count && !state.any_spec(i) && !tree_entries(*old(tree)).dom().contains(
                #[trigger] state.child(i),
            ) ==> tree_entries(*final(tree))[state.child(i)] == Node::child_spec(i as usize),
{
    let ghost n: int = info.count as int;
    let count = info.count;
    proof {
        state.lemma_moves_le_count(n);
    }
    let mut i: usize = 0;
    while i < count
        invariant
            tree_wf(*info, tree_entries(*tree)),
            tree_entries(*old(tree)).dom().subset_of(tree_entries(*tree).dom()),
            tree_entries(*tree).dom().contains(state),
            tree_entries(*tree)[state] == tree_entries(*old(tree))[state],
            i <= count,
            forall|s: BoardState| #[trigger]
                tree_entries(*old(tree)).dom().contains(s) ==> tree_entries(*tree)[s]
                    == tree_entries(*old(tree))[s],
            forall|j: int|
                0 <= j < i && !state.any_spec(j) ==> tree_entries(*tree).dom().contains(
                    #[trigger] state.child(j),
                ),
            forall|j: int|
                0 <= j < i && !state.any_spec(j) && !tree_entries(*old(tree)).dom().contains(
                    #[trigger] state.child(j),
                ) ==> tree_entries(*tree)[state.child(j)] == Node::child_spec(j as usize),
            forall|s: BoardState| #[trigger]
                tree_entries(*tree).dom().contains(s) ==> tree_entries(*old(tree)).dom().contains(
                    s,
                ) || (exists|j: int| 0 <= j < i && !state.any_spec(j) && s == state.child(j)),
        decreases count - i,
    {
        if !state.any(i) {
            let mut child_state = state;
            child_state.add_move(i);
            proof {
                state.lemma_child_valid(n, i as int);
            }
            match tree.get(&child_state) {
                Some(_) => {
                    proof {
                        if !tree_entries(*old(tree)).dom().contains(state.child(i as int)) {
                            let j2 = choose|j2: int|
                                0 <= j2 < i && !state.any_spec(j2) && state.child(i as int)
                                    == state.child(j2);
                            state.lemma_child_injective(j2, i as int);
                            assert(false);
                        }
                    }
                },
                None => {
                    let ghost pre = tree_entries(*tree);
                    tree.insert(child_state, Node::with_pos(i));
                    proof {
                        assert(tree_entries(*tree).dom() =~= pre.dom().insert(child_state));
                        assert(child_state != state);
                        assert forall|s: BoardState|
                            tree_entries(*tree).dom().contains(s) && !tree_entries(
                                *old(tree),
                            ).dom().contains(s) implies exists|j: int|
                            0 <= j < i + 1 && !state.any_spec(j) && s == state.child(j) by {
                            if s == child_state {
                                assert(!state.any_spec(i as int) && s == state.child(i as int));
                            } else {
                                assert(pre.dom().contains(s));
                            }
                        }
                        assert forall|j: int|
                            0 <= j < i + 1 && !state.any_spec(j) && !tree_entries(
                                *old(tree),
                            ).dom().contains(#[trigger] state.child(j)) implies tree_entries(
                            *tree,
                        )[state.child(j)] == Node::child_spec(j as usize) by {
                            if j != i as int {
                                state.lemma_child_injective(j, i as int);
                            }
                        }
                        assert(tree_wf(*info, tree_entries(*tree))) by {
                            let m = tree_entries(*tree);
                            assert forall|s: BoardState, j: int|
                                m.dom().contains(s) && (#[trigger] m[s].children_created) && 0 <= j
                                    < info.count && !s.any_spec(j) implies m.dom().contains(
                                #[trigger] s.child(j),
                            ) by {
                                if s != child_state {
                                    assert(pre.dom().contains(s) && pre[s] == m[s]);
                                    assert(pre.dom().contains(s.child(j)));
                                }
                            }
                        }
                    }
                },
            }
        }
        i += 1;
    }
    let node = match tree.get(&state) {
        Some(nd) => nd,
        None => {
            proof {
                assert(false);
            }
            Node::new()
        },
    };
    let mut node2 = node;
    node2.children_created = true;
    let ghost pre = tree_entries(*tree);
    tree.insert(state, node2);
    proof {
        assert(tree_entries(*tree).dom() =~= pre.dom().insert(state));
        assert(tree_entries(*tree).dom() =~= pre.dom());
        state.lemma_moves_le_count(n);
        assert forall|j: int|
            0 <= j < count && !state.any_spec(j) && !tree_entries(*old(tree)).dom().contains(
                #[trigger] state.child(j),
            ) implies tree_entries(*tree)[state.child(j)] == Node::child_spec(j as usize) by {
            assert(state.child(j).moves == state.moves + 1);
            assert(state.child(j) != state);
            assert(tree_entries(*tree)[state.child(j)] == pre[state.child(j)]);
        }
        assert(tree_wf(*info, tree_entries(*tree))) by {
            let m = tree_entries(*tree);
            assert forall|s: BoardState, j: int|
                m.dom().contains(s) && (#[trigger] m[s].children_created) && 0 <= j < info.count
                    && !s.any_spec(j) implies m.dom().contains(#[trigger] s.child(j)) by {
                if s == state {
                    assert(m.dom().contains(s.child(j)));
                } else {
                    assert(pre.dom().contains(s) && pre[s] == m[s]);
                    assert(pre.dom().contains(s.child(j)));
                }
            }
        }
    }
}

/// Credits a finished batch to `state`'s node and, if its children exist,
/// adds the AMAF per-point counters to each child. A state is always
/// inserted into the tree before it is updated; this is enforced as an
/// invariant rather than tolerated at run time.
#[verifier::loop_isolation(false)]
fn update(info: &BoardInfo, tree: &mut SearchTree, state: BoardState, stats: &Stats)
    requires
        info.wf(),
        tree_wf(*info, tree_entries(*old(tree))),
        tree_entries(*old(tree)).dom().contains(state),
        state.valid_for(info.count as int),
        stats.wf(info.count as int),
    ensures
        tree_wf(*info, tree_entries(*final(tree))),
        tree_entries(*final(tree)).dom() =~= tree_entries(*old(tree)).dom(),
        tree_entries(*final(tree))[state] == credited_node(
            tree_entries(*old(tree))[state],
            state,
            *stats,
        ),
        tree_entries(*old(tree))[state].children_created ==> forall|i: int|
            0 <= i < info.count && !state.any_spec(i) ==> tree_entries(*final(tree))[
                #[trigger] state.child(i)
            ] == amaf_credited(
                tree_entries(*old(tree))[state.child(i)],
                state.moves % 2 != 0,
                stats.point_stats@[i],
            ),
        !tree_entries(*old(tree))[state].children_created ==> forall|s: BoardState| #[trigger]
            tree_entries(*old(tree)).dom().contains(s) && s != state ==> tree_entries(
                *final(tree),
            )[s] == tree_entries(*old(tree))[s],
        forall|s: BoardState| #[trigger]
            tree_entries(*old(tree)).dom().contains(s) && s != state && !(exists|i: int|
                0 <= i < info.count && !state.any_spec(i) && s == #[trigger] state.child(i)) ==>
                tree_entries(*final(tree))[s] == tree_entries(*old(tree))[s],
        forall|s: BoardState| #[trigger]
            tree_entries(*old(tree)).dom().contains(s) ==> tree_entries(*final(tree))[s].children_created
                == tree_entries(*old(tree))[s].children_created && tree_entries(*final(tree))[s].pos
                == tree_entries(*old(tree))[s].pos,
{
    let ghost n: int = info.count as int;
    proof {
        state.lemma_moves_le_count(n);
    }
    let is_first_player = state.moves % 2 != 0;
    let node = match tree.get(&state) {
        Some(nd) => nd,
        None => {
            proof {
                assert(false);
            }
            Node::new()
        },
    };
    let mut node2 = node;
    node2.self_visits = cap_add(node.self_visits, stats.count);
    let delta_wins: u32 = if is_first_player {
        stats.first_player_wins
    } else {
        stats.count - stats.first_player_wins
    };
    node2.self_wins = cap_add(node.self_wins, delta_wins);
    proof {
        assert(node2.wf());
        assert(node2 == credited_node(node, state, *stats));
    }
    let ghost pre = tree_entries(*tree);
    tree.insert(state, node2);
    proof {
        assert(tree_entries(*tree).dom() =~= pre.dom());
        lemma_update_preserves_tree_wf(*info, pre, tree_entries(*tree), state, node2);
    }
    if !node.children_created {
        return ;
    }
    let count = info.count;
    let mut i: usize = 0;
    while i < count
        invariant
            tree_wf(*info, tree_entries(*tree)),
            tree_entries(*tree).dom() =~= tree_entries(*old(tree)).dom(),
            i <= count,
            tree_entries(*tree)[state] == credited_node(
                tree_entries(*old(tree))[state],
                state,
                *stats,
            ),
            forall|j: int|
                0 <= j < i && !state.any_spec(j) ==> tree_entries(*tree)[
                    #[trigger] state.child(j)
                ] == amaf_credited(
                    tree_entries(*old(tree))[state.child(j)],
                    state.moves % 2 != 0,
                    stats.point_stats@[j],
                ),
            forall|j: int|
                i <= j < count && !state.any_spec(j) ==> tree_entries(*tree)[
                    #[trigger] state.child(j)
                ] == tree_entries(*old(tree))[state.child(j)],
            forall|s: BoardState| #[trigger]
                tree_entries(*old(tree)).dom().contains(s) && s != state && !(exists|j2: int|
                    0 <= j2 < info.count && !state.any_spec(j2) && s == #[trigger] state.child(j2))
                    ==> tree_entries(*tree)[s] == tree_entries(*old(tree))[s],
            forall|s: BoardState| #[trigger]
                tree_entries(*old(tree)).dom().contains(s) ==> tree_entries(*tree)[s].children_created
                    == tree_entries(*old(tree))[s].children_created && tree_entries(*tree)[s].pos
                    == tree_entries(*old(tree))[s].pos,
        decreases count - i,
    {
        if !state.any(i) {
            let mut child_state = state;
            child_state.add_move(i);
            proof {
                assert(tree_entries(*old(tree))[state].children_created);
                assert(tree_entries(*old(tree)).dom().contains(state.child(i as int)));
                assert(child_state.moves == state.moves + 1);
            }
            let child = match tree.get(&child_state) {
                Some(c) => c,
                None => {
                    proof {
                        assert(false);
                    }
                    Node::new()
                },
            };
            let mut child2 = child;
            let e = stats.point_stats[i];
            if !is_first_player {
                child2.visits = cap_add(child.visits, e.p1);
                child2.wins = cap_add(child.wins, e.p1_wins);
            } else {
                child2.visits = cap_add(child.visits, e.p2);
                child2.wins = cap_add(child.wins, e.p2_wins);
            }
            proof {
                assert(e.wf(stats.count as int));
                assert(child2.wf());
                assert(child2 == amaf_credited(child, is_first_player, e));
            }
            let ghost pre2 = tree_entries(*tree);
            tree.insert(child_state, child2);
            proof {
                assert(tree_entries(*tree).dom() =~= pre2.dom());
                lemma_update_preserves_tree_wf(*info, pre2, tree_entries(*tree), child_state, child2);
                assert(child_state != state);
                assert forall|j: int|
                    0 <= j < i + 1 && !state.any_spec(j) implies tree_entries(*tree)[
                    #[trigger] state.child(j)
                ] == amaf_credited(
                    tree_entries(*old(tree))[state.child(j)],
                    state.moves % 2 != 0,
                    stats.point_stats@[j],
                ) by {
                    if j != i as int {
                        state.lemma_child_injective(j, i as int);
                        assert(tree_entries(*tree)[state.child(j)] == pre2[state.child(j)]);
                    }
                }
                assert forall|j: int|
                    i + 1 <= j < count && !state.any_spec(j) implies tree_entries(*tree)[
                    #[trigger] state.child(j)
                ] == tree_entries(*old(tree))[state.child(j)] by {
                    state.lemma_child_injective(j, i as int);
                    assert(tree_entries(*tree)[state.child(j)] == pre2[state.child(j)]);
                }
            }
        }
        i += 1;
    }
}

/// One top-level search: a recursive descent from `state` to a leaf by the
/// winrate policy, a batch of playouts (or a synthetic batch at a terminal
/// state), and statistics propagation back up the visited path.
#[verifier::loop_isolation(false)]
fn play(
    info: &BoardInfo,
    rng: &mut rand::rngs::SmallRng,
    tree: &mut SearchTree,
    state: BoardState,
    komi: isize,
) -> (r: Stats)
    requires
        info.wf(),
        tree_wf(*info, tree_entries(*old(tree))),
        tree_entries(*old(tree)).dom().contains(state),
        state.valid_for(info.count as int),
        komi_ok(komi as int),
    ensures
        tree_wf(*info, tree_entries(*final(tree))),
        tree_entries(*old(tree)).dom().subset_of(tree_entries(*final(tree)).dom()),
        r.wf(info.count as int),
        r.count == INNER_ITERATIONS,
        forall|k: int|
            0 <= k < info.count ==> ((#[trigger] r.point_stats@[k]).p1 + r.point_stats@[k].p2
                == r.count || r.point_stats@[k] == PointStats::zero()),
        forall|k: int|
            0 <= k < info.count ==> (#[trigger] r.point_stats@[k]).p1_wins <= r.first_player_wins
                && r.point_stats@[k].p2_wins <= r.count - r.first_player_wins,
        state.moves == info.count ==> tree_entries(*final(tree)) == tree_entries(*old(tree))
            && r.first_player_wins == (if score_spec(*info, state, Player::First, komi as int) > 0 {
            INNER_ITERATIONS as int
        } else {
            0int
        }) && (forall|k: int| 0 <= k < info.count ==> r.point_stats@[k] == PointStats::zero()),
        state.moves < info.count ==> tree_entries(*final(tree))[state] == (Node {
            self_visits: cap_add_spec(
                tree_entries(*old(tree))[state].self_visits as int,
                r.count as int,
            ) as u32,
            self_wins: cap_add_spec(
                tree_entries(*old(tree))[state].self_wins as int,
                (if state.moves % 2 != 0 {
                    r.first_player_wins as int
                } else {
                    r.count - r.first_player_wins
                }),
            ) as u32,
            children_created: tree_entries(*final(tree))[state].children_created,
            ..tree_entries(*old(tree))[state]
        }),
        state.moves < info.count && tree_entries(*old(tree))[state].self_visits == 0
            ==> tree_entries(*final(tree)).dom() =~= tree_entries(*old(tree)).dom() && (forall|
            k: int,
        |
            0 <= k < info.count ==> (#[trigger] r.point_stats@[k]).p1 + r.point_stats@[k].p2
                == r.count),
        state.moves < info.count && tree_entries(*old(tree))[state].self_visits != 0 ==> exists|
            i: int,
        |
            0 <= i < info.count && !(#[trigger] state.any_spec(i)) && (forall|j: int|
                0 <= j < info.count && !state.any_spec(j) ==> !wr_gt(
                    sel_node(tree_entries(*old(tree)), state, j),
                    sel_node(tree_entries(*old(tree)), state, i),
                )) && (forall|j: int|
                0 <= j < i && !state.any_spec(j) ==> wr_gt(
                    sel_node(tree_entries(*old(tree)), state, i),
                    sel_node(tree_entries(*old(tree)), state, j),
                )) && (state.moves + 1 < info.count ==> tree_entries(*final(tree))[state.child(
                i,
            )].self_visits as int == cap_add_spec(
                sel_node(tree_entries(*old(tree)), state, i).self_visits as int,
                INNER_ITERATIONS as int,
            )),
        forall|s: BoardState| #[trigger]
            tree_entries(*old(tree)).dom().contains(s) && s.moves < state.moves ==> tree_entries(
                *final(tree),
            )[s] == tree_entries(*old(tree))[s],
    decreases info.count - state.moves,
{
    let ghost n: int = info.count as int;
    proof {
        state.lemma_moves_le_count(n);
    }
    if state.finished(info) {
        let winner = if state.is_winner(info, Player::First, komi) {
            Player::First
        } else {
            Player::Second
        };
        return Stats::single(info, winner, INNER_ITERATIONS);
    }
    let node = match tree.get(&state) {
        Some(nd) => nd,
        None => {
            proof {
                assert(false);
            }
            Node::new()
        },
    };
    let stats = if node.self_visits == 0 {
        state.play_random(info, rng, komi, INNER_ITERATIONS)
    } else {
        if !node.children_created {
            create_children(info, tree, state);
        }
        proof {
            assert forall|i: int| 0 <= i < n && !state.any_spec(i) implies tree_entries(
                *tree,
            ).dom().contains(#[trigger] state.child(i)) by {
                if node.children_created {
                    assert(tree_entries(*tree)[state].children_created);
                }
            }
        }
        let ghost m0 = tree_entries(*old(tree));
        proof {
            assert forall|i: int| 0 <= i < n && !state.any_spec(i) implies tree_entries(*tree)[
                #[trigger] state.child(i)
            ] == sel_node(m0, state, i) by {
                state.lemma_moves_le_count(n);
                assert(state.child(i).moves == state.moves + 1);
                assert(state.child(i) != state);
                if node.children_created {
                    assert(m0.dom().contains(state.child(i)));
                }
            }
        }
        let count = info.count;
        let mut best: Option<usize> = None;
        let mut best_state = state;
        let mut best_node = Node::new();
        let mut i: usize = 0;
        while i < count
            invariant
                i <= count,
                best is None ==> forall|j: int| 0 <= j < i ==> state.any_spec(j),
                best matches Some(bi) ==> bi < count && !state.any_spec(bi as int) && best_state
                    == state.child(bi as int) && tree_entries(*tree).dom().contains(best_state)
                    && best_state.valid_for(n) && best_state.moves == state.moves + 1 && best_node
                    == tree_entries(*tree)[best_state] && best_node == sel_node(
                    m0,
                    state,
                    bi as int,
                ),
                best matches Some(bi) ==> forall|j: int|
                    0 <= j < i && !state.any_spec(j) ==> !wr_gt(
                        sel_node(m0, state, j),
                        sel_node(m0, state, bi as int),
                    ),
                best matches Some(bi) ==> forall|j: int|
                    0 <= j < bi && !state.any_spec(j) ==> wr_gt(
                        sel_node(m0, state, bi as int),
                        sel_node(m0, state, j),
                    ),
            decreases count - i,
        {
            if !state.any(i) {
                let mut child_state = state;
                child_state.add_move(i);
                proof {
                    state.lemma_child_valid(n, i as int);
                    assert(tree_entries(*tree).dom().contains(state.child(i as int)));
                    assert(tree_entries(*tree)[state.child(i as int)] == sel_node(
                        m0,
                        state,
                        i as int,
                    ));
                }
                let child = match tree.get(&child_state) {
                    Some(c) => c,
                    None => {
                        proof {
                            assert(false);
                        }
                        Node::new()
                    },
                };
                match best {
                    None => {
                        best = Some(i);
                        best_state = child_state;
                        best_node = child;
                    },
                    Some(prev_bi) => {
                        if winrate_gt(&child, &best_node) {
                            proof {
                                assert forall|j: int| 0 <= j < i && !state.any_spec(j) implies (
                                !wr_gt(sel_node(m0, state, j), sel_node(m0, state, i as int))
                                    && wr_gt(
                                    sel_node(m0, state, i as int),
                                    sel_node(m0, state, j),
                                )) by {
                                    lemma_wr_gt_trans(
                                        child,
                                        sel_node(m0, state, prev_bi as int),
                                        sel_node(m0, state, j),
                                    );
                                }
                            }
                            best = Some(i);
                            best_state = child_state;
                            best_node = child;
                        }
                    },
                }
            }
            i += 1;
        }
        proof {
            if best is None {
                state.lemma_exists_vacant(n);
                let p = choose|p: int| 0 <= p < n && !state.any_spec(p);
                assert(false);
            }
        }
        let ghost chosen: int = match best {
            Some(bi) => bi as int,
            None => 0,
        };
        let ghost t1 = tree_entries(*tree);
        let r2 = play(info, rng, tree, best_state, komi);
        proof {
            if state.moves + 1 < info.count {
                assert(tree_entries(*tree)[state.child(chosen)].self_visits as int == cap_add_spec(
                    sel_node(m0, state, chosen).self_visits as int,
                    INNER_ITERATIONS as int,
                ));
            }
        }
        r2
    };
    proof {
        assert(tree_entries(*tree).dom().contains(state));
    }
    update(info, tree, state, &stats);
    stats
}

/// The index of the legal immediate child of `state` with the most direct
/// visits; ties keep the first maximum found in index order. None exactly
/// when no vacant point has a node in the tree yet.
#[verifier::loop_isolation(false)]
fn best_move_index(info: &BoardInfo, tree: &SearchTree, state: BoardState) -> (r: Option<usize>)
    requires
        info.wf(),
        state.valid_for(info.count as int),
    ensures
        r matches Some(i) ==> i < info.count && !state.any_spec(i as int) && tree_entries(
            *tree,
        ).dom().contains(state.child(i as int)) && (forall|j: int|
            0 <= j < info.count && !state.any_spec(j) && tree_entries(*tree).dom().contains(
                #[trigger] state.child(j),
            ) ==> tree_entries(*tree)[state.child(j)].self_visits <= tree_entries(*tree)[state.child(
                i as int,
            )].self_visits) && (forall|j: int|
            0 <= j < i && !state.any_spec(j) && tree_entries(*tree).dom().contains(
                #[trigger] state.child(j),
            ) ==> tree_entries(*tree)[state.child(j)].self_visits < tree_entries(*tree)[state.child(
                i as int,
            )].self_visits),
        r is None <==> forall|i: int|
            0 <= i < info.count && !state.any_spec(i) ==> !tree_entries(*tree).dom().contains(
                #[trigger] state.child(i),
            ),
{
    let ghost n: int = info.count as int;
    proof {
        state.lemma_moves_le_count(n);
    }
    let count = info.count;
    let mut most_visits: u32 = 0;
    let mut best: Option<usize> = None;
    let mut i: usize = 0;
    while i < count
        invariant
            i <= count,
            best is None ==> forall|j: int|
                0 <= j < i && !state.any_spec(j) ==> !tree_entries(*tree).dom().contains(
                    #[trigger] state.child(j),
                ),
            best matches Some(bi) ==> bi < count && !state.any_spec(bi as int)
                && tree_entries(*tree).dom().contains(state.child(bi as int)) && most_visits
                == tree_entries(*tree)[state.child(bi as int)].self_visits,
            best is Some ==> forall|j: int|
                0 <= j < i && !state.any_spec(j) && tree_entries(*tree).dom().contains(
                    #[trigger] state.child(j),
                ) ==> tree_entries(*tree)[state.child(j)].self_visits <= most_visits,
            best matches Some(bi) ==> forall|j: int|
                0 <= j < bi && !state.any_spec(j) && tree_entries(*tree).dom().contains(
                    #[trigger] state.child(j),
                ) ==> tree_entries(*tree)[state.child(j)].self_visits < most_visits,
        decreases count - i,
    {
        if !state.any(i) {
            let mut child_state = state;
            child_state.add_move(i);
            match tree.get(&child_state) {
                Some(child) => {
                    match best {
                        None => {
                            most_visits = child.self_visits;
                            best = Some(i);
                        },
                        Some(_) => {
                            if child.self_visits > most_visits {
                                most_visits = child.self_visits;
                                best = Some(i);
                            }
                        },
                    }
                },
                None => {},
            }
        }
        i += 1;
    }
    best
}

/// The engine: the static topology, the true game state, the search tree,
/// and the random generator it owns for its whole lifetime.
pub struct StarAI {
    info: BoardInfo,
    state: BoardState,
    tree: SearchTree,
    rng: rand::rngs::SmallRng,
}

impl StarAI {
    /// The board topology the engine was built with.
    pub closed spec fn info_spec(self) -> BoardInfo {
        self.info
    }

    /// The committed game state.
    pub closed spec fn state_spec(self) -> BoardState {
        self.state
    }

    /// The entries of the search tree.
    pub closed spec fn tree_map(self) -> Map<BoardState, Node> {
        tree_entries(self.tree)
    }

    /// The side length of the board.
    pub closed spec fn size_spec(self) -> usize {
        self.info.size
    }

    /// Engine invariant: topology and state are well formed, the tree is
    /// well formed, and the committed state is always present in the tree.
    pub closed spec fn wf(self) -> bool {
        &&& self.info.wf()
        &&& self.state.valid_for(self.info.count as int)
        &&& tree_wf(self.info, tree_entries(self.tree))
        &&& tree_entries(self.tree).dom().contains(self.state)
    }

    /// Creates an engine for a board of side length `size`. Returns None
    /// exactly when the board would not fit the 128-point capacity, that is
    /// for side length 0 or above 7.
    pub fn new(size: usize) -> (r: Option<StarAI>)
        ensures
            r is Some <==> (1 <= size && count_spec(size as int) <= 128),
            r matches Some(e) ==> e.wf() && e.size_spec() == size && e.state_spec().moves == 0
                && e.state_spec().first_player@ == Set::<int>::empty()
                && e.state_spec().second_player@ == Set::<int>::empty() && e.info_spec().wf()
                && e.tree_map() == Map::empty().insert(e.state_spec(), Node::root_spec()),
    {
        if size < 1 || size > 7 {
            proof {
                if size >= 8 {
                    assert(count_spec(size as int) > 128) by (nonlinear_arith)
                        requires
                            size >= 8,
                    ;
                }
            }
            return None;
        }
        proof {
            lemma_count_formula(size as int);
        }
        let info = BoardInfo::new(size);
        let state = BoardState::new(&info);
        let mut tree = SearchTree::new();
        tree.insert(state, Node::new());
        let engine = StarAI { info, state, tree, rng: crate::rng::new_rng() };
        proof {
            assert(engine.tree_map() =~= Map::empty().insert(state, Node::root_spec()));
            assert(engine.tree_map().dom() =~= Set::empty().insert(state));
        }
        Some(engine)
    }

    /// Runs `iterations` top-level searches from the committed state,
    /// growing the search tree; the committed state itself is unchanged.
    pub fn calculate(&mut self, iterations: usize, komi: isize)
        requires
            old(self).wf(),
            komi_ok(komi as int),
        ensures
            final(self).wf(),
            final(self).info_spec() == old(self).info_spec(),
            final(self).state_spec() == old(self).state_spec(),
            old(self).tree_map().dom().subset_of(final(self).tree_map().dom()),
            old(self).state_spec().moves < old(self).info_spec().count ==> final(self).tree_map()[
                final(self).state_spec()
            ].self_visits as int == cap_add_spec(
                old(self).tree_map()[old(self).state_spec()].self_visits as int,
                INNER_ITERATIONS as int * iterations as int,
            ),
            old(self).state_spec().moves == old(self).info_spec().count ==> final(self).tree_map()
                == old(self).tree_map(),
    {
        let ghost sv0: u32 = tree_entries(old(self).tree)[old(self).state].self_visits;
        let mut it: usize = 0;
        while it < iterations
            invariant
                self.info == old(self).info,
                self.state == old(self).state,
                self.wf(),
                komi_ok(komi as int),
                it <= iterations,
                tree_entries(old(self).tree).dom().subset_of(tree_entries(self.tree).dom()),
                self.state.moves < self.info.count ==> tree_entries(
                    self.tree,
                )[self.state].self_visits as int == cap_add_spec(
                    sv0 as int,
                    INNER_ITERATIONS as int * it as int,
                ),
                self.state.moves == self.info.count ==> tree_entries(self.tree) == tree_entries(
                    old(self).tree,
                ),
            decreases iterations - it,
        {
            let ghost prev_sv = tree_entries(self.tree)[self.state].self_visits;
            proof {
                assert(tree_entries(self.tree)[self.state].wf());
                self.state.lemma_moves_le_count(self.info.count as int);
            }
            play(&self.info, &mut self.rng, &mut self.tree, self.state, komi);
            proof {
                if self.state.moves < self.info.count {
                    assert(tree_entries(self.tree)[self.state].self_visits as int == cap_add_spec(
                        prev_sv as int,
                        INNER_ITERATIONS as int,
                    ));
                    assert(cap_add_spec(
                        cap_add_spec(sv0 as int, INNER_ITERATIONS as int * it as int),
                        INNER_ITERATIONS as int,
                    ) == cap_add_spec(sv0 as int, INNER_ITERATIONS as int * (it + 1)));
                }
            }
            it += 1;
        }
        proof {
            if old(self).state.moves < old(self).info.count {
                assert(tree_entries(self.tree)[self.state].wf());
                assert(cap_add_spec(sv0 as int, INNER_ITERATIONS as int * iterations as int)
                    >= sv0);
            }
        }
    }

    /// The coordinate of the engine's currently preferred move: the child
    /// of the committed state with the most direct visits. The returned
    /// coordinate is always a currently vacant point. None when no legal
    /// child has a node yet (call `calculate` first) or the board is full.
    pub fn best_move(&self) -> (r: Option<(usize, usize)>)
        requires
            self.wf(),
        ensures
            r matches Some(xy) ==> exists|i: int|
                0 <= i < self.info_spec().count && !(#[trigger] self.state_spec().any_spec(i))
                    && xy.0 == self.info_spec().coords@[i].0 && xy.1
                    == self.info_spec().coords@[i].1 && (forall|j: int|
                    0 <= j < self.info_spec().count && !self.state_spec().any_spec(j)
                        && self.tree_map().dom().contains(#[trigger] self.state_spec().child(j))
                        ==> self.tree_map()[self.state_spec().child(j)].self_visits
                        <= self.tree_map()[self.state_spec().child(i)].self_visits) && (forall|
                    j: int,
                |
                    0 <= j < i && !self.state_spec().any_spec(j) && self.tree_map().dom().contains(
                        #[trigger] self.state_spec().child(j),
                    ) ==> self.tree_map()[self.state_spec().child(j)].self_visits
                        < self.tree_map()[self.state_spec().child(i)].self_visits),
            r is None <==> forall|i: int|
                0 <= i < self.info_spec().count && !self.state_spec().any_spec(i)
                    ==> !self.tree_map().dom().contains(#[trigger] self.state_spec().child(i)),
    {
        match best_move_index(&self.info, &self.tree, self.state) {
            Some(i) => {
                let c = self.info.coords[i];
                proof {
                    assert(!self.state_spec().any_spec(i as int));
                }
                Some((c.0, c.1))
            },
            None => None,
        }
    }

    /// Commits a move at `(x, y)` for the current player, discarding the
    /// whole search tree and reseeding it with a single root node for the
    /// new state. Returns false, changing nothing, when the coordinate is
    /// not a valid, currently vacant point.
    pub fn add_move(&mut self, x: usize, y: usize) -> (r: bool)
        requires
            old(self).wf(),
        ensures
            final(self).wf(),
            final(self).info_spec() == old(self).info_spec(),
            r == ({
                let inf = old(self).info_spec();
                &&& x < inf.coords_range
                &&& y < inf.coords_range
                &&& inf.rv(x as int, y as int) matches Some(i) && !old(self).state_spec().any_spec(
                    i as int,
                )
            }),
            r ==> exists|i: usize|
                old(self).info_spec().rv(x as int, y as int) == Some(i) && final(self).state_spec()
                    == old(self).state_spec().child(i as int),
            r ==> final(self).tree_map() == Map::empty().insert(
                final(self).state_spec(),
                Node::root_spec(),
            ),
            !r ==> final(self).state_spec() == old(self).state_spec() && final(self).tree_map()
                == old(self).tree_map(),
    {
        let ghost n: int = self.info.count as int;
        match self.info.index_of(x, y) {
            Some(i) => {
                if !self.state.any(i) {
                    proof {
                        self.state.lemma_moves_le_count(n);
                        self.state.lemma_child_valid(n, i as int);
                    }
                    self.state.add_move(i);
                    self.tree = SearchTree::new();
                    self.tree.insert(self.state, Node::new());
                    proof {
                        assert(self.tree_map() =~= Map::empty().insert(
                            self.state,
                            Node::root_spec(),
                        ));
                        assert(self.tree_map().dom() =~= Set::empty().insert(self.state));
                        assert(old(self).info_spec().rv(x as int, y as int) == Some(i)
                            && self.state_spec() == old(self).state_spec().child(i as int));
                        assert(exists|j: usize|
                            old(self).info_spec().rv(x as int, y as int) == Some(j) && self.state_spec()
                                == old(self).state_spec().child(j as int));
                    }
                    true
                } else {
                    false
                }
            },
            None => false,
        }
    }

    /// The number of entries in the search tree.
    pub fn tree_size(&self) -> (r: usize)
        requires
            self.wf(),
        ensures
            r == self.tree_map().dom().len(),
    {
        self.tree.len()
    }

    /// The side length of the board.
    pub fn size(&self) -> (r: usize)
        ensures
            r == self.size_spec(),
    {
        self.info.size
    }

    /// The total number of points on the board.
    pub fn point_count(&self) -> (r: usize)
        ensures
            r == self.info_spec().count,
    {
        self.info.count
    }

    /// Read-only access to the board topology.
    pub fn info(&self) -> (r: &BoardInfo)
        ensures
            *r == self.info_spec(),
    {
        &self.info
    }

    /// Read-only access to the committed game state.
    pub fn state(&self) -> (r: &BoardState)
        ensures
            *r == self.state_spec(),
    {
        &self.state
    }

    /// The player who has won the current position, if any: the first
    /// player if their score is positive, else the second player if theirs
    /// is, else no one.
    pub fn winner(&self, komi: isize) -> (r: Option<Player>)
        requires
            self.wf(),
            komi_ok(komi as int),
        ensures
            r == Some(Player::First) <==> score_spec(
                self.info_spec(),
                self.state_spec(),
                Player::First,
                komi as int,
            ) > 0,
            r == Some(Player::Second) <==> (!(score_spec(
                self.info_spec(),
                self.state_spec(),
                Player::First,
                komi as int,
            ) > 0) && score_spec(
                self.info_spec(),
                self.state_spec(),
                Player::Second,
                komi as int,
            ) > 0),
            r is None <==> (!(score_spec(
                self.info_spec(),
                self.state_spec(),
                Player::First,
                komi as int,
            ) > 0) && !(score_spec(
                self.info_spec(),
                self.state_spec(),
                Player::Second,
                komi as int,
            ) > 0)),
    {
        if self.state.is_winner(&self.info, Player::First, komi) {
            Some(Player::First)
        } else if self.state.is_winner(&self.info, Player::Second, komi) {
            Some(Player::Second)
        } else {
            None
        }
    }

    /// The given player's score of the current position.
    pub fn score(&self, player: Player, komi: isize) -> (r: isize)
        requires
            self.wf(),
            komi_ok(komi as int),
        ensures
            r as int == score_spec(self.info_spec(), self.state_spec(), player, komi as int),
    {
        self.state.player_score(&self.info, player, komi)
    }

    /// Whether the game is decided: some player's score is positive.
    pub fn finished(&self, komi: isize) -> (r: bool)
        requires
            self.wf(),
            komi_ok(komi as int),
        ensures
            r == (score_spec(self.info_spec(), self.state_spec(), Player::First, komi as int) > 0
                || score_spec(self.info_spec(), self.state_spec(), Player::Second, komi as int)
                > 0),
    {
        self.winner(komi).is_some()
    }

    /// The player whose turn it currently is.
    pub fn player_turn(&self) -> (r: Player)
        ensures
            r == self.state_spec().turn_spec(),
    {
        self.state.player_turn()
    }
}

/// Replacing one entry by a node with the same flag and position, valid
/// counters, and the same key set preserves tree well-formedness.
proof fn lemma_update_preserves_tree_wf(
    info: BoardInfo,
    pre: Map<BoardState, Node>,
    post: Map<BoardState, Node>,
    key: BoardState,
    node: Node,
)
    requires
        tree_wf(info, pre),
        pre.dom().contains(key),
        node.wf(),
        node.children_created == pre[key].children_created,
        node.pos == pre[key].pos,
        post == pre.insert(key, node),
    ensures
        tree_wf(info, post),
        post.dom() =~= pre.dom(),
        forall|s: BoardState| #[trigger]
            pre.dom().contains(s) ==> post[s].children_created == pre[s].children_created
                && post[s].pos == pre[s].pos,
{
    assert(post.dom() =~= pre.dom());
    assert forall|s: BoardState, j: int|
        post.dom().contains(s) && (#[trigger] post[s].children_created) && 0 <= j < info.count
            && !s.any_spec(j) implies post.dom().contains(#[trigger] s.child(j)) by {
        assert(pre[s].children_created == post[s].children_created);
        assert(pre.dom().contains(s.child(j)));
    }
}

} // verus!
