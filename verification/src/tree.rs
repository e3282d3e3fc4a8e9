use vstd::prelude::*;

use crate::board::BoardState;
use crate::search::Node;

verus! {

/// The search tree: a mapping from board states to their statistics nodes,
/// backed by fnv's FnvHashMap. It is built lazily during `calculate` and
/// discarded wholesale on every committed move. Verus sees it only through
/// `tree_entries` and the trusted operations below.
#[verifier::external_body]
pub struct SearchTree {
    map: fnv::FnvHashMap<BoardState, Node>,
}

/// The entries of the search tree, as a map from states to nodes.
pub uninterp spec fn tree_entries(t: SearchTree) -> Map<BoardState, Node>;

impl SearchTree {
    /// Relies on fnv's FnvHashMap (std's HashMap with the FNV hasher):
    /// `default` yields an empty map.
    #[verifier::external_body]
    pub fn new() -> (t: SearchTree)
        ensures
            tree_entries(t).dom().finite(),
            forall|s: BoardState| !tree_entries(t).dom().contains(s),
    {
        SearchTree { map: fnv::FnvHashMap::default() }
    }

    /// Relies on std's HashMap::insert; BoardState's derived Eq and Hash are
    /// structural over its fields, so entries are keyed by value.
    #[verifier::external_body]
    pub fn insert(&mut self, k: BoardState, v: Node)
        ensures
            tree_entries(*final(self)) == tree_entries(*old(self)).insert(k, v),
    {
        self.map.insert(k, v);
    }

    /// Relies on std's HashMap::get, with the same structural keying.
    #[verifier::external_body]
    pub fn get(&self, k: &BoardState) -> (r: Option<Node>)
        ensures
            r == (if tree_entries(*self).dom().contains(*k) {
                Some(tree_entries(*self)[*k])
            } else {
                None::<Node>
            }),
    {
        self.map.get(k).copied()
    }

    /// Relies on std's HashMap::len: the number of entries in the map.
    #[verifier::external_body]
    pub fn len(&self) -> (r: usize)
        ensures
            tree_entries(*self).dom().finite() ==> r == tree_entries(*self).dom().len(),
    {
        self.map.len()
    }
}

} // verus!
