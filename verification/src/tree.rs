//! The search tree of Monte Carlo tree search.
//!
//! The nodes stand in one vector, the root at index 0; a node names its
//! parent and its children by index, and an index, once given out, stays
//! valid. Visits and rewards are whole numbers: a reward is a count of wins.
//!
//! The rewards of a node stand in a row, one count for each player in the
//! order of the roster of the root state, so that nothing is asked of how a
//! player hashes. A winner who is not on the roster has no slot and is not
//! counted.

use crate::game::clones_exactly;
use crate::game::copy_of;
use crate::game::plays_out_to;
use crate::game::Mcts;
use crate::outcome::Outcome;
use crate::outcome::OutcomeView;
use crate::random::next_u32;
use crate::rollout::random_rollout;
use crate::tally::credit;
use crate::tally::position;
use crate::tally::stands_at;
use crate::tally::zero_row;
use core::marker::PhantomData;
use rand_pcg::Pcg64;
use vstd::laws_eq::obeys_concrete_eq;
use vstd::prelude::*;

verus! {

/// One node of the tree.
pub struct VecTreeNode<P, A, G: Mcts<P, A>> {
    num_visits: u64,
    value: Vec<u64>,
    state: G,
    parent_idx: Option<usize>,
    children: Vec<usize>,
    rollouts: Ghost<nat>,
    phantom_p: PhantomData<P>,
    phantom_a: PhantomData<A>,
}

impl<P, A, G: Mcts<P, A>> VecTreeNode<P, A, G> {
    /// How many searches have passed through the node.
    pub closed spec fn visits(&self) -> u64 {
        self.num_visits
    }

    /// The wins gathered at the node, one count for each player of the roster.
    pub closed spec fn rewards(&self) -> Seq<u64> {
        self.value@
    }

    /// The game state that the node stands for.
    pub closed spec fn position(&self) -> G {
        self.state
    }

    /// The index of the parent; the root has none.
    pub closed spec fn parent(&self) -> Option<usize> {
        self.parent_idx
    }

    /// The indices of the children, one for each legal move and in the order
    /// of the moves; empty until the node is expanded.
    pub closed spec fn kids(&self) -> Seq<usize> {
        self.children@
    }

    /// How many searches ended at this node: it was the last node of their
    /// path, the one that was played out or whose outcome was taken.
    pub closed spec fn stops(&self) -> nat {
        self.rollouts@
    }

    /// A node for `state` that has not been visited, with one reward slot for
    /// each of `num_players` players and no parent.
    fn from_state(state: G, num_players: usize) -> (node: Self)
        ensures
            node.visits() == 0,
            node.rewards().len() == num_players,
            forall|j: int| 0 <= j < num_players ==> node.rewards()[j] == 0,
            node.position() == state,
            node.parent() is None,
            node.kids().len() == 0,
            node.stops() == 0,
    {
        VecTreeNode {
            num_visits: 0,
            value: zero_row(num_players),
            state,
            parent_idx: None,
            children: Vec::new(),
            rollouts: Ghost(0),
            phantom_p: PhantomData,
            phantom_a: PhantomData,
        }
    }

    /// A node for `state` that has not been visited, with one reward slot for
    /// each of `num_players` players, under the node at index `parent`.
    fn from_state_with_parent_idx(state: G, parent: usize, num_players: usize) -> (node: Self)
        ensures
            node.visits() == 0,
            node.rewards().len() == num_players,
            forall|j: int| 0 <= j < num_players ==> node.rewards()[j] == 0,
            node.position() == state,
            node.parent() == Some(parent),
            node.kids().len() == 0,
            node.stops() == 0,
    {
        VecTreeNode {
            num_visits: 0,
            value: zero_row(num_players),
            state,
            parent_idx: Some(parent),
            children: Vec::new(),
            rollouts: Ghost(0),
            phantom_p: PhantomData,
            phantom_a: PhantomData,
        }
    }

    /// Whether the node has no children: it has not been expanded.
    pub fn is_leaf(&self) -> (leaf: bool)
        ensures
            leaf == (self.kids().len() == 0),
    {
        self.children.len() == 0
    }

    /// How many searches have passed through the node.
    pub fn num_visits(&self) -> (visits: u64)
        ensures
            visits == self.visits(),
    {
        self.num_visits
    }

    /// The wins gathered at the node, one count for each player of the roster.
    pub fn value(&self) -> (rewards: &Vec<u64>)
        ensures
            rewards@ == self.rewards(),
    {
        &self.value
    }

    /// The game state that the node stands for.
    pub fn state(&self) -> (state: &G)
        ensures
            *state == self.position(),
    {
        &self.state
    }

    /// The index of the parent; the root has none.
    pub fn parent_idx(&self) -> (parent: Option<usize>)
        ensures
            parent == self.parent(),
    {
        self.parent_idx
    }

    /// The indices of the children.
    pub fn children(&self) -> (children: &Vec<usize>)
        ensures
            children@ == self.kids(),
    {
        &self.children
    }
}

/// A search tree over game states.
pub struct VecTree<P, A, G: Mcts<P, A>> {
    current_player: P,
    players: Vec<P>,
    root_place: Option<usize>,
    nodes: Vec<VecTreeNode<P, A, G>>,
}

impl<P, A, G: Mcts<P, A>> VecTree<P, A, G> {
    /// How many nodes the tree holds.
    pub closed spec fn len(&self) -> nat {
        self.nodes@.len()
    }

    /// The node at index `i`.
    pub closed spec fn node(&self, i: int) -> VecTreeNode<P, A, G> {
        self.nodes@[i]
    }

    /// The player for whom the tree searches: the one to move at the root.
    pub closed spec fn searcher(&self) -> P {
        self.current_player
    }

    /// The players whose wins are counted, in the order of the reward slots.
    pub closed spec fn roster(&self) -> Seq<P> {
        self.players@
    }

    /// The reward slot of the searching player, if they are on the roster.
    pub closed spec fn searcher_slot(&self) -> Option<usize> {
        self.root_place
    }

    /// The visits of the nodes named in `kids`, added up.
    pub open spec fn visits_among(&self, kids: Seq<usize>) -> nat
        decreases kids.len(),
    {
        if kids.len() == 0 {
            0
        } else {
            self.visits_among(kids.drop_last()) + self.node(kids.last() as int).visits() as nat
        }
    }

    /// Node `i` is in its place in the tree. The root is node 0 and has no
    /// parent; any other node has a parent that stands before it and lists it
    /// as a child. What the node lists as a child stands after it and names it
    /// as parent, and the list rises, so it names no child twice.
    pub open spec fn linked_at(&self, i: int) -> bool {
        let node = self.node(i);
        &&& if i == 0 {
            node.parent() is None
        } else {
            &&& node.parent() matches Some(p)
            &&& p < i
            &&& self.node(p as int).kids().contains(i as usize)
        }
        &&& forall|k: int|
            0 <= k < node.kids().len() ==> {
                &&& i < (#[trigger] node.kids()[k]) < self.len()
                &&& self.node(node.kids()[k] as int).parent() == Some(i as usize)
            }
        &&& forall|k1: int, k2: int|
            0 <= k1 < k2 < node.kids().len() ==> (#[trigger] node.kids()[k1]) < (
            #[trigger] node.kids()[k2])
    }

    /// The nodes form a tree: there is a root, and every node is in its place.
    /// So every node but the root is the child of exactly one node.
    pub open spec fn linked(&self) -> bool {
        &&& 1 <= self.len() <= usize::MAX
        &&& forall|i: int| 0 <= i < self.len() ==> self.linked_at(i)
    }

    /// The counts of node `i` add up. It has a reward slot for each player of
    /// the roster, and no player has more wins than the node has visits. Its
    /// visits are those of its children plus the searches that ended at the
    /// node itself. It has no more visits than the root.
    pub open spec fn counted_at(&self, i: int) -> bool {
        let node = self.node(i);
        &&& node.rewards().len() == self.roster().len()
        &&& forall|j: int|
            0 <= j < node.rewards().len() ==> #[trigger] node.rewards()[j] <= node.visits()
        &&& node.visits() == self.visits_among(node.kids()) + node.stops()
        &&& node.visits() <= self.node(0).visits()
    }

    /// The roster and the searching player are those of the root state, and
    /// the counts of every node add up.
    pub open spec fn counted(&self) -> bool {
        &&& self.len() >= 1
        &&& self.roster() == self.node(0).position().roster()
        &&& self.searcher() == self.node(0).position().to_move()
        &&& stands_at(self.roster(), self.searcher(), self.searcher_slot())
        &&& forall|i: int| 0 <= i < self.len() ==> self.counted_at(i)
    }

    /// Node `i` is a leaf, or it has been expanded: the game is not over in
    /// its state, and it has one child for each legal move, in the order of
    /// the moves, whose state is one that the move leads to.
    pub open spec fn expanded_in_order(&self, i: int) -> bool {
        let node = self.node(i);
        node.kids().len() > 0 ==> {
            &&& node.position().result() is None
            &&& node.kids().len() == node.position().legal_actions().len()
            &&& forall|k: int|
                0 <= k < node.kids().len() ==> node.position().leads_to(
                    node.position().legal_actions()[k],
                    self.node(#[trigger] node.kids()[k] as int).position(),
                )
        }
    }

    /// The tree is well formed.
    pub open spec fn wf(&self) -> bool {
        &&& self.linked()
        &&& self.counted()
        &&& forall|i: int| 0 <= i < self.len() ==> self.expanded_in_order(i)
    }
}

impl<P, A, G: Mcts<P, A>> VecTree<P, A, G> {
    /// Two trees in which the nodes named in `kids` have the same visits give
    /// the same sum over `kids`.
    proof fn lemma_visits_among_same(&self, other: &Self, kids: Seq<usize>)
        requires
            forall|k: int|
                0 <= k < kids.len() ==> self.node(#[trigger] kids[k] as int).visits()
                    == other.node(kids[k] as int).visits(),
        ensures
            self.visits_among(kids) == other.visits_among(kids),
        decreases kids.len(),
    {
        if kids.len() > 0 {
            let rest = kids.drop_last();
            assert forall|k: int| 0 <= k < rest.len() implies self.node(
                #[trigger] rest[k] as int,
            ).visits() == other.node(rest[k] as int).visits() by {
                assert(rest[k] == kids[k]);
            }
            self.lemma_visits_among_same(other, rest);
            assert(kids.last() == kids[kids.len() - 1]);
        }
    }

    /// If, from `self` to `other`, the node at place `k0` of `kids` has gained
    /// one visit and the other nodes named in `kids` none, the sum over `kids`
    /// has gained one.
    proof fn lemma_visits_among_one_more(&self, other: &Self, kids: Seq<usize>, k0: int)
        requires
            0 <= k0 < kids.len(),
            other.node(kids[k0] as int).visits() == self.node(kids[k0] as int).visits() + 1,
            forall|k: int|
                0 <= k < kids.len() && k != k0 ==> self.node(#[trigger] kids[k] as int).visits()
                    == other.node(kids[k] as int).visits(),
        ensures
            other.visits_among(kids) == self.visits_among(kids) + 1,
        decreases kids.len(),
    {
        let rest = kids.drop_last();
        assert(kids.last() == kids[kids.len() - 1]);
        if k0 == kids.len() - 1 {
            assert forall|k: int| 0 <= k < rest.len() implies self.node(
                #[trigger] rest[k] as int,
            ).visits() == other.node(rest[k] as int).visits() by {
                assert(rest[k] == kids[k]);
            }
            self.lemma_visits_among_same(other, rest);
        } else {
            assert(rest[k0] == kids[k0]);
            assert forall|k: int| 0 <= k < rest.len() && k != k0 implies self.node(
                #[trigger] rest[k] as int,
            ).visits() == other.node(rest[k] as int).visits() by {
                assert(rest[k] == kids[k]);
            }
            self.lemma_visits_among_one_more(other, rest, k0);
        }
    }

    /// A child that has not been visited adds nothing to the sum.
    proof fn lemma_visits_among_push(&self, kids: Seq<usize>, kid: usize)
        ensures
            self.visits_among(kids.push(kid)) == self.visits_among(kids) + self.node(
                kid as int,
            ).visits(),
    {
        assert(kids.push(kid).drop_last() == kids);
    }

    /// `self` is `before` with one node more: an unvisited leaf at the end of
    /// the arena, which is the new last child of node `p`. Nothing else has
    /// changed.
    pub open spec fn has_new_child(&self, before: &Self, p: usize) -> bool {
        let fresh = before.len() as int;
        &&& self.len() == before.len() + 1
        &&& self.len() <= usize::MAX
        &&& self.roster() == before.roster()
        &&& self.searcher() == before.searcher()
        &&& self.searcher_slot() == before.searcher_slot()
        &&& self.node(fresh).visits() == 0
        &&& self.node(fresh).stops() == 0
        &&& self.node(fresh).parent() == Some(p)
        &&& self.node(fresh).kids().len() == 0
        &&& self.node(fresh).rewards().len() == before.roster().len()
        &&& forall|j: int|
            0 <= j < before.roster().len() ==> #[trigger] self.node(fresh).rewards()[j] == 0
        &&& forall|i: int|
            0 <= i < before.len() && i != p ==> #[trigger] self.node(i) == before.node(i)
        &&& self.node(p as int).kids() == before.node(p as int).kids().push(fresh as usize)
        &&& self.node(p as int).visits() == before.node(p as int).visits()
        &&& self.node(p as int).stops() == before.node(p as int).stops()
        &&& self.node(p as int).rewards() == before.node(p as int).rewards()
        &&& self.node(p as int).position() == before.node(p as int).position()
        &&& self.node(p as int).parent() == before.node(p as int).parent()
    }

    /// A new child keeps the nodes a tree.
    proof fn lemma_new_child_linked(&self, before: &Self, p: usize)
        requires
            before.linked(),
            p < before.len(),
            self.has_new_child(before, p),
        ensures
            self.linked(),
    {
        let fresh = before.len() as int;
        assert forall|i: int| 0 <= i < self.len() implies self.linked_at(i) by {
            if i == fresh {
                assert(self.node(p as int).kids()[before.node(p as int).kids().len() as int]
                    == fresh as usize);
            } else {
                assert(before.linked_at(i));
                let node = self.node(i);
                let old_node = before.node(i);
                if i != p {
                    assert(node == old_node);
                }
                assert(node.parent() == old_node.parent());
                if i != 0 {
                    let q = old_node.parent()->Some_0;
                    let k = choose|k: int|
                        0 <= k < before.node(q as int).kids().len() && before.node(
                            q as int,
                        ).kids()[k] == i as usize;
                    if q != p {
                        assert(self.node(q as int) == before.node(q as int));
                    }
                    assert(self.node(q as int).kids()[k] == i as usize);
                }
                assert forall|k: int| 0 <= k < node.kids().len() implies {
                    &&& i < (#[trigger] node.kids()[k]) < self.len()
                    &&& self.node(node.kids()[k] as int).parent() == Some(i as usize)
                } by {
                    if k < old_node.kids().len() {
                        let c = old_node.kids()[k];
                        assert(node.kids()[k] == c);
                        assert(i < c < before.len());
                        if c != p {
                            assert(self.node(c as int) == before.node(c as int));
                        }
                    } else {
                        assert(i == p);
                        assert(node.kids()[k] == fresh as usize);
                    }
                }
                assert forall|k1: int, k2: int|
                    0 <= k1 < k2 < node.kids().len() implies (#[trigger] node.kids()[k1]) < (
                #[trigger] node.kids()[k2]) by {
                    assert(node.kids()[k1] == old_node.kids()[k1]);
                    assert(i < old_node.kids()[k1] < before.len());
                    if k2 < old_node.kids().len() {
                        assert(node.kids()[k2] == old_node.kids()[k2]);
                    } else {
                        assert(node.kids()[k2] == fresh as usize);
                    }
                }
            }
        }
    }

    /// A new child keeps the counts in balance.
    proof fn lemma_new_child_counted(&self, before: &Self, p: usize)
        requires
            before.linked(),
            before.counted(),
            p < before.len(),
            self.has_new_child(before, p),
        ensures
            self.counted(),
    {
        let fresh = before.len() as int;
        assert(before.counted_at(0));
        if p != 0 {
            assert(self.node(0) == before.node(0));
        }
        assert forall|i: int| 0 <= i < self.len() implies self.counted_at(i) by {
            let node = self.node(i);
            if i == fresh {
                assert forall|j: int| 0 <= j < node.rewards().len() implies #[trigger] node.rewards()[j]
                    <= node.visits() by {
                    assert(self.node(fresh).rewards()[j] == 0);
                }
                assert(self.visits_among(node.kids()) == 0);
            } else {
                assert(before.counted_at(i));
                assert(before.linked_at(i));
                assert(node.rewards() == before.node(i).rewards());
                assert(node.visits() == before.node(i).visits());
                assert(node.stops() == before.node(i).stops());
                let kids = before.node(i).kids();
                assert forall|k: int| 0 <= k < kids.len() implies before.node(
                    #[trigger] kids[k] as int,
                ).visits() == self.node(kids[k] as int).visits() by {
                    let c = kids[k];
                    assert(i < c < before.len());
                    if c != p {
                        assert(self.node(c as int) == before.node(c as int));
                    }
                }
                before.lemma_visits_among_same(self, kids);
                if i == p {
                    self.lemma_visits_among_push(kids, fresh as usize);
                } else {
                    assert(self.node(i) == before.node(i));
                }
            }
        }
    }

    /// Puts a node for `state` at the end of the arena and returns its index.
    /// With a parent, the node becomes the parent's last child. Without one it
    /// is the root, and the arena must be empty.
    pub fn add_node(&mut self, state: G, parent_idx: Option<usize>) -> (next_idx: usize)
        requires
            match parent_idx {
                Some(p) => old(self).linked() && old(self).counted() && p < old(self).len(),
                None => old(self).len() == 0,
            },
        ensures
            next_idx == old(self).len(),
            final(self).node(next_idx as int).position() == state,
            match parent_idx {
                Some(p) => {
                    &&& final(self).has_new_child(old(self), p)
                    &&& final(self).linked()
                    &&& final(self).counted()
                },
                None => {
                    &&& final(self).len() == 1
                    &&& final(self).roster() == old(self).roster()
                    &&& final(self).searcher() == old(self).searcher()
                    &&& final(self).searcher_slot() == old(self).searcher_slot()
                    &&& final(self).node(0).visits() == 0
                    &&& final(self).node(0).stops() == 0
                    &&& final(self).node(0).parent() is None
                    &&& final(self).node(0).kids().len() == 0
                    &&& final(self).node(0).rewards().len() == old(self).roster().len()
                    &&& forall|j: int|
                        0 <= j < old(self).roster().len() ==> #[trigger] final(self).node(
                            0,
                        ).rewards()[j] == 0
                },
            },
    {
        let next_idx = self.nodes.len();
        let ghost before = *self;
        let node = if let Some(parent_idx) = parent_idx {
            let node = VecTreeNode::from_state_with_parent_idx(
                state,
                parent_idx,
                self.players.len(),
            );
            self.nodes[parent_idx].children.push(next_idx);
            node
        } else {
            VecTreeNode::from_state(state, self.players.len())
        };
        self.nodes.push(node);
        let _ = self.nodes.len();
        proof {
            if let Some(p) = parent_idx {
                assert(self.has_new_child(&before, p));
                self.lemma_new_child_linked(&before, p);
                self.lemma_new_child_counted(&before, p);
            }
        }
        next_idx
    }
}

impl<P: PartialEq, A: Clone, G: Mcts<P, A>> VecTree<P, A, G> {
    /// A tree that holds only the root, which stands for `state` and has not
    /// been visited. The tree searches for the player to move in `state`.
    pub fn from_state(state: G) -> (tree: Self)
        requires
            obeys_concrete_eq::<P>(),
        ensures
            tree.wf(),
            tree.is_fresh(state),
    {
        let players = state.players();
        let current_player = state.current_player();
        let root_place = position(&players, &current_player);
        let mut tree = VecTree { current_player, players, root_place, nodes: Vec::new() };
        tree.add_node(state, None);
        proof {
            assert(tree.linked_at(0));
            assert(tree.counted_at(0));
            assert(tree.expanded_in_order(0));
        }
        tree
    }

    /// Expands the leaf at `node_idx`: each legal move of its state is made
    /// in turn, and the state it leads to becomes a new child. The children
    /// are the new nodes at the end of the arena, in the order of the moves,
    /// and none of them has been visited.
    ///
    /// The game must not be over in the leaf's state, and there must be a
    /// legal move.
    pub fn expand(&mut self, node_idx: usize, rng: &mut Pcg64)
        requires
            clones_exactly::<A>(),
            old(self).wf(),
            node_idx < old(self).len(),
            old(self).node(node_idx as int).kids().len() == 0,
            old(self).node(node_idx as int).position().result() is None,
            old(self).node(node_idx as int).position().legal_actions().len() > 0,
        ensures
            final(self).wf(),
            final(self).grown_from(old(self), node_idx),
    {
        let actions = self.nodes[node_idx].state.actions();
        self.grow(node_idx, actions, rng);
    }

    /// Expands the leaf at `node_idx` with `actions`, the legal moves of its
    /// state.
    fn grow(&mut self, node_idx: usize, actions: Vec<A>, rng: &mut Pcg64)
        requires
            clones_exactly::<A>(),
            old(self).wf(),
            node_idx < old(self).len(),
            old(self).node(node_idx as int).kids().len() == 0,
            old(self).node(node_idx as int).position().result() is None,
            actions@ == old(self).node(node_idx as int).position().legal_actions(),
            actions@.len() > 0,
        ensures
            final(self).wf(),
            final(self).grown_from(old(self), node_idx),
    {
        let ghost before = *self;
        let mut k: usize = 0;
        while k < actions.len()
            invariant
                clones_exactly::<A>(),
                before.wf(),
                node_idx < before.len(),
                before.node(node_idx as int).kids().len() == 0,
                before.node(node_idx as int).position().result() is None,
                actions@ == before.node(node_idx as int).position().legal_actions(),
                k <= actions@.len(),
                self.linked(),
                self.counted(),
                self.partly_grown_from(&before, node_idx, k as int),
            decreases actions@.len() - k,
        {
            let action = copy_of(&actions[k]);
            assert(actions@.contains(action)) by {
                assert(actions@[k as int] == action);
            }
            let state = self.nodes[node_idx].state.apply_action(action, rng).unwrap();
            let ghost earlier = *self;
            self.add_node(state, Some(node_idx));
            proof {
                self.lemma_one_more_grown(&earlier, &before, node_idx, k as int);
            }
            k += 1;
        }
        proof {
            self.lemma_grown_is_wf(&before, node_idx);
        }
    }
}

impl<P, A, G: Mcts<P, A>> VecTree<P, A, G> {
    /// `self` is `before` after the first `done` moves of the leaf at
    /// `node_idx` were made: each has given a new, unvisited leaf at the end
    /// of the arena, whose state the move leads to, and these are the children
    /// of the leaf so far. The other nodes are as they were.
    pub open spec fn partly_grown_from(&self, before: &Self, node_idx: usize, done: int) -> bool {
        let node = self.node(node_idx as int);
        let old_node = before.node(node_idx as int);
        &&& self.len() == before.len() + done
        &&& self.roster() == before.roster()
        &&& self.searcher() == before.searcher()
        &&& self.searcher_slot() == before.searcher_slot()
        &&& forall|i: int|
            0 <= i < before.len() && i != node_idx ==> #[trigger] self.node(i) == before.node(i)
        &&& node.visits() == old_node.visits()
        &&& node.stops() == old_node.stops()
        &&& node.rewards() == old_node.rewards()
        &&& node.position() == old_node.position()
        &&& node.parent() == old_node.parent()
        &&& node.kids().len() == done
        &&& forall|k: int| 0 <= k < done ==> #[trigger] node.kids()[k] == before.len() + k
        &&& forall|k: int|
            0 <= k < done ==> {
                let child = #[trigger] self.node(before.len() + k);
                &&& child.visits() == 0
                &&& child.stops() == 0
                &&& child.kids().len() == 0
                &&& child.parent() == Some(node_idx)
                &&& old_node.position().leads_to(
                    old_node.position().legal_actions()[k],
                    child.position(),
                )
            }
    }

    /// `self` is `before` with the leaf at `node_idx` expanded: every legal
    /// move of its state has given one child.
    pub open spec fn grown_from(&self, before: &Self, node_idx: usize) -> bool {
        self.partly_grown_from(
            before,
            node_idx,
            before.node(node_idx as int).position().legal_actions().len() as int,
        )
    }

    /// One more child keeps the expansion on course.
    proof fn lemma_one_more_grown(&self, earlier: &Self, before: &Self, node_idx: usize, done: int)
        requires
            before.linked(),
            node_idx < before.len(),
            before.node(node_idx as int).kids().len() == 0,
            0 <= done < before.node(node_idx as int).position().legal_actions().len(),
            earlier.partly_grown_from(before, node_idx, done),
            self.has_new_child(earlier, node_idx),
            before.node(node_idx as int).position().leads_to(
                before.node(node_idx as int).position().legal_actions()[done],
                self.node(earlier.len() as int).position(),
            ),
        ensures
            self.partly_grown_from(before, node_idx, done + 1),
    {
        let node = self.node(node_idx as int);
        let old_node = before.node(node_idx as int);
        assert forall|i: int| 0 <= i < before.len() && i != node_idx implies #[trigger] self.node(
            i,
        ) == before.node(i) by {
            assert(self.node(i) == earlier.node(i));
        }
        assert forall|k: int| 0 <= k < done + 1 implies #[trigger] node.kids()[k] == before.len()
            + k by {
            if k < done {
                assert(node.kids()[k] == earlier.node(node_idx as int).kids()[k]);
            }
        }
        assert forall|k: int| 0 <= k < done + 1 implies {
            let child = #[trigger] self.node(before.len() + k);
            &&& child.visits() == 0
            &&& child.stops() == 0
            &&& child.kids().len() == 0
            &&& child.parent() == Some(node_idx)
            &&& old_node.position().leads_to(
                old_node.position().legal_actions()[k],
                child.position(),
            )
        } by {
            if k < done {
                assert(self.node(before.len() + k) == earlier.node(before.len() + k));
            }
        }
    }

    /// A tree that was well formed is so again when a leaf has been expanded.
    proof fn lemma_grown_is_wf(&self, before: &Self, node_idx: usize)
        requires
            before.wf(),
            node_idx < before.len(),
            before.node(node_idx as int).kids().len() == 0,
            before.node(node_idx as int).position().result() is None,
            before.node(node_idx as int).position().legal_actions().len() > 0,
            self.linked(),
            self.counted(),
            self.grown_from(before, node_idx),
        ensures
            self.wf(),
    {
        let done = before.node(node_idx as int).position().legal_actions().len() as int;
        assert forall|i: int| 0 <= i < self.len() implies self.expanded_in_order(i) by {
            let node = self.node(i);
            if i == node_idx {
                assert forall|k: int| 0 <= k < node.kids().len() implies node.position().leads_to(
                    node.position().legal_actions()[k],
                    self.node(#[trigger] node.kids()[k] as int).position(),
                ) by {
                    assert(node.kids()[k] == before.len() + k);
                    let child = self.node(before.len() + k);
                    assert(child.kids().len() == 0);
                }
            } else if i < before.len() {
                assert(node == before.node(i));
                assert(before.expanded_in_order(i));
                assert(before.linked_at(i));
                assert forall|k: int| 0 <= k < node.kids().len() implies node.position().leads_to(
                    node.position().legal_actions()[k],
                    self.node(#[trigger] node.kids()[k] as int).position(),
                ) by {
                    let c = before.node(i).kids()[k];
                    assert(i < c < before.len());
                    if c != node_idx {
                        assert(self.node(c as int) == before.node(c as int));
                    }
                }
            } else {
                let k = i - before.len();
                let child = self.node(before.len() + k);
                assert(child.kids().len() == 0);
            }
        }
    }
}

impl<P, A, G: Mcts<P, A>> VecTree<P, A, G> {
    /// The legal moves in the state of node `i`.
    pub open spec fn moves_at(&self, i: int) -> Seq<A> {
        self.node(i).position().legal_actions()
    }

    /// Whether node `i` can be expanded: the game is not over in its state,
    /// and there is a legal move.
    pub open spec fn can_grow(&self, i: int) -> bool {
        self.node(i).position().result() is None && self.moves_at(i).len() > 0
    }

    /// `path` leads down the tree: it starts at the root, and each node on it
    /// is a child of the one before.
    pub open spec fn is_path(&self, path: Seq<usize>) -> bool {
        &&& path.len() >= 1
        &&& path[0] == 0
        &&& forall|k: int| 0 <= k < path.len() ==> (#[trigger] path[k]) < self.len()
        &&& forall|k: int|
            0 <= k < path.len() - 1 ==> self.node(path[k] as int).kids().contains(
                #[trigger] path[k + 1],
            )
    }

    /// `self` is `before` after the `verdict` of one search was carried up
    /// `path`. Every node on the path has one visit more, and one more win for
    /// each player to whom the verdict is a win. The nodes in `ended` have one
    /// more search that ended at them. Nothing else has changed.
    pub open spec fn backed_up(
        &self,
        before: &Self,
        path: Seq<usize>,
        verdict: OutcomeView<P>,
        ended: Seq<usize>,
    ) -> bool {
        &&& self.len() == before.len()
        &&& self.roster() == before.roster()
        &&& self.searcher() == before.searcher()
        &&& self.searcher_slot() == before.searcher_slot()
        &&& forall|i: int| 0 <= i < self.len() ==> self.backed_up_at(before, path, verdict, ended, i)
    }

    /// What [`Self::backed_up`] says of node `i`.
    pub open spec fn backed_up_at(
        &self,
        before: &Self,
        path: Seq<usize>,
        verdict: OutcomeView<P>,
        ended: Seq<usize>,
        i: int,
    ) -> bool {
        let node = self.node(i);
        let old_node = before.node(i);
        let on_path = path.contains(i as usize);
        &&& node.position() == old_node.position()
        &&& node.parent() == old_node.parent()
        &&& node.kids() == old_node.kids()
        &&& node.visits() == old_node.visits() + if on_path { 1nat } else { 0nat }
        &&& node.stops() == old_node.stops() + if ended.contains(i as usize) { 1nat } else { 0nat }
        &&& node.rewards().len() == old_node.rewards().len()
        &&& forall|j: int|
            0 <= j < node.rewards().len() ==> #[trigger] node.rewards()[j] == old_node.rewards()[j]
                + if on_path { verdict.reward(self.roster()[j]) } else { 0nat }
    }

    /// A path rises: a later node has the greater index.
    proof fn lemma_path_rises(&self, path: Seq<usize>, k1: int, k2: int)
        requires
            self.linked(),
            self.is_path(path),
            0 <= k1 < k2 < path.len(),
        ensures
            path[k1] < path[k2],
        decreases k2 - k1,
    {
        let i = path[k2 - 1] as int;
        assert(path[k2 - 1] < self.len());
        assert(self.linked_at(i));
        assert(self.node(i).kids().contains(path[k2 - 1 + 1]));
        let k = choose|k: int| 0 <= k < self.node(i).kids().len() && self.node(i).kids()[k] == path[k2];
        assert(i < self.node(i).kids()[k]);
        if k1 < k2 - 1 {
            self.lemma_path_rises(path, k1, k2 - 1);
        }
    }

    /// A child that is on the path follows its parent there.
    proof fn lemma_kid_on_path(&self, path: Seq<usize>, i: int, k: int, m: int)
        requires
            self.linked(),
            self.is_path(path),
            0 <= i < self.len(),
            0 <= k < self.node(i).kids().len(),
            0 <= m < path.len(),
            self.node(i).kids()[k] == path[m],
        ensures
            m >= 1,
            path[m - 1] == i,
    {
        assert(self.linked_at(i));
        let c = self.node(i).kids()[k];
        assert(i < c);
        assert(self.node(c as int).parent() == Some(i as usize));
        if m >= 1 {
            let q = path[m - 1] as int;
            assert(path[m - 1] < self.len());
            assert(self.linked_at(q));
            assert(self.node(q).kids().contains(path[m - 1 + 1]));
            let k2 = choose|k2: int|
                0 <= k2 < self.node(q).kids().len() && self.node(q).kids()[k2] == c;
            assert(self.node(self.node(q).kids()[k2] as int).parent() == Some(q as usize));
        }
    }

    /// Carrying a verdict up a path leaves the counts of every node in
    /// balance.
    proof fn lemma_backed_up_counted_at(
        &self,
        before: &Self,
        path: Seq<usize>,
        verdict: OutcomeView<P>,
        i: int,
    )
        requires
            before.linked(),
            before.counted(),
            before.is_path(path),
            self.backed_up(before, path, verdict, seq![path.last()]),
            0 <= i < self.len(),
        ensures
            self.counted_at(i),
    {
        let node = self.node(i);
        let old_node = before.node(i);
        let kids = old_node.kids();
        let last = path.len() - 1;
        assert(self.backed_up_at(before, path, verdict, seq![path.last()], i));
        assert(self.backed_up_at(before, path, verdict, seq![path.last()], 0));
        assert(before.counted_at(i));
        assert(before.counted_at(0));
        assert(before.linked_at(i));
        assert(path[0] == 0);
        assert(path.contains(0usize));
        assert(seq![path.last()].contains(i as usize) <==> i == path.last()) by {
            if i == path.last() {
                assert(seq![path.last()][0] == i as usize);
            }
        }
        assert forall|j: int| 0 <= j < node.rewards().len() implies #[trigger] node.rewards()[j]
            <= node.visits() by {
            assert(old_node.rewards()[j] <= old_node.visits());
        }
        if path.contains(i as usize) {
            let m = choose|m: int| 0 <= m < path.len() && path[m] == i as usize;
            if m < last {
                let c0 = path[m + 1];
                assert(before.node(path[m] as int).kids().contains(path[m + 1]));
                let k0 = choose|k0: int| 0 <= k0 < kids.len() && kids[k0] == c0;
                assert(self.backed_up_at(before, path, verdict, seq![path.last()], c0 as int));
                assert(path.contains(c0));
                assert forall|k: int| 0 <= k < kids.len() && k != k0 implies before.node(
                    #[trigger] kids[k] as int,
                ).visits() == self.node(kids[k] as int).visits() by {
                    let c = kids[k];
                    assert(self.backed_up_at(before, path, verdict, seq![path.last()], c as int));
                    if k < k0 {
                        assert(kids[k] < kids[k0]);
                    } else {
                        assert(kids[k0] < kids[k]);
                    }
                    if path.contains(c) {
                        let m2 = choose|m2: int| 0 <= m2 < path.len() && path[m2] == c;
                        before.lemma_kid_on_path(path, i, k, m2);
                        if m2 - 1 < m {
                            before.lemma_path_rises(path, m2 - 1, m);
                        } else if m < m2 - 1 {
                            before.lemma_path_rises(path, m, m2 - 1);
                        }
                    }
                }
                before.lemma_visits_among_one_more(self, kids, k0);
                before.lemma_path_rises(path, m, last);
            } else {
                assert forall|k: int| 0 <= k < kids.len() implies before.node(
                    #[trigger] kids[k] as int,
                ).visits() == self.node(kids[k] as int).visits() by {
                    let c = kids[k];
                    assert(self.backed_up_at(before, path, verdict, seq![path.last()], c as int));
                    if path.contains(c) {
                        let m2 = choose|m2: int| 0 <= m2 < path.len() && path[m2] == c;
                        before.lemma_kid_on_path(path, i, k, m2);
                        before.lemma_path_rises(path, m2 - 1, m);
                    }
                }
                before.lemma_visits_among_same(self, kids);
            }
        } else {
            assert forall|k: int| 0 <= k < kids.len() implies before.node(
                #[trigger] kids[k] as int,
            ).visits() == self.node(kids[k] as int).visits() by {
                let c = kids[k];
                assert(self.backed_up_at(before, path, verdict, seq![path.last()], c as int));
                if path.contains(c) {
                    let m2 = choose|m2: int| 0 <= m2 < path.len() && path[m2] == c;
                    before.lemma_kid_on_path(path, i, k, m2);
                    assert(path[m2 - 1] == i as usize);
                }
            }
            before.lemma_visits_among_same(self, kids);
        }
    }

    /// A tree that was well formed is so again when a verdict has been carried
    /// up a path.
    proof fn lemma_backed_up_wf(&self, before: &Self, path: Seq<usize>, verdict: OutcomeView<P>)
        requires
            before.wf(),
            before.is_path(path),
            self.backed_up(before, path, verdict, seq![path.last()]),
        ensures
            self.wf(),
    {
        let ended = seq![path.last()];
        assert(self.backed_up_at(before, path, verdict, ended, 0));
        assert forall|i: int| 0 <= i < self.len() implies self.linked_at(i) by {
            assert(self.backed_up_at(before, path, verdict, ended, i));
            assert(before.linked_at(i));
            let node = self.node(i);
            if i != 0 {
                let p = node.parent()->Some_0;
                assert(self.backed_up_at(before, path, verdict, ended, p as int));
            }
            assert forall|k: int| 0 <= k < node.kids().len() implies {
                &&& i < (#[trigger] node.kids()[k]) < self.len()
                &&& self.node(node.kids()[k] as int).parent() == Some(i as usize)
            } by {
                let c = before.node(i).kids()[k];
                assert(i < c < before.len());
                assert(self.backed_up_at(before, path, verdict, ended, c as int));
            }
        }
        assert forall|i: int| 0 <= i < self.len() implies self.counted_at(i) by {
            self.lemma_backed_up_counted_at(before, path, verdict, i);
        }
        assert forall|i: int| 0 <= i < self.len() implies self.expanded_in_order(i) by {
            assert(self.backed_up_at(before, path, verdict, ended, i));
            assert(before.expanded_in_order(i));
            assert(before.linked_at(i));
            let node = self.node(i);
            assert forall|k: int| 0 <= k < node.kids().len() implies node.position().leads_to(
                node.position().legal_actions()[k],
                self.node(#[trigger] node.kids()[k] as int).position(),
            ) by {
                let c = before.node(i).kids()[k];
                assert(i < c < before.len());
                assert(self.backed_up_at(before, path, verdict, ended, c as int));
            }
        }
    }
}

impl<P: PartialEq, A: Clone, G: Mcts<P, A>> VecTree<P, A, G> {
    /// Carries the `verdict` of one search up `path`, the nodes that the
    /// search went through from the root down. Each of them gets one visit
    /// more, and one win more for each player to whom the verdict is a win: the
    /// winner, or each of several winners. An escape adds visits and no win.
    /// The search ended at the last node of the path.
    pub fn backpropagate(&mut self, path: &Vec<usize>, verdict: &Outcome<P>)
        requires
            obeys_concrete_eq::<P>(),
            old(self).wf(),
            old(self).is_path(path@),
            old(self).node(0).visits() < u64::MAX,
        ensures
            final(self).wf(),
            final(self).backed_up(old(self), path@, verdict@, seq![path@.last()]),
    {
        let ghost before = *self;
        let mut k: usize = 0;
        proof {
            assert forall|i: int| 0 <= i < self.len() implies self.backed_up_at(
                &before,
                path@.take(0),
                verdict@,
                Seq::<usize>::empty(),
                i,
            ) by {}
        }
        while k < path.len()
            invariant
                obeys_concrete_eq::<P>(),
                before.wf(),
                before.is_path(path@),
                before.node(0).visits() < u64::MAX,
                k <= path@.len(),
                self.backed_up(&before, path@.take(k as int), verdict@, Seq::<usize>::empty()),
            decreases path@.len() - k,
        {
            let idx = path[k];
            let ghost earlier = *self;
            let ghost prefix = path@.take(k as int);
            proof {
                assert(idx < before.len());
                assert(earlier.backed_up_at(
                    &before,
                    prefix,
                    verdict@,
                    Seq::<usize>::empty(),
                    idx as int,
                ));
                assert(before.counted_at(idx as int));
                if prefix.contains(idx) {
                    let m = choose|m: int| 0 <= m < prefix.len() && prefix[m] == idx;
                    assert(path@[m] == idx);
                    before.lemma_path_rises(path@, m, k as int);
                }
                assert forall|j: int| 0 <= j < self.node(idx as int).rewards().len() implies self.node(
                    idx as int,
                ).rewards()[j] < u64::MAX by {
                    assert(before.node(idx as int).rewards()[j] <= before.node(idx as int).visits());
                }
            }
            self.nodes[idx].num_visits += 1;
            credit(&mut self.nodes[idx].value, &self.players, verdict);
            proof {
                let longer = path@.take(k as int + 1);
                assert(longer == prefix.push(idx));
                assert forall|i: int| 0 <= i < self.len() implies self.backed_up_at(
                    &before,
                    longer,
                    verdict@,
                    Seq::<usize>::empty(),
                    i,
                ) by {
                    assert(earlier.backed_up_at(&before, prefix, verdict@, Seq::<usize>::empty(), i));
                    if i == idx {
                        assert(longer[k as int] == idx);
                    } else {
                        assert(self.node(i) == earlier.node(i));
                        if longer.contains(i as usize) {
                            let m = choose|m: int| 0 <= m < longer.len() && longer[m] == i as usize;
                            assert(prefix[m] == i as usize);
                        }
                        if prefix.contains(i as usize) {
                            let m = choose|m: int| 0 <= m < prefix.len() && prefix[m] == i as usize;
                            assert(longer[m] == i as usize);
                        }
                    }
                }
            }
            k += 1;
        }
        let last = path[path.len() - 1];
        let ghost earlier = *self;
        let ghost stops = self.nodes@[last as int].rollouts@;
        self.nodes[last].rollouts = Ghost(stops + 1);
        proof {
            assert(path@.take(path@.len() as int) == path@);
            let ended = seq![path@.last()];
            assert forall|i: int| 0 <= i < self.len() implies self.backed_up_at(
                &before,
                path@,
                verdict@,
                ended,
                i,
            ) by {
                assert(earlier.backed_up_at(&before, path@, verdict@, Seq::<usize>::empty(), i));
                if i == last {
                    assert(ended[0] == last);
                } else {
                    assert(self.node(i) == earlier.node(i));
                }
            }
            self.lemma_backed_up_wf(&before, path@, verdict@);
        }
    }
}

/// Whether key `a` is above key `b`. A key is a number, or `None` for a key
/// that is above every number.
pub open spec fn key_exceeds(a: Option<u64>, b: Option<u64>) -> bool {
    match (a, b) {
        (None, Some(_)) => true,
        (Some(x), Some(y)) => x > y,
        _ => false,
    }
}

/// `best` is the first place at which `keys` is highest.
pub open spec fn is_first_highest(keys: Seq<Option<u64>>, best: int) -> bool {
    &&& 0 <= best < keys.len()
    &&& forall|k: int| 0 <= k < keys.len() ==> !key_exceeds(#[trigger] keys[k], keys[best])
    &&& forall|k: int| 0 <= k < best ==> key_exceeds(keys[best], #[trigger] keys[k])
}

/// Whether key `a` is above key `b`.
fn exceeds(a: Option<u64>, b: Option<u64>) -> (r: bool)
    ensures
        r == key_exceeds(a, b),
{
    match (a, b) {
        (None, Some(_)) => true,
        (Some(x), Some(y)) => x > y,
        _ => false,
    }
}

impl<P, A, G: Mcts<P, A>> VecTree<P, A, G> {
    /// The wins of the searching player at node `i`; nothing if they are not
    /// on the roster.
    pub open spec fn searcher_reward(&self, i: int) -> u64 {
        match self.searcher_slot() {
            Some(slot) => self.node(i).rewards()[slot as int],
            None => 0,
        }
    }

    /// The visits of the parent of node `i`; nothing for the root.
    pub open spec fn parent_visits_of(&self, i: int) -> u64 {
        match self.node(i).parent() {
            Some(p) => self.node(p as int).visits(),
            None => 0,
        }
    }

    /// `key` is a selection key of node `i`. For a node that has not been
    /// visited it is `None`, which is above every number, so that such a node
    /// is tried first. For any other node it is what `score` makes of the
    /// searching player's wins at the node, the node's visits, its parent's
    /// visits and a random number.
    pub open spec fn is_selection_key<F: Fn(u64, u64, u64, u32) -> u64>(
        &self,
        score: F,
        i: int,
        key: Option<u64>,
    ) -> bool {
        match key {
            None => self.node(i).visits() == 0,
            Some(number) => {
                &&& self.node(i).visits() != 0
                &&& exists|noise: u32| #[trigger]
                    call_ensures(
                        score,
                        (
                            self.searcher_reward(i),
                            self.node(i).visits(),
                            self.parent_visits_of(i),
                            noise,
                        ),
                        number,
                    )
            },
        }
    }

    /// `keys` holds a selection key for each child of node `i`, and child
    /// `j` has the first highest of them.
    pub open spec fn selects<F: Fn(u64, u64, u64, u32) -> u64>(
        &self,
        score: F,
        i: int,
        keys: Seq<Option<u64>>,
        j: int,
    ) -> bool {
        &&& keys.len() == self.node(i).kids().len()
        &&& forall|k: int|
            0 <= k < keys.len() ==> self.is_selection_key(
                score,
                self.node(i).kids()[k] as int,
                #[trigger] keys[k],
            )
        &&& is_first_highest(keys, j)
    }

    /// `child` is the child of node `parent` that selection picks, for some
    /// random numbers: there are selection keys of the children of which that
    /// of `child` is the first highest.
    pub open spec fn chosen<F: Fn(u64, u64, u64, u32) -> u64>(
        &self,
        score: F,
        parent: int,
        child: usize,
    ) -> bool {
        exists|keys: Seq<Option<u64>>, j: int| #[trigger]
            self.selects(score, parent, keys, j) && child == self.node(parent).kids()[j]
    }

    /// The visits of the parent of `node`; 0 for the root.
    fn parent_visits(&self, node: &VecTreeNode<P, A, G>) -> (visits: u64)
        requires
            node.parent() matches Some(p) ==> p < self.len(),
        ensures
            visits == match node.parent() {
                Some(p) => self.node(p as int).visits(),
                None => 0,
            },
    {
        if let Some(parent_idx) = node.parent_idx {
            let parent = &self.nodes[parent_idx];
            parent.num_visits
        } else {
            0
        }
    }

    /// The selection key of the node at `node_idx`: `None`, which stands above
    /// every number, if the node has not been visited; else what `score`
    /// makes of its counts and of the next number from `rng`. Only in the
    /// second case is a number drawn.
    pub fn ucbt_value<F: Fn(u64, u64, u64, u32) -> u64>(
        &self,
        node_idx: usize,
        rng: &mut Pcg64,
        score: &F,
    ) -> (key: Option<u64>)
        requires
            self.linked(),
            self.counted(),
            node_idx < self.len(),
            forall|value: u64, visits: u64, parent_visits: u64, noise: u32|
                call_requires(*score, (value, visits, parent_visits, noise)),
        ensures
            self.is_selection_key(*score, node_idx as int, key),
    {
        let node = &self.nodes[node_idx];
        if node.num_visits == 0 {
            return None;
        }
        proof {
            assert(self.counted_at(node_idx as int));
            assert(self.linked_at(node_idx as int));
        }
        let player_value = match self.root_place {
            Some(slot) => node.value[slot],
            None => 0,
        };
        let parent_visits = self.parent_visits(node);
        let noise = next_u32(rng);
        let number = score(player_value, node.num_visits, parent_visits, noise);
        let key = Some(number);
        assert(key->Some_0 == number);
        key
    }

    /// Picks the child of the node at `node_idx` to go down to: the child
    /// with the highest selection key, and among equals the one that comes
    /// first. A child that has not been visited has the highest key there is,
    /// so the first such child is picked if there is one.
    ///
    /// The node must have children.
    pub fn select<F: Fn(u64, u64, u64, u32) -> u64>(
        &self,
        node_idx: usize,
        rng: &mut Pcg64,
        score: &F,
    ) -> (selected: usize)
        requires
            self.linked(),
            self.counted(),
            node_idx < self.len(),
            self.node(node_idx as int).kids().len() > 0,
            forall|value: u64, visits: u64, parent_visits: u64, noise: u32|
                call_requires(*score, (value, visits, parent_visits, noise)),
        ensures
            self.chosen(*score, node_idx as int, selected),
            self.node(node_idx as int).kids().contains(selected),
            node_idx < selected < self.len(),
    {
        let node = &self.nodes[node_idx];
        proof {
            assert(self.linked_at(node_idx as int));
        }
        let first_key = self.ucbt_value(node.children[0], rng, score);
        let ghost mut keys: Seq<Option<u64>> = seq![first_key];
        let mut best: usize = 0;
        let mut best_key = first_key;
        let mut k: usize = 1;
        while k < node.children.len()
            invariant
                self.linked(),
                self.counted(),
                node_idx < self.len(),
                *node == self.node(node_idx as int),
                node.kids() == node.children@,
                forall|value: u64, visits: u64, parent_visits: u64, noise: u32|
                    call_requires(*score, (value, visits, parent_visits, noise)),
                1 <= k <= node.children@.len(),
                keys.len() == k,
                forall|i: int|
                    0 <= i < k ==> self.is_selection_key(
                        *score,
                        node.children@[i] as int,
                        #[trigger] keys[i],
                    ),
                is_first_highest(keys, best as int),
                best_key == keys[best as int],
            decreases node.children@.len() - k,
        {
            proof {
                assert(self.linked_at(node_idx as int));
                assert(node_idx < node.kids()[k as int] < self.len());
            }
            let key = self.ucbt_value(node.children[k], rng, score);
            let ghost longer = keys.push(key);
            if exceeds(key, best_key) {
                proof {
                    assert forall|i: int| 0 <= i < longer.len() implies !key_exceeds(
                        #[trigger] longer[i],
                        longer[k as int],
                    ) by {
                        if i < k {
                            assert(longer[i] == keys[i]);
                            assert(!key_exceeds(keys[i], keys[best as int]));
                        }
                    }
                    assert forall|i: int| 0 <= i < k implies key_exceeds(
                        longer[k as int],
                        #[trigger] longer[i],
                    ) by {
                        assert(longer[i] == keys[i]);
                        assert(!key_exceeds(keys[i], keys[best as int]));
                    }
                }
                best = k;
                best_key = key;
            } else {
                proof {
                    assert forall|i: int| 0 <= i < longer.len() implies !key_exceeds(
                        #[trigger] longer[i],
                        longer[best as int],
                    ) by {
                        if i < k {
                            assert(longer[i] == keys[i]);
                        }
                    }
                    assert forall|i: int| 0 <= i < best implies key_exceeds(
                        longer[best as int],
                        #[trigger] longer[i],
                    ) by {
                        assert(longer[i] == keys[i]);
                    }
                }
            }
            proof {
                assert forall|i: int| 0 <= i < k + 1 implies self.is_selection_key(
                    *score,
                    node.children@[i] as int,
                    #[trigger] longer[i],
                ) by {
                    if i < k {
                        assert(longer[i] == keys[i]);
                    }
                }
                keys = longer;
            }
            k += 1;
        }
        proof {
            assert(self.selects(*score, node_idx as int, keys, best as int));
            assert(node_idx < node.kids()[best as int] < self.len());
        }
        node.children[best]
    }
}

impl<P, A, G: Mcts<P, A>> VecTree<P, A, G> {
    /// `self` is `before` after one search. The search went down `path` to a
    /// leaf, at each node to the child that selection with `score` picks.
    /// Where the game was over at the leaf, or no move was left, the tree
    /// stayed as it was and the path ends at the leaf. Otherwise the leaf was
    /// expanded, which gave `grown`, and the path ends at the new child that
    /// selection picks. `verdict` ends a line of play from the state of the
    /// last node, and was carried up the path.
    pub open spec fn searched_once<F: Fn(u64, u64, u64, u32) -> u64>(
        &self,
        before: &Self,
        grown: &Self,
        score: F,
        path: Seq<usize>,
        verdict: OutcomeView<P>,
    ) -> bool {
        let end = path.last() as int;
        &&& grown.wf()
        &&& grown.is_path(path)
        &&& forall|k: int|
            0 <= k < path.len() - 1 ==> if (#[trigger] path[k + 1]) < before.len() {
                before.chosen(score, path[k] as int, path[k + 1])
            } else {
                grown.chosen(score, path[k] as int, path[k + 1])
            }
        &&& grown.node(end).kids().len() == 0
        &&& {
            ||| {
                &&& *grown == *before
                &&& (before.node(end).position().result() is Some || before.node(
                    end,
                ).position().legal_actions().len() == 0)
            }
            ||| {
                &&& path.len() >= 2
                &&& before.node(path[path.len() - 2] as int).kids().len() == 0
                &&& grown.grown_from(before, path[path.len() - 2])
            }
        }
        &&& plays_out_to::<P, A, G>(grown.node(end).position(), verdict)
        &&& self.backed_up(grown, path, verdict, seq![path.last()])
    }

    /// `self` is `before` after one search with `score`.
    pub open spec fn searched_from<F: Fn(u64, u64, u64, u32) -> u64>(
        &self,
        before: &Self,
        score: F,
    ) -> bool {
        exists|grown: Self, path: Seq<usize>, verdict: OutcomeView<P>| #[trigger]
            self.searched_once(before, &grown, score, path, verdict)
    }

    /// `self` is `start` after `searches` searches with `score`.
    pub open spec fn reached_by<F: Fn(u64, u64, u64, u32) -> u64>(
        &self,
        start: &Self,
        score: F,
        searches: nat,
    ) -> bool
        decreases searches,
    {
        if searches == 0 {
            *self == *start
        } else {
            exists|previous: Self|
                previous.reached_by(start, score, (searches - 1) as nat)
                    && #[trigger] self.searched_from(&previous, score)
        }
    }

    /// The tree holds only the root, which stands for `state` and has not been
    /// visited; the roster and the searching player are those of `state`.
    pub open spec fn is_fresh(&self, state: G) -> bool {
        &&& self.len() == 1
        &&& self.node(0).position() == state
        &&& self.node(0).visits() == 0
        &&& self.node(0).stops() == 0
        &&& self.node(0).parent() is None
        &&& self.node(0).kids().len() == 0
        &&& self.node(0).rewards().len() == self.roster().len()
        &&& forall|j: int| 0 <= j < self.roster().len() ==> #[trigger] self.node(0).rewards()[j] == 0
        &&& self.roster() == state.roster()
        &&& self.searcher() == state.to_move()
        &&& stands_at(self.roster(), self.searcher(), self.searcher_slot())
    }

    /// A path with one more node, a child of its last, is a path.
    proof fn lemma_path_push(&self, path: Seq<usize>, child: usize)
        requires
            self.is_path(path),
            self.node(path.last() as int).kids().contains(child),
            child < self.len(),
        ensures
            self.is_path(path.push(child)),
    {
        let longer = path.push(child);
        assert forall|k: int| 0 <= k < longer.len() implies (#[trigger] longer[k]) < self.len() by {
            if k < path.len() {
                assert(longer[k] == path[k]);
            }
        }
        assert forall|k: int| 0 <= k < longer.len() - 1 implies self.node(
            longer[k] as int,
        ).kids().contains(#[trigger] longer[k + 1]) by {
            assert(longer[k] == path[k]);
            if k < path.len() - 1 {
                assert(longer[k + 1] == path[k + 1]);
            }
        }
    }

    /// A path to a leaf is still a path when the leaf has been expanded.
    proof fn lemma_path_in_grown(&self, before: &Self, path: Seq<usize>)
        requires
            before.linked(),
            before.is_path(path),
            before.node(path.last() as int).kids().len() == 0,
            self.grown_from(before, path.last()),
        ensures
            self.is_path(path),
    {
        let leaf = path.last();
        assert forall|k: int| 0 <= k < path.len() - 1 implies self.node(
            path[k] as int,
        ).kids().contains(#[trigger] path[k + 1]) by {
            before.lemma_path_rises(path, k, path.len() - 1);
            assert(path[k] < before.len());
            assert(self.node(path[k] as int) == before.node(path[k] as int));
        }
    }
}

impl<P: PartialEq, A: Clone, G: Mcts<P, A>> VecTree<P, A, G> {
    /// One search. From the root the search goes down, at each node to the
    /// child that [`Self::select`] picks, until it comes to a leaf. If the
    /// game is over there, the leaf's outcome is the verdict. If it is not
    /// over but no move is left, the verdict is an escape. Otherwise the leaf
    /// is expanded, one of the new children is picked in the same way, and a
    /// random game from its state gives the verdict. The verdict is then
    /// carried up the path.
    pub fn search<F: Fn(u64, u64, u64, u32) -> u64>(&mut self, rng: &mut Pcg64, score: &F)
        requires
            obeys_concrete_eq::<P>(),
            clones_exactly::<A>(),
            old(self).wf(),
            old(self).node(0).visits() < u64::MAX,
            forall|value: u64, visits: u64, parent_visits: u64, noise: u32|
                call_requires(*score, (value, visits, parent_visits, noise)),
        ensures
            final(self).wf(),
            final(self).searched_from(old(self), *score),
            final(self).len() >= old(self).len(),
            final(self).node(0).visits() == old(self).node(0).visits() + 1,
            final(self).node(0).position() == old(self).node(0).position(),
            old(self).can_grow(0) ==> final(self).node(0).kids().len() == old(self).moves_at(0).len(),
    {
        let ghost before = *self;
        let mut current_node_idx: usize = 0;
        let mut visited_nodes: Vec<usize> = Vec::new();
        visited_nodes.push(current_node_idx);
        while !self.nodes[current_node_idx].is_leaf()
            invariant
                *self == before,
                self.wf(),
                forall|value: u64, visits: u64, parent_visits: u64, noise: u32|
                    call_requires(*score, (value, visits, parent_visits, noise)),
                current_node_idx < self.len(),
                self.is_path(visited_nodes@),
                visited_nodes@.last() == current_node_idx,
                forall|k: int|
                    0 <= k < visited_nodes@.len() - 1 ==> before.chosen(
                        *score,
                        visited_nodes@[k] as int,
                        #[trigger] visited_nodes@[k + 1],
                    ),
            decreases self.len() - current_node_idx,
        {
            let ghost path = visited_nodes@;
            current_node_idx = self.select(current_node_idx, rng, score);
            visited_nodes.push(current_node_idx);
            proof {
                self.lemma_path_push(path, current_node_idx);
                assert forall|k: int| 0 <= k < visited_nodes@.len() - 1 implies before.chosen(
                    *score,
                    visited_nodes@[k] as int,
                    #[trigger] visited_nodes@[k + 1],
                ) by {
                    if k < path.len() - 1 {
                        assert(visited_nodes@[k] == path[k]);
                        assert(visited_nodes@[k + 1] == path[k + 1]);
                    } else {
                        assert(visited_nodes@[k] == path[k]);
                    }
                }
            }
        }
        let ghost leaf = current_node_idx;
        let ghost descent = visited_nodes@;
        proof {
            if before.node(0).kids().len() == 0 && descent.len() >= 2 {
                assert(before.node(descent[0int] as int).kids().contains(descent[0int + 1]));
            }
        }
        let verdict = if let Some(outcome) = self.nodes[current_node_idx].state.outcome() {
            proof {
                assert(crate::game::is_play::<P, A, G>(seq![self.node(leaf as int).position()]));
            }
            outcome
        } else {
            let actions = self.nodes[current_node_idx].state.actions();
            if actions.len() == 0 {
                proof {
                    assert(crate::game::is_play::<P, A, G>(
                        seq![self.node(leaf as int).position()],
                    ));
                }
                Outcome::Escape("No actions available".to_string())
            } else {
                let ghost path = visited_nodes@;
                self.grow(current_node_idx, actions, rng);
                let new_node_idx = self.select(current_node_idx, rng, score);
                visited_nodes.push(new_node_idx);
                proof {
                    self.lemma_path_in_grown(&before, path);
                    self.lemma_path_push(path, new_node_idx);
                    assert(visited_nodes@[visited_nodes@.len() - 2] == leaf);
                    let k = choose|k: int|
                        0 <= k < self.node(leaf as int).kids().len() && self.node(
                            leaf as int,
                        ).kids()[k] == new_node_idx;
                    assert(self.node(before.len() + k).kids().len() == 0);
                    if leaf != 0 {
                        assert(self.node(0) == before.node(0));
                    }
                }
                random_rollout(&self.nodes[new_node_idx].state, rng)
            }
        };
        let ghost grown = *self;
        self.backpropagate(&visited_nodes, &verdict);
        proof {
            let path = visited_nodes@;
            assert forall|k: int| 0 <= k < path.len() - 1 implies if (#[trigger] path[k + 1])
                < before.len() {
                before.chosen(*score, path[k] as int, path[k + 1])
            } else {
                grown.chosen(*score, path[k] as int, path[k + 1])
            } by {
                if k < descent.len() - 1 {
                    assert(path[k] == descent[k]);
                    assert(path[k + 1] == descent[k + 1]);
                    assert(descent[k + 1] < before.len());
                } else {
                    assert(path[k] == leaf);
                }
            }
            assert(self.searched_once(&before, &grown, *score, path, verdict@));
            assert(path[0] == 0);
            assert(path.contains(0usize));
            assert(self.backed_up_at(&grown, path, verdict@, seq![path.last()], 0));
            if before.can_grow(0) {
                assert(before.expanded_in_order(0));
                if before.node(0).kids().len() == 0 {
                    assert(leaf == 0);
                    assert(grown.grown_from(&before, 0));
                } else {
                    assert(leaf != 0);
                    assert(grown.node(0) == before.node(0));
                }
            }
        }
    }

    /// Runs [`Self::search`] `iterations` times.
    pub fn search_n<F: Fn(u64, u64, u64, u32) -> u64>(
        &mut self,
        rng: &mut Pcg64,
        iterations: usize,
        score: &F,
    )
        requires
            obeys_concrete_eq::<P>(),
            clones_exactly::<A>(),
            old(self).wf(),
            old(self).node(0).visits() + iterations <= u64::MAX,
            forall|value: u64, visits: u64, parent_visits: u64, noise: u32|
                call_requires(*score, (value, visits, parent_visits, noise)),
        ensures
            final(self).wf(),
            final(self).reached_by(old(self), *score, iterations as nat),
            final(self).len() >= old(self).len(),
            final(self).node(0).visits() == old(self).node(0).visits() + iterations,
            final(self).node(0).position() == old(self).node(0).position(),
            iterations > 0 && old(self).can_grow(0) ==> final(self).node(0).kids().len()
                == old(self).moves_at(0).len(),
    {
        let ghost before = *self;
        let mut done: usize = 0;
        while done < iterations
            invariant
                obeys_concrete_eq::<P>(),
                clones_exactly::<A>(),
                forall|value: u64, visits: u64, parent_visits: u64, noise: u32|
                    call_requires(*score, (value, visits, parent_visits, noise)),
                done <= iterations,
                before.node(0).visits() + iterations <= u64::MAX,
                self.wf(),
                self.reached_by(&before, *score, done as nat),
                self.len() >= before.len(),
                self.node(0).visits() == before.node(0).visits() + done,
                self.node(0).position() == before.node(0).position(),
                done > 0 && before.can_grow(0) ==> self.node(0).kids().len()
                    == before.moves_at(0).len(),
            decreases iterations - done,
        {
            let ghost previous = *self;
            self.search(rng, score);
            done += 1;
            proof {
                let searches = done as nat;
                assert(previous.reached_by(&before, *score, (searches - 1) as nat));
                assert(self.searched_from(&previous, *score));
                assert(self.reached_by(&before, *score, searches));
            }
        }
    }
}

/// The number by which wins are divided for the mean: the visits, or 1 for a
/// node without visits, whose mean is thereby 0.
pub open spec fn mean_divisor(visits: u64) -> int {
    if visits == 0 {
        1
    } else {
        visits as int
    }
}

/// Whether the mean reward of a node with `wins1` wins in `visits1` visits
/// is greater than that of a node with `wins2` wins in `visits2` visits. The
/// two fractions are compared exactly.
pub open spec fn mean_exceeds(wins1: u64, visits1: u64, wins2: u64, visits2: u64) -> bool {
    wins1 * mean_divisor(visits2) > wins2 * mean_divisor(visits1)
}

/// If a first mean is no greater than a second, and a third is greater than
/// the second, the third is greater than the first.
proof fn lemma_mean_order(w1: u64, v1: u64, w2: u64, v2: u64, w3: u64, v3: u64)
    requires
        !mean_exceeds(w1, v1, w2, v2),
        mean_exceeds(w3, v3, w2, v2),
    ensures
        mean_exceeds(w3, v3, w1, v1),
{
    let d1 = mean_divisor(v1);
    let d2 = mean_divisor(v2);
    let d3 = mean_divisor(v3);
    let a1 = w1 as int;
    let a2 = w2 as int;
    let a3 = w3 as int;
    assert(a3 * d1 > a1 * d3) by (nonlinear_arith)
        requires
            a1 * d2 <= a2 * d1,
            a3 * d2 > a2 * d3,
            d1 >= 1,
            d2 >= 1,
            d3 >= 1,
            a1 >= 0,
            a2 >= 0,
            a3 >= 0,
    {
        assert(a1 * d2 * d3 <= a2 * d1 * d3);
        assert(a3 * d2 * d1 > a2 * d3 * d1);
        assert(a2 * d1 * d3 == a2 * d3 * d1);
        assert((a3 * d1 - a1 * d3) * d2 > 0);
    }
}

/// Whether the mean of `wins1` in `visits1` is greater than that of `wins2`
/// in `visits2`.
fn mean_is_greater(wins1: u64, visits1: u64, wins2: u64, visits2: u64) -> (r: bool)
    ensures
        r == mean_exceeds(wins1, visits1, wins2, visits2),
{
    let divisor1: u128 = if visits1 == 0 {
        1
    } else {
        visits1 as u128
    };
    let divisor2: u128 = if visits2 == 0 {
        1
    } else {
        visits2 as u128
    };
    let wide1: u128 = wins1 as u128;
    let wide2: u128 = wins2 as u128;
    assert(wide1 * divisor2 <= 0xFFFF_FFFF_FFFF_FFFF * 0xFFFF_FFFF_FFFF_FFFF) by (nonlinear_arith)
        requires
            0 <= wide1 <= 0xFFFF_FFFF_FFFF_FFFF,
            0 <= divisor2 <= 0xFFFF_FFFF_FFFF_FFFF,
    ;
    assert(wide2 * divisor1 <= 0xFFFF_FFFF_FFFF_FFFF * 0xFFFF_FFFF_FFFF_FFFF) by (nonlinear_arith)
        requires
            0 <= wide2 <= 0xFFFF_FFFF_FFFF_FFFF,
            0 <= divisor1 <= 0xFFFF_FFFF_FFFF_FFFF,
    ;
    wide1 * divisor2 > wide2 * divisor1
}

impl<P, A, G: Mcts<P, A>> VecTree<P, A, G> {
    /// Whether child `k1` of the root has the greater mean reward for the
    /// searching player than child `k2`.
    pub open spec fn child_exceeds(&self, k1: int, k2: int) -> bool {
        let c1 = self.node(0).kids()[k1] as int;
        let c2 = self.node(0).kids()[k2] as int;
        mean_exceeds(
            self.searcher_reward(c1),
            self.node(c1).visits(),
            self.searcher_reward(c2),
            self.node(c2).visits(),
        )
    }

    /// Move `j` of the root state is the best: of the children of the root,
    /// child `j` has the greatest mean reward for the searching player, and it
    /// is the first that has it.
    pub open spec fn is_best_move(&self, j: int) -> bool {
        &&& 0 <= j < self.node(0).kids().len()
        &&& forall|k: int| 0 <= k < self.node(0).kids().len() ==> !#[trigger] self.child_exceeds(k, j)
        &&& forall|k: int| 0 <= k < j ==> #[trigger] self.child_exceeds(j, k)
    }
}

impl<P: PartialEq, A: Clone, G: Mcts<P, A>> VecTree<P, A, G> {
    /// The move to play: the one whose child of the root has the greatest
    /// mean reward (wins by visits) for the player to move at the root; among
    /// equals, the first. `None` while the root has no children.
    pub fn best_action(&self) -> (best: Option<A>)
        requires
            clones_exactly::<A>(),
            self.wf(),
        ensures
            match best {
                None => self.node(0).kids().len() == 0,
                Some(action) => exists|j: int| #[trigger]
                    self.is_best_move(j) && action == self.node(0).position().legal_actions()[j],
            },
    {
        let root = &self.nodes[0];
        if root.children.len() == 0 {
            return None;
        }
        proof {
            assert(self.linked_at(0));
            assert(self.expanded_in_order(0));
        }
        let mut best: usize = 0;
        let mut k: usize = 1;
        while k < root.children.len()
            invariant
                self.wf(),
                *root == self.node(0),
                root.children@ == self.node(0).kids(),
                0 <= best < k <= root.children@.len(),
                forall|i: int| 0 <= i < k ==> !#[trigger] self.child_exceeds(i, best as int),
                forall|i: int| 0 <= i < best ==> #[trigger] self.child_exceeds(best as int, i),
            decreases root.children@.len() - k,
        {
            proof {
                assert(self.linked_at(0));
                assert(0 < self.node(0).kids()[k as int] < self.len());
                assert(0 < self.node(0).kids()[best as int] < self.len());
                assert(self.counted_at(self.node(0).kids()[k as int] as int));
                assert(self.counted_at(self.node(0).kids()[best as int] as int));
            }
            let candidate = &self.nodes[root.children[k]];
            let leader = &self.nodes[root.children[best]];
            let candidate_value = match self.root_place {
                Some(slot) => candidate.value[slot],
                None => 0,
            };
            let leader_value = match self.root_place {
                Some(slot) => leader.value[slot],
                None => 0,
            };
            if mean_is_greater(
                candidate_value,
                candidate.num_visits,
                leader_value,
                leader.num_visits,
            ) {
                proof {
                    assert(self.child_exceeds(k as int, best as int));
                    assert forall|i: int| 0 <= i < k + 1 implies !#[trigger] self.child_exceeds(
                        i,
                        k as int,
                    ) by {
                        if i < k {
                            assert(!self.child_exceeds(i, best as int));
                            self.lemma_child_order(i, best as int, k as int);
                        }
                    }
                    assert forall|i: int| 0 <= i < k implies #[trigger] self.child_exceeds(
                        k as int,
                        i,
                    ) by {
                        assert(!self.child_exceeds(i, best as int));
                        self.lemma_child_order(i, best as int, k as int);
                    }
                }
                best = k;
            } else {
                proof {
                    assert(!self.child_exceeds(k as int, best as int));
                }
            }
            k += 1;
        }
        proof {
            assert(self.is_best_move(best as int));
        }
        let actions = root.state.actions();
        let action = copy_of(&actions[best]);
        Some(action)
    }
}

impl<P, A, G: Mcts<P, A>> VecTree<P, A, G> {
    /// If child `k1` of the root is no better than child `k2`, and child `k3`
    /// is better than child `k2`, then `k3` is better than `k1`, and `k1` is no
    /// better than `k3`.
    proof fn lemma_child_order(&self, k1: int, k2: int, k3: int)
        requires
            !self.child_exceeds(k1, k2),
            self.child_exceeds(k3, k2),
        ensures
            self.child_exceeds(k3, k1),
            !self.child_exceeds(k1, k3),
    {
        let c1 = self.node(0).kids()[k1] as int;
        let c2 = self.node(0).kids()[k2] as int;
        let c3 = self.node(0).kids()[k3] as int;
        lemma_mean_order(
            self.searcher_reward(c1),
            self.node(c1).visits(),
            self.searcher_reward(c2),
            self.node(c2).visits(),
            self.searcher_reward(c3),
            self.node(c3).visits(),
        );
        let a1 = self.searcher_reward(c1) as int;
        let a3 = self.searcher_reward(c3) as int;
        let d1 = mean_divisor(self.node(c1).visits());
        let d3 = mean_divisor(self.node(c3).visits());
        assert(a3 * d1 > a1 * d3);
    }
}

impl<P, A, G: Mcts<P, A>> VecTree<P, A, G> {
    /// A search keeps the tree well formed, however it ends. The nodes stay a
    /// tree, no player has more wins at a node than the node has visits, and
    /// the visits of every node are those of its children plus the searches
    /// that ended at the node. The root has one visit more.
    pub proof fn lemma_searched_wf<F: Fn(u64, u64, u64, u32) -> u64>(
        &self,
        before: &Self,
        score: F,
    )
        requires
            before.wf(),
            self.searched_from(before, score),
        ensures
            self.wf(),
            self.len() >= before.len(),
            self.node(0).visits() == before.node(0).visits() + 1,
            self.node(0).position() == before.node(0).position(),
    {
        let (grown, path, verdict) = choose|
            grown: Self,
            path: Seq<usize>,
            verdict: OutcomeView<P>,
        | #[trigger] self.searched_once(before, &grown, score, path, verdict);
        self.lemma_backed_up_wf(&grown, path, verdict);
        assert(path[0] == 0);
        assert(path.contains(0usize));
        assert(self.backed_up_at(&grown, path, verdict, seq![path.last()], 0));
        if grown != *before {
            let leaf = path[path.len() - 2];
            assert(grown.partly_grown_from(
                before,
                leaf,
                before.node(leaf as int).position().legal_actions().len() as int,
            ));
            if leaf != 0 {
                assert(grown.node(0) == before.node(0));
            }
        }
    }

    /// Any number of searches keep the tree well formed, and the root has as
    /// many visits more as searches were made.
    pub proof fn lemma_reached_wf<F: Fn(u64, u64, u64, u32) -> u64>(
        &self,
        start: &Self,
        score: F,
        searches: nat,
    )
        requires
            start.wf(),
            self.reached_by(start, score, searches),
        ensures
            self.wf(),
            self.len() >= start.len(),
            self.node(0).visits() == start.node(0).visits() + searches,
            self.node(0).position() == start.node(0).position(),
        decreases searches,
    {
        if searches > 0 {
            let previous = choose|previous: Self|
                previous.reached_by(start, score, (searches - 1) as nat)
                    && #[trigger] self.searched_from(&previous, score);
            previous.lemma_reached_wf(start, score, (searches - 1) as nat);
            self.lemma_searched_wf(&previous, score);
        }
    }

    /// A child that has not been visited is tried before any that has: where
    /// selection picks child `j` and some child has no visits, child `j` has
    /// none and is the first such child.
    pub proof fn lemma_unvisited_first<F: Fn(u64, u64, u64, u32) -> u64>(
        &self,
        score: F,
        i: int,
        keys: Seq<Option<u64>>,
        j: int,
        k: int,
    )
        requires
            self.selects(score, i, keys, j),
            0 <= k < self.node(i).kids().len(),
            self.node(self.node(i).kids()[k] as int).visits() == 0,
        ensures
            self.node(self.node(i).kids()[j] as int).visits() == 0,
            j <= k,
    {
        assert(self.is_selection_key(score, self.node(i).kids()[k] as int, keys[k]));
        assert(self.is_selection_key(score, self.node(i).kids()[j] as int, keys[j]));
        assert(!key_exceeds(keys[k], keys[j]));
        if k < j {
            assert(key_exceeds(keys[j], keys[k]));
        }
    }

    /// A node is expanded once: a search leaves the children of a node that
    /// has children as they are. And a node in whose state the game is over
    /// is never expanded.
    pub proof fn lemma_expanded_once<F: Fn(u64, u64, u64, u32) -> u64>(
        &self,
        before: &Self,
        score: F,
        i: int,
    )
        requires
            before.wf(),
            self.searched_from(before, score),
            0 <= i < before.len(),
        ensures
            before.node(i).kids().len() > 0 ==> self.node(i).kids() == before.node(i).kids(),
            self.node(i).position() == before.node(i).position(),
            self.node(i).position().result() is Some ==> self.node(i).kids().len() == 0,
    {
        let (grown, path, verdict) = choose|
            grown: Self,
            path: Seq<usize>,
            verdict: OutcomeView<P>,
        | #[trigger] self.searched_once(before, &grown, score, path, verdict);
        assert(before.expanded_in_order(i));
        if grown != *before {
            let leaf = path[path.len() - 2];
            assert(grown.partly_grown_from(
                before,
                leaf,
                before.node(leaf as int).position().legal_actions().len() as int,
            ));
            if i != leaf {
                assert(grown.node(i) == before.node(i));
            }
        }
        assert(self.backed_up_at(&grown, path, verdict, seq![path.last()], i));
        assert(grown.expanded_in_order(i));
    }

    /// How many nodes the tree holds.
    pub fn node_count(&self) -> (count: usize)
        ensures
            count == self.len(),
    {
        self.nodes.len()
    }

    /// The node at `node_idx`.
    pub fn get(&self, node_idx: usize) -> (node: &VecTreeNode<P, A, G>)
        requires
            node_idx < self.len(),
        ensures
            *node == self.node(node_idx as int),
    {
        &self.nodes[node_idx]
    }

    /// The visits of a node are those of its children and the searches that
    /// ended at the node itself. So the visits of the root are the searches
    /// that were made, each of which ended at one node.
    pub proof fn lemma_visits_balance(&self, i: int)
        requires
            self.wf(),
            0 <= i < self.len(),
        ensures
            self.node(i).visits() == self.visits_among(self.node(i).kids()) + self.node(i).stops(),
    {
        assert(self.counted_at(i));
    }

    /// At no node has a player more wins than the node has visits.
    pub proof fn lemma_reward_bounded(&self, i: int, j: int)
        requires
            self.wf(),
            0 <= i < self.len(),
            0 <= j < self.roster().len(),
        ensures
            self.node(i).rewards().len() == self.roster().len(),
            0 <= self.node(i).rewards()[j] <= self.node(i).visits(),
    {
        assert(self.counted_at(i));
    }

    /// Every node but the root is the child of exactly one node: its parent
    /// lists it, at one place only, and no other node lists it.
    pub proof fn lemma_one_parent(&self, c: int)
        requires
            self.wf(),
            1 <= c < self.len(),
        ensures
            self.node(c).parent() is Some,
            self.node(c).parent()->Some_0 < c,
            exists|k: int|
                0 <= k < self.node(self.node(c).parent()->Some_0 as int).kids().len() && self.node(
                    self.node(c).parent()->Some_0 as int,
                ).kids()[k] == c,
            forall|i: int, k: int|
                0 <= i < self.len() && 0 <= k < self.node(i).kids().len() && #[trigger] self.node(
                    i,
                ).kids()[k] == c ==> Some(i as usize) == self.node(c).parent(),
            forall|i: int, k1: int, k2: int|
                0 <= i < self.len() && 0 <= k1 < self.node(i).kids().len() && 0 <= k2 < self.node(
                    i,
                ).kids().len() && #[trigger] self.node(i).kids()[k1] == c && #[trigger] self.node(
                    i,
                ).kids()[k2] == c ==> k1 == k2,
    {
        assert(self.linked_at(c));
        assert forall|i: int, k: int|
            0 <= i < self.len() && 0 <= k < self.node(i).kids().len() && #[trigger] self.node(
                i,
            ).kids()[k] == c implies Some(i as usize) == self.node(c).parent() by {
            assert(self.linked_at(i));
        }
        assert forall|i: int, k1: int, k2: int|
            0 <= i < self.len() && 0 <= k1 < self.node(i).kids().len() && 0 <= k2 < self.node(
                i,
            ).kids().len() && #[trigger] self.node(i).kids()[k1] == c && #[trigger] self.node(
                i,
            ).kids()[k2] == c implies k1 == k2 by {
            assert(self.linked_at(i));
            if k1 < k2 {
                assert(self.node(i).kids()[k1] < self.node(i).kids()[k2]);
            }
            if k2 < k1 {
                assert(self.node(i).kids()[k2] < self.node(i).kids()[k1]);
            }
        }
    }
}

/// Searches `game` with `num_simulations` searches from a fresh tree and
/// returns the move with the greatest mean reward for the player to move (see
/// [`VecTree::search`] and [`VecTree::best_action`]). The tree is dropped.
///
/// `score` rates a child during selection: from the wins of the searching
/// player at the child, the child's visits, its parent's visits and a random
/// number it makes a number that is greater for a child that should be tried
/// sooner.
///
/// The game must not be over, there must be a legal move, and at least one
/// search must be made.
pub fn mcts<P, A, G, F>(game: &G, rng: &mut Pcg64, num_simulations: usize, score: &F) -> (action:
    A) where P: PartialEq, A: Clone, G: Mcts<P, A>, F: Fn(u64, u64, u64, u32) -> u64
    requires
        obeys_concrete_eq::<P>(),
        clones_exactly::<A>(),
        clones_exactly::<G>(),
        game.result() is None,
        game.legal_actions().len() > 0,
        num_simulations > 0,
        forall|value: u64, visits: u64, parent_visits: u64, noise: u32|
            call_requires(*score, (value, visits, parent_visits, noise)),
    ensures
        exists|start: VecTree<P, A, G>, tree: VecTree<P, A, G>, j: int|
            {
                &&& start.is_fresh(*game)
                &&& #[trigger] tree.reached_by(&start, *score, num_simulations as nat)
                &&& #[trigger] tree.is_best_move(j)
                &&& action == game.legal_actions()[j]
            },
        game.legal_actions().contains(action),
        game.legal_actions().len() == 1 ==> action == game.legal_actions()[0],
{
    let mut tree = VecTree::from_state(copy_of(game));
    let ghost start = tree;
    tree.search_n(rng, num_simulations, score);
    let best = tree.best_action();
    proof {
        assert(tree.expanded_in_order(0));
    }
    best.unwrap()
}

} // verus!
