//! The graph of self-play: the states that games of self-play went through,
//! and the moves that led from one to the next.
//!
//! A state is recorded once, however often it is met, and so is a move
//! between two states; an edge counts how often its move was made.

use crate::game::clones_exactly;
use crate::game::copy_of;
use crate::game::Determinable;
use crate::game::Initializer;
use crate::game::Mcts;
use crate::ismcts::is_choice;
use crate::ismcts::ismcts_mt;
use crate::ismcts::ISMCTSParams;
use crate::ismcts::ISMCTSPlayerParams;
use crate::random::seed_from_u64;
use crate::tally::position;
use crate::tally::stands_at;
use crate::topology::add_edge;
use crate::topology::add_node;
use crate::topology::connecting;
use crate::topology::edge_slots;
use crate::topology::joins;
use crate::topology::new_graph;
use crate::topology::node_slots;
use crate::topology::INDEX_LIMIT;
use petgraph::stable_graph::StableGraph;
use vstd::laws_eq::obeys_concrete_eq;
use vstd::prelude::*;

verus! {

/// What a node of the graph holds.
#[derive(Clone, Eq, PartialEq)]
pub struct GraphNode<S: Clone + Eq + PartialEq> {
    /// The game state.
    pub state: S,
    /// The game of self-play that first came to the state.
    pub sim_index: usize,
    /// How many moves that game had made when it came to the state.
    pub step_index: usize,
}

/// What an edge of the graph holds.
#[derive(Clone, Eq, PartialEq)]
pub struct GraphEdge<A: Clone + Eq + PartialEq> {
    /// How often the move was made between the two states.
    pub count: usize,
    /// The move.
    pub action: A,
}

/// An edge as the contracts see it: the nodes it joins, by their place among
/// the nodes, the move, and how often it was made.
pub struct EdgeView<A> {
    pub source: int,
    pub target: int,
    pub action: A,
    pub count: nat,
}

/// A self-play graph as the contracts see it.
pub struct GraphView<G: Clone + Eq + PartialEq, A> {
    /// The nodes, in the order in which they were added.
    pub nodes: Seq<GraphNode<G>>,
    /// The edges, in the order in which they were added.
    pub edges: Seq<EdgeView<A>>,
    /// For each node, how often a game came to its state.
    pub passes: Seq<nat>,
    /// How often a game came to any state: the states that were recorded,
    /// those that were met again included.
    pub arrivals: nat,
}

/// The numbers in `counts`, added up.
pub open spec fn total(counts: Seq<nat>) -> nat
    decreases counts.len(),
{
    if counts.len() == 0 {
        0
    } else {
        total(counts.drop_last()) + counts.last()
    }
}

/// One more at one place is one more in all.
proof fn lemma_total_bumped(counts: Seq<nat>, i: int)
    requires
        0 <= i < counts.len(),
    ensures
        total(counts.update(i, counts[i] + 1)) == total(counts) + 1,
    decreases counts.len(),
{
    let after = counts.update(i, counts[i] + 1);
    if i == counts.len() - 1 {
        assert(after.drop_last() == counts.drop_last());
    } else {
        assert(after.drop_last() == counts.drop_last().update(i, counts[i] + 1));
        lemma_total_bumped(counts.drop_last(), i);
    }
}

/// A number at the end adds itself.
proof fn lemma_total_push(counts: Seq<nat>, count: nat)
    ensures
        total(counts.push(count)) == total(counts) + count,
{
    assert(counts.push(count).drop_last() == counts);
}

/// No part is above the whole.
proof fn lemma_total_bounds(counts: Seq<nat>, i: int)
    requires
        0 <= i < counts.len(),
    ensures
        counts[i] <= total(counts),
    decreases counts.len(),
{
    if i < counts.len() - 1 {
        lemma_total_bounds(counts.drop_last(), i);
    }
}

impl<G: Clone + Eq + PartialEq, A> GraphView<G, A> {
    /// Whether node `i` holds `state`.
    pub open spec fn holds(self, i: int, state: G) -> bool {
        0 <= i < self.nodes.len() && self.nodes[i].state == state
    }

    /// Whether some node holds `state`.
    pub open spec fn knows(self, state: G) -> bool {
        exists|i: int| self.holds(i, state)
    }

    /// The node that holds `state`, for a state that some node holds.
    pub open spec fn place_of(self, state: G) -> int {
        choose|i: int| self.holds(i, state)
    }

    /// Whether edge `k` leads from node `source` to node `target` by `action`.
    pub open spec fn links(self, k: int, source: int, target: int, action: A) -> bool {
        &&& 0 <= k < self.edges.len()
        &&& self.edges[k].source == source
        &&& self.edges[k].target == target
        &&& self.edges[k].action == action
    }

    /// Whether some edge leads from node `source` to node `target` by
    /// `action`.
    pub open spec fn linked(self, source: int, target: int, action: A) -> bool {
        exists|k: int| self.links(k, source, target, action)
    }

    /// The edge that leads from `source` to `target` by `action`, where there
    /// is one.
    pub open spec fn link_of(self, source: int, target: int, action: A) -> int {
        choose|k: int| self.links(k, source, target, action)
    }

    /// How often a move was made from node `i`, over the first `upto` edges:
    /// the counts of those of them that leave the node, added up.
    pub open spec fn departures(self, i: int, upto: int) -> nat
        decreases upto,
    {
        if upto <= 0 {
            0
        } else {
            self.departures(i, upto - 1) + if self.edges[upto - 1].source == i {
                self.edges[upto - 1].count
            } else {
                0
            }
        }
    }

    /// How often a move was made from node `i`: the counts of the edges that
    /// leave it, added up.
    pub open spec fn out_count(self, i: int) -> nat {
        self.departures(i, self.edges.len() as int)
    }

    /// Whether nothing more can be recorded: the nodes, the edges or the
    /// arrivals have reached the greatest number that can be counted.
    pub open spec fn is_full(self) -> bool {
        ||| self.nodes.len() >= INDEX_LIMIT
        ||| self.edges.len() >= INDEX_LIMIT
        ||| self.arrivals >= usize::MAX
    }

    /// The graph without nodes and edges.
    pub open spec fn empty() -> Self {
        GraphView { nodes: Seq::empty(), edges: Seq::empty(), passes: Seq::empty(), arrivals: 0 }
    }

    /// Whether an edge leads from node `source` to node `target`.
    pub open spec fn joined(self, source: int, target: int) -> bool {
        exists|k: int|
            0 <= k < self.edges.len() && (#[trigger] self.edges[k]).source == source
                && self.edges[k].target == target
    }

    /// `walk` goes through the graph along its edges, from each node to the
    /// next.
    pub open spec fn is_walk(self, walk: Seq<int>) -> bool {
        &&& walk.len() >= 1
        &&& forall|m: int| 0 <= m < walk.len() ==> 0 <= #[trigger] walk[m] < self.nodes.len()
        &&& forall|m: int|
            0 <= m < walk.len() - 1 ==> self.joined(walk[m], #[trigger] walk[m + 1])
    }

    /// Whether node `to` can be reached from node `from` along edges.
    pub open spec fn reaches(self, from: int, to: int) -> bool {
        exists|walk: Seq<int>| #[trigger] self.is_walk(walk) && walk[0] == from && walk.last() == to
    }

    /// `self` holds all that `earlier` holds: the same nodes at the same
    /// places, and the same edges between them; it may hold more.
    pub open spec fn extends(self, earlier: Self) -> bool {
        &&& self.nodes.len() >= earlier.nodes.len()
        &&& forall|i: int|
            0 <= i < earlier.nodes.len() ==> #[trigger] self.nodes[i] == earlier.nodes[i]
        &&& self.edges.len() >= earlier.edges.len()
        &&& forall|k: int|
            0 <= k < earlier.edges.len() ==> (#[trigger] self.edges[k]).source
                == earlier.edges[k].source && self.edges[k].target == earlier.edges[k].target
    }

    /// What can be reached in a graph can be reached in one that extends it.
    proof fn lemma_extends_reaches(self, earlier: Self, from: int, to: int)
        requires
            self.extends(earlier),
            earlier.reaches(from, to),
        ensures
            self.reaches(from, to),
    {
        let walk = choose|walk: Seq<int>|
            #[trigger] earlier.is_walk(walk) && walk[0] == from && walk.last() == to;
        assert forall|m: int| 0 <= m < walk.len() - 1 implies self.joined(
            walk[m],
            #[trigger] walk[m + 1],
        ) by {
            assert(earlier.joined(walk[m], walk[m + 1]));
            let k = choose|k: int|
                0 <= k < earlier.edges.len() && (#[trigger] earlier.edges[k]).source == walk[m]
                    && earlier.edges[k].target == walk[m + 1];
            assert(self.edges[k].source == earlier.edges[k].source);
        }
        assert(self.is_walk(walk));
    }

    /// One more step along an edge reaches the node at its end.
    proof fn lemma_reaches_on(self, from: int, to: int, next: int)
        requires
            self.reaches(from, to),
            self.joined(to, next),
            0 <= next < self.nodes.len(),
        ensures
            self.reaches(from, next),
    {
        let walk = choose|walk: Seq<int>|
            #[trigger] self.is_walk(walk) && walk[0] == from && walk.last() == to;
        let longer = walk.push(next);
        assert forall|m: int| 0 <= m < longer.len() implies 0 <= #[trigger] longer[m]
            < self.nodes.len() by {
            if m < walk.len() {
                assert(longer[m] == walk[m]);
            }
        }
        assert forall|m: int| 0 <= m < longer.len() - 1 implies self.joined(
            longer[m],
            #[trigger] longer[m + 1],
        ) by {
            assert(longer[m] == walk[m]);
            if m < walk.len() - 1 {
                assert(longer[m + 1] == walk[m + 1]);
            }
        }
        assert(self.is_walk(longer));
        assert(longer[0] == walk[0]);
    }

    /// Recording a state and a move extends the graph, and the move joins
    /// the two nodes.
    proof fn lemma_move_extends(
        self,
        next: G,
        sim_index: usize,
        step_index: usize,
        source: int,
        action: A,
    )
        requires
            0 <= source < self.nodes.len(),
        ensures
            self.with_state(next, sim_index, step_index).with_action(
                source,
                self.place_with(next),
                action,
            ).extends(self),
            self.with_state(next, sim_index, step_index).with_action(
                source,
                self.place_with(next),
                action,
            ).joined(source, self.place_with(next)),
            self.with_state(next, sim_index, step_index).with_action(
                source,
                self.place_with(next),
                action,
            ).holds(self.place_with(next), next),
            self.with_state(next, sim_index, step_index).with_action(
                source,
                self.place_with(next),
                action,
            ).nodes.len() <= self.nodes.len() + 1,
    {
        let middle = self.with_state(next, sim_index, step_index);
        let target = self.place_with(next);
        let after = middle.with_action(source, target, action);
        if self.knows(next) {
            assert(self.holds(self.place_of(next), next));
        }
        assert(after.nodes == middle.nodes);
        assert forall|i: int| 0 <= i < self.nodes.len() implies #[trigger] after.nodes[i]
            == self.nodes[i] by {
            assert(middle.nodes[i] == self.nodes[i]);
        }
        if middle.linked(source, target, action) {
            let k = middle.link_of(source, target, action);
            assert(middle.links(k, source, target, action));
            assert(after.edges[k].source == source);
        } else {
            assert(after.edges[middle.edges.len() as int].source == source);
        }
    }

    /// How often a move was made at all: the counts of all edges, added up.
    pub open spec fn moves(self) -> nat {
        total(self.edges.map(|k: int, edge: EdgeView<A>| edge.count))
    }

    /// The graph after a game came to `state`, as move `step_index` of game
    /// `sim_index`. A state that a node holds already is not added again, and
    /// the node keeps what it says of the first game that came to it. Either
    /// way the node has one more pass.
    pub open spec fn with_state(self, state: G, sim_index: usize, step_index: usize) -> Self {
        if self.knows(state) {
            let i = self.place_of(state);
            GraphView {
                passes: self.passes.update(i, self.passes[i] + 1),
                arrivals: self.arrivals + 1,
                ..self
            }
        } else {
            GraphView {
                nodes: self.nodes.push(GraphNode { state, sim_index, step_index }),
                passes: self.passes.push(1),
                arrivals: self.arrivals + 1,
                ..self
            }
        }
    }

    /// The node that holds `state` once a game has come to it: the node that
    /// held it before, or the new node at the end.
    pub open spec fn place_with(self, state: G) -> int {
        if self.knows(state) {
            self.place_of(state)
        } else {
            self.nodes.len() as int
        }
    }

    /// The graph after `action` was made from node `source` to node `target`.
    /// If an edge between the two with that move is there, it counts one more;
    /// else a new edge with count 1 is added at the end.
    pub open spec fn with_action(self, source: int, target: int, action: A) -> Self {
        if self.linked(source, target, action) {
            let k = self.link_of(source, target, action);
            GraphView {
                edges: self.edges.update(
                    k,
                    EdgeView { count: self.edges[k].count + 1, ..self.edges[k] },
                ),
                ..self
            }
        } else {
            GraphView {
                edges: self.edges.push(EdgeView { source, target, action, count: 1 }),
                ..self
            }
        }
    }

    /// What holds of every graph that self-play builds. No two nodes hold the
    /// same state. Every edge joins two nodes and was used at least once, and
    /// no two edges join the same nodes in the same direction by the same
    /// move. No more moves were made from a node than games came to it, and
    /// the passes of the nodes add up to the arrivals.
    pub open spec fn well_formed(self) -> bool {
        &&& self.passes.len() == self.nodes.len()
        &&& total(self.passes) == self.arrivals
        &&& forall|i: int, j: int|
            0 <= i < j < self.nodes.len() ==> (#[trigger] self.nodes[i]).state != (
            #[trigger] self.nodes[j]).state
        &&& forall|k: int|
            0 <= k < self.edges.len() ==> {
                &&& 0 <= (#[trigger] self.edges[k]).source < self.nodes.len()
                &&& 0 <= self.edges[k].target < self.nodes.len()
                &&& self.edges[k].count >= 1
            }
        &&& forall|k1: int, k2: int|
            0 <= k1 < k2 < self.edges.len() ==> !({
                &&& (#[trigger] self.edges[k1]).source == (#[trigger] self.edges[k2]).source
                &&& self.edges[k1].target == self.edges[k2].target
                &&& self.edges[k1].action == self.edges[k2].action
            })
        &&& forall|i: int| 0 <= i < self.nodes.len() ==> self.out_count(i) <= #[trigger] self.passes[i]
    }

    /// Two nodes that hold equal states are one node.
    pub proof fn lemma_equal_states_share_node(self, i: int, j: int)
        requires
            self.well_formed(),
            0 <= i < self.nodes.len(),
            0 <= j < self.nodes.len(),
            self.nodes[i].state == self.nodes[j].state,
        ensures
            i == j,
    {
        if i < j {
            assert(self.nodes[i].state != self.nodes[j].state);
        }
        if j < i {
            assert(self.nodes[j].state != self.nodes[i].state);
        }
    }

    /// The counts of the edges that leave a node add up to no more than the
    /// number of times a game came to the node.
    pub proof fn lemma_departures_within_passes(self, i: int)
        requires
            self.well_formed(),
            0 <= i < self.nodes.len(),
        ensures
            self.out_count(i) <= self.passes[i],
    {
    }

    /// Two graphs with the same edges count the same departures.
    proof fn lemma_departures_same(self, other: Self, i: int, upto: int)
        requires
            0 <= upto <= self.edges.len(),
            upto <= other.edges.len(),
            forall|k: int| 0 <= k < upto ==> #[trigger] self.edges[k] == other.edges[k],
        ensures
            self.departures(i, upto) == other.departures(i, upto),
        decreases upto,
    {
        if upto > 0 {
            self.lemma_departures_same(other, i, upto - 1);
            assert(self.edges[upto - 1] == other.edges[upto - 1]);
        }
    }

    /// When edge `k` counts one more, its source has one more departure and
    /// every other node as many as before.
    proof fn lemma_departures_bumped(self, other: Self, k: int, i: int, upto: int)
        requires
            0 <= k < self.edges.len(),
            0 <= upto <= self.edges.len(),
            other.edges == self.edges.update(
                k,
                EdgeView { count: self.edges[k].count + 1, ..self.edges[k] },
            ),
        ensures
            other.departures(i, upto) == self.departures(i, upto) + if k < upto
                && self.edges[k].source == i {
                1nat
            } else {
                0nat
            },
        decreases upto,
    {
        if upto > 0 {
            self.lemma_departures_bumped(other, k, i, upto - 1);
            if upto - 1 != k {
                assert(other.edges[upto - 1] == self.edges[upto - 1]);
            }
        }
    }

    /// An edge counts no more than the departures of its source.
    proof fn lemma_count_within_departures(self, k: int, upto: int)
        requires
            0 <= k < upto <= self.edges.len(),
        ensures
            self.edges[k].count <= self.departures(self.edges[k].source, upto),
        decreases upto,
    {
        if upto - 1 > k {
            self.lemma_count_within_departures(k, upto - 1);
        }
    }

    /// Recording a state keeps the graph well formed.
    pub proof fn lemma_with_state_well_formed(self, state: G, sim_index: usize, step_index: usize)
        requires
            self.well_formed(),
        ensures
            self.with_state(state, sim_index, step_index).well_formed(),
            self.with_state(state, sim_index, step_index).moves() == self.moves(),
            self.with_state(state, sim_index, step_index).holds(self.place_with(state), state),
            self.with_state(state, sim_index, step_index).out_count(self.place_with(state))
                < self.with_state(state, sim_index, step_index).passes[self.place_with(state)],
            forall|i: int|
                0 <= i < self.nodes.len() ==> {
                    &&& #[trigger] self.with_state(state, sim_index, step_index).out_count(i)
                        == self.out_count(i)
                    &&& self.with_state(state, sim_index, step_index).passes[i] >= self.passes[i]
                    &&& self.with_state(state, sim_index, step_index).nodes[i] == self.nodes[i]
                },
    {
        let after = self.with_state(state, sim_index, step_index);
        assert forall|i: int| 0 <= i < self.nodes.len() implies #[trigger] after.out_count(i)
            == self.out_count(i) by {
            self.lemma_departures_same(after, i, self.edges.len() as int);
        }
        if self.knows(state) {
            let i = self.place_of(state);
            assert(self.holds(i, state));
            lemma_total_bumped(self.passes, i);
        } else {
            lemma_total_push(self.passes, 1);
        }
        let place = self.place_with(state);
        assert forall|i: int| 0 <= i < after.nodes.len() implies after.out_count(i)
            <= #[trigger] after.passes[i] by {
            self.lemma_departures_same(after, i, self.edges.len() as int);
            if i < self.nodes.len() {
                assert(self.out_count(i) <= self.passes[i]);
            } else {
                self.lemma_no_departures(i, self.edges.len() as int);
            }
        }
        self.lemma_departures_same(after, place, self.edges.len() as int);
        if self.knows(state) {
            assert(self.out_count(place) <= self.passes[place]);
        } else {
            self.lemma_no_departures(place, self.edges.len() as int);
            assert forall|i: int, j: int| 0 <= i < j < after.nodes.len() implies (
            #[trigger] after.nodes[i]).state != (#[trigger] after.nodes[j]).state by {
                if j == self.nodes.len() {
                    assert(!self.holds(i, state));
                }
            }
        }
    }

    /// A node that no edge leaves has no departures.
    proof fn lemma_no_departures(self, i: int, upto: int)
        requires
            0 <= upto <= self.edges.len(),
            forall|k: int| 0 <= k < self.edges.len() ==> (#[trigger] self.edges[k]).source != i,
        ensures
            self.departures(i, upto) == 0,
        decreases upto,
    {
        if upto > 0 {
            self.lemma_no_departures(i, upto - 1);
        }
    }

    /// Recording a move from a node to which more games came than moves were
    /// made from it keeps the graph well formed. The source has one more
    /// departure, every other node as many as before.
    pub proof fn lemma_with_action_well_formed(self, source: int, target: int, action: A)
        requires
            self.well_formed(),
            0 <= source < self.nodes.len(),
            0 <= target < self.nodes.len(),
            self.out_count(source) < self.passes[source],
        ensures
            self.with_action(source, target, action).well_formed(),
            self.with_action(source, target, action).moves() == self.moves() + 1,
            forall|i: int|
                0 <= i < self.nodes.len() ==> #[trigger] self.with_action(
                    source,
                    target,
                    action,
                ).out_count(i) == self.out_count(i) + if i == source {
                    1nat
                } else {
                    0nat
                },
    {
        let after = self.with_action(source, target, action);
        let n = self.edges.len() as int;
        let counts = self.edges.map(|k: int, edge: EdgeView<A>| edge.count);
        let counts_after = after.edges.map(|k: int, edge: EdgeView<A>| edge.count);
        if self.linked(source, target, action) {
            let k = self.link_of(source, target, action);
            assert(self.links(k, source, target, action));
            assert(counts_after =~= counts.update(k, counts[k] + 1));
            lemma_total_bumped(counts, k);
            assert forall|i: int| 0 <= i < self.nodes.len() implies #[trigger] after.out_count(i)
                == self.out_count(i) + if i == source {
                1nat
            } else {
                0nat
            } by {
                self.lemma_departures_bumped(after, k, i, n);
            }
            assert forall|e: int| 0 <= e < after.edges.len() implies {
                &&& 0 <= (#[trigger] after.edges[e]).source < after.nodes.len()
                &&& 0 <= after.edges[e].target < after.nodes.len()
                &&& after.edges[e].count >= 1
            } by {
                assert(self.edges[e].count >= 1);
            }
            assert forall|k1: int, k2: int| 0 <= k1 < k2 < after.edges.len() implies !({
                &&& (#[trigger] after.edges[k1]).source == (#[trigger] after.edges[k2]).source
                &&& after.edges[k1].target == after.edges[k2].target
                &&& after.edges[k1].action == after.edges[k2].action
            }) by {
                assert(self.edges[k1].source == after.edges[k1].source);
                assert(self.edges[k2].source == after.edges[k2].source);
            }
        } else {
            assert(counts_after =~= counts.push(1));
            lemma_total_push(counts, 1);
            assert forall|i: int| 0 <= i < self.nodes.len() implies #[trigger] after.out_count(i)
                == self.out_count(i) + if i == source {
                1nat
            } else {
                0nat
            } by {
                self.lemma_departures_same(after, i, n);
            }
            assert forall|e: int| 0 <= e < after.edges.len() implies {
                &&& 0 <= (#[trigger] after.edges[e]).source < after.nodes.len()
                &&& 0 <= after.edges[e].target < after.nodes.len()
                &&& after.edges[e].count >= 1
            } by {
                if e < n {
                    assert(self.edges[e].count >= 1);
                }
            }
            assert forall|k1: int, k2: int| 0 <= k1 < k2 < after.edges.len() implies !({
                &&& (#[trigger] after.edges[k1]).source == (#[trigger] after.edges[k2]).source
                &&& after.edges[k1].target == after.edges[k2].target
                &&& after.edges[k1].action == after.edges[k2].action
            }) by {
                assert(self.edges[k1].source == after.edges[k1].source);
                if k2 == n {
                    assert(!self.links(k1, source, target, action));
                } else {
                    assert(self.edges[k2].source == after.edges[k2].source);
                }
            }
        }
        assert forall|i: int| 0 <= i < after.nodes.len() implies after.out_count(i)
            <= #[trigger] after.passes[i] by {
            assert(self.out_count(i) <= self.passes[i]);
            assert(after.out_count(i) == self.out_count(i) + if i == source {
                1nat
            } else {
                0nat
            });
        }
    }
}

/// The graph that self-play builds. The nodes and the edges stand in two
/// tables; a `StableGraph` holds, for each of them, its place in the table,
/// and finds the edges between two nodes.
pub struct SelfPlayGraph<G: Clone + Eq + PartialEq, A: Clone + Eq + PartialEq> {
    topology: StableGraph<usize, usize>,
    nodes: Vec<GraphNode<G>>,
    edges: Vec<GraphEdge<A>>,
    recorded: usize,
    passes: Ghost<Seq<nat>>,
}

impl<G: Clone + Eq + PartialEq, A: Clone + Eq + PartialEq> View for SelfPlayGraph<G, A> {
    type V = GraphView<G, A>;

    closed spec fn view(&self) -> GraphView<G, A> {
        GraphView {
            nodes: self.nodes@,
            edges: Seq::new(
                self.edges@.len(),
                |k: int|
                    EdgeView {
                        source: edge_slots(self.topology)[k]->Some_0.0,
                        target: edge_slots(self.topology)[k]->Some_0.1,
                        action: self.edges@[k].action,
                        count: self.edges@[k].count as nat,
                    },
            ),
            passes: self.passes@,
            arrivals: self.recorded as nat,
        }
    }
}

impl<G: Clone + Eq + PartialEq, A: Clone + Eq + PartialEq> SelfPlayGraph<G, A> {
    /// The `StableGraph` that holds the shape of the graph.
    pub closed spec fn shape(&self) -> StableGraph<usize, usize> {
        self.topology
    }

    /// The `StableGraph` agrees with the tables: no slot is vacant, node `i`
    /// has weight `i`, and edge `k` has weight `k` and joins the nodes that
    /// the view says.
    pub open spec fn tied(&self) -> bool {
        &&& node_slots(self.shape()).len() == self@.nodes.len()
        &&& forall|i: int|
            0 <= i < self@.nodes.len() ==> #[trigger] node_slots(self.shape())[i] == Some(
                i as usize,
            )
        &&& edge_slots(self.shape()).len() == self@.edges.len()
        &&& forall|k: int|
            0 <= k < self@.edges.len() ==> #[trigger] edge_slots(self.shape())[k] == Some(
                (self@.edges[k].source, self@.edges[k].target, k as usize),
            )
    }

    /// The graph is well formed: what [`GraphView::well_formed`] says holds of
    /// it, and it has no more nodes and no more edges than the index of a
    /// `StableGraph` can tell apart.
    pub open spec fn wf(&self) -> bool {
        &&& self.tied()
        &&& self@.well_formed()
        &&& self@.nodes.len() <= INDEX_LIMIT
        &&& self@.edges.len() <= INDEX_LIMIT
        &&& self@.arrivals <= usize::MAX
    }

    /// Whether nothing more can be recorded.
    pub open spec fn full(&self) -> bool {
        self@.is_full()
    }

    /// A graph without nodes and edges.
    pub fn new() -> (graph: Self)
        ensures
            graph.wf(),
            graph@ == GraphView::<G, A>::empty(),
    {
        let graph = SelfPlayGraph {
            topology: new_graph(),
            nodes: Vec::new(),
            edges: Vec::new(),
            recorded: 0,
            passes: Ghost(Seq::empty()),
        };
        proof {
            assert(graph@.passes =~= Seq::<nat>::empty());
            assert(graph@.nodes =~= Seq::<GraphNode<G>>::empty());
            assert(graph@.edges =~= Seq::<EdgeView<A>>::empty());
        }
        graph
    }

    /// Whether nothing more can be recorded.
    pub fn is_full(&self) -> (full: bool)
        ensures
            full == self.full(),
    {
        self.nodes.len() >= INDEX_LIMIT || self.edges.len() >= INDEX_LIMIT || self.recorded
            == usize::MAX
    }

    /// The nodes, in the order in which they were added.
    pub fn nodes(&self) -> (nodes: &Vec<GraphNode<G>>)
        ensures
            nodes@ == self@.nodes,
    {
        &self.nodes
    }

    /// The edges, in the order in which they were added. Where an edge leads
    /// from and to is kept in the `StableGraph`, see [`Self::topology`].
    pub fn edges(&self) -> (edges: &Vec<GraphEdge<A>>)
        ensures
            edges@.len() == self@.edges.len(),
            forall|k: int|
                0 <= k < edges@.len() ==> (#[trigger] edges@[k]).action == self@.edges[k].action
                    && edges@[k].count == self@.edges[k].count,
    {
        &self.edges
    }

    /// The shape of the graph. The weight of a node is its place in
    /// [`Self::nodes`], the weight of an edge its place in [`Self::edges`].
    pub fn topology(&self) -> (topology: &StableGraph<usize, usize>)
        ensures
            *topology == self.shape(),
    {
        &self.topology
    }

    /// How many states were recorded, those that were met again included.
    pub fn arrivals(&self) -> (arrivals: usize)
        ensures
            arrivals == self@.arrivals,
    {
        self.recorded
    }
}

/// Records that a game came to `state`, as move `step_index` of game
/// `sim_index`, and returns the place of the node that holds the state. If no
/// node holds it yet, a new node is added; if one does, the node stays as it
/// is, so that it tells of the first game that came to the state.
///
/// The graph must not be full.
pub fn add_state_to_graph<G: Clone + Eq + PartialEq, A: Clone + Eq + PartialEq>(
    graph: &mut SelfPlayGraph<G, A>,
    state: &G,
    sim_index: usize,
    step_index: usize,
) -> (node_index: usize)
    requires
        obeys_concrete_eq::<G>(),
        clones_exactly::<G>(),
        old(graph).wf(),
        !old(graph).full(),
    ensures
        final(graph).wf(),
        final(graph)@ == old(graph)@.with_state(*state, sim_index, step_index),
        node_index == old(graph)@.place_with(*state),
{
    let ghost before = graph@;
    proof {
        before.lemma_with_state_well_formed(*state, sim_index, step_index);
    }
    let mut i: usize = 0;
    while i < graph.nodes.len()
        invariant
            obeys_concrete_eq::<G>(),
            *graph == *old(graph),
            graph.wf(),
            !graph.full(),
            before == graph@,
            before.with_state(*state, sim_index, step_index).well_formed(),
            i <= graph.nodes@.len(),
            forall|k: int| 0 <= k < i ==> !before.holds(k, *state),
        decreases graph.nodes@.len() - i,
    {
        proof {
            reveal(obeys_concrete_eq);
        }
        if graph.nodes[i].state == *state {
            proof {
                assert(before.holds(i as int, *state));
                let place = before.place_of(*state);
                assert(before.holds(place, *state));
                if place < i {
                    assert(before.nodes[place].state != before.nodes[i as int].state);
                }
                if i < place {
                    assert(before.nodes[i as int].state != before.nodes[place].state);
                }
            }
            let ghost passes = graph.passes@;
            graph.passes = Ghost(passes.update(i as int, passes[i as int] + 1));
            graph.recorded = graph.recorded + 1;
            proof {
                assert(graph@.edges =~= before.edges);
                assert(graph@ == before.with_state(*state, sim_index, step_index));
            }
            return i;
        }
        i += 1;
    }
    proof {
        assert(!before.knows(*state));
    }
    let node_index = graph.nodes.len();
    let _ = add_node(&mut graph.topology, node_index);
    graph.nodes.push(GraphNode { state: copy_of(state), sim_index, step_index });
    let ghost passes = graph.passes@;
    graph.passes = Ghost(passes.push(1));
    graph.recorded = graph.recorded + 1;
    proof {
        assert(graph@.edges =~= before.edges);
        assert(graph@.nodes =~= before.nodes.push(GraphNode { state: *state, sim_index, step_index }));
        assert(graph@ == before.with_state(*state, sim_index, step_index));
    }
    node_index
}

/// Records that `action` was made from the node at `prev_state_idx` to the
/// node at `new_state_idx`. An edge between the two with the same move counts
/// one more; if there is none, a new edge with count 1 is added.
///
/// More games must have come to the first node than moves were made from it,
/// as is the case when a game stands there. The graph must not be full.
pub fn add_action_to_graph<G: Clone + Eq + PartialEq, A: Clone + Eq + PartialEq>(
    graph: &mut SelfPlayGraph<G, A>,
    action: A,
    prev_state_idx: usize,
    new_state_idx: usize,
)
    requires
        obeys_concrete_eq::<A>(),
        old(graph).wf(),
        old(graph)@.edges.len() < INDEX_LIMIT,
        prev_state_idx < old(graph)@.nodes.len(),
        new_state_idx < old(graph)@.nodes.len(),
        old(graph)@.out_count(prev_state_idx as int) < old(graph)@.passes[prev_state_idx as int],
    ensures
        final(graph).wf(),
        final(graph)@ == old(graph)@.with_action(
            prev_state_idx as int,
            new_state_idx as int,
            action,
        ),
{
    let ghost before = graph@;
    let ghost source = prev_state_idx as int;
    let ghost target = new_state_idx as int;
    proof {
        before.lemma_with_action_well_formed(source, target, action);
    }
    let between = connecting(&graph.topology, prev_state_idx, new_state_idx);
    let mut i: usize = 0;
    while i < between.len()
        invariant
            obeys_concrete_eq::<A>(),
            *graph == *old(graph),
            graph.wf(),
            before == graph@,
            source == prev_state_idx,
            target == new_state_idx,
            source < before.nodes.len(),
            before.out_count(source) < before.passes[source],
            before.with_action(source, target, action).well_formed(),
            forall|weight: usize|
                #[trigger] between@.contains(weight) <==> joins(
                    edge_slots(graph.shape()),
                    source,
                    target,
                    weight,
                ),
            i <= between@.len(),
            forall|k: int| 0 <= k < i ==> !before.links(between@[k] as int, source, target, action),
        decreases between@.len() - i,
    {
        let k = between[i];
        proof {
            reveal(obeys_concrete_eq);
            assert(between@.contains(k));
            let e = choose|e: int|
                0 <= e < edge_slots(graph.shape()).len() && #[trigger] edge_slots(
                    graph.shape(),
                )[e] == Some((source, target, k));
            assert(e == k);
            assert(before.edges[k as int].source == source);
            assert(before.edges[k as int].target == target);
        }
        if graph.edges[k].action == action {
            proof {
                assert(before.links(k as int, source, target, action));
                let place = before.link_of(source, target, action);
                assert(before.links(place, source, target, action));
                if place < k {
                    assert(before.edges[place].source == before.edges[k as int].source);
                }
                if k < place {
                    assert(before.edges[k as int].source == before.edges[place].source);
                }
                before.lemma_count_within_departures(k as int, before.edges.len() as int);
                lemma_total_bounds(before.passes, source);
            }
            let count = graph.edges[k].count;
            graph.edges[k].count = count + 1;
            proof {
                assert(graph@.edges =~= before.with_action(source, target, action).edges);
                assert(graph@ == before.with_action(source, target, action));
            }
            return ;
        }
        i += 1;
    }
    proof {
        if before.linked(source, target, action) {
            let place = before.link_of(source, target, action);
            assert(before.links(place, source, target, action));
            assert(edge_slots(graph.shape())[place] == Some((source, target, place as usize)));
            assert(joins(edge_slots(graph.shape()), source, target, place as usize));
            assert(between@.contains(place as usize));
            let at = choose|at: int| 0 <= at < between@.len() && between@[at] == place as usize;
            assert(!before.links(between@[at] as int, source, target, action));
        }
    }
    let weight = graph.edges.len();
    let _ = add_edge(&mut graph.topology, prev_state_idx, new_state_idx, weight);
    graph.edges.push(GraphEdge { count: 1, action });
    proof {
        assert(graph@.edges =~= before.with_action(source, target, action).edges);
        assert(graph@ == before.with_action(source, target, action));
    }
}

/// Every edge of the graph is a move of the game: in the state of its source
/// the game is not over, the move is legal there, and it leads to the state of
/// its target.
pub open spec fn edges_are_moves<P, A, G: Mcts<P, A> + Clone + Eq + PartialEq>(
    view: GraphView<G, A>,
) -> bool {
    forall|k: int|
        0 <= k < view.edges.len() ==> {
            let edge = #[trigger] view.edges[k];
            let from = view.nodes[edge.source].state;
            &&& from.result() is None
            &&& from.legal_actions().contains(edge.action)
            &&& from.leads_to(edge.action, view.nodes[edge.target].state)
        }
}

/// Recording a state leaves every edge a move of the game.
proof fn lemma_state_keeps_moves<P, A, G: Mcts<P, A> + Clone + Eq + PartialEq>(
    view: GraphView<G, A>,
    state: G,
    sim_index: usize,
    step_index: usize,
)
    requires
        view.well_formed(),
        edges_are_moves::<P, A, G>(view),
    ensures
        edges_are_moves::<P, A, G>(view.with_state(state, sim_index, step_index)),
{
    let after = view.with_state(state, sim_index, step_index);
    assert forall|k: int| 0 <= k < after.edges.len() implies {
        let edge = #[trigger] after.edges[k];
        let from = after.nodes[edge.source].state;
        &&& from.result() is None
        &&& from.legal_actions().contains(edge.action)
        &&& from.leads_to(edge.action, after.nodes[edge.target].state)
    } by {
        let edge = view.edges[k];
        assert(0 <= edge.source < view.nodes.len());
        assert(after.nodes[edge.source] == view.nodes[edge.source]);
        assert(after.nodes[edge.target] == view.nodes[edge.target]);
    }
}

/// Recording a move of the game leaves every edge a move of the game.
proof fn lemma_action_keeps_moves<P, A, G: Mcts<P, A> + Clone + Eq + PartialEq>(
    view: GraphView<G, A>,
    source: int,
    target: int,
    action: A,
)
    requires
        edges_are_moves::<P, A, G>(view),
        0 <= source < view.nodes.len(),
        0 <= target < view.nodes.len(),
        view.nodes[source].state.result() is None,
        view.nodes[source].state.legal_actions().contains(action),
        view.nodes[source].state.leads_to(action, view.nodes[target].state),
    ensures
        edges_are_moves::<P, A, G>(view.with_action(source, target, action)),
{
    let after = view.with_action(source, target, action);
    assert forall|k: int| 0 <= k < after.edges.len() implies {
        let edge = #[trigger] after.edges[k];
        let from = after.nodes[edge.source].state;
        &&& from.result() is None
        &&& from.legal_actions().contains(edge.action)
        &&& from.leads_to(edge.action, after.nodes[edge.target].state)
    } by {
        if view.linked(source, target, action) {
            let place = view.link_of(source, target, action);
            assert(view.links(place, source, target, action));
            assert(after.edges[k].source == view.edges[k].source);
            assert(after.edges[k].target == view.edges[k].target);
            assert(after.edges[k].action == view.edges[k].action);
        } else if k < view.edges.len() {
            assert(after.edges[k] == view.edges[k]);
        }
    }
}

/// The budget of `player`: what `budgets` holds at the place where the player
/// first stands in `roster`, if they stand there and `budgets` reaches so far.
pub open spec fn budget_of<P>(
    roster: Seq<P>,
    budgets: Seq<ISMCTSPlayerParams>,
    player: P,
) -> Option<ISMCTSPlayerParams> {
    if roster.contains(player) {
        let place = choose|i: int|
            0 <= i < roster.len() && roster[i] == player && forall|k: int|
                0 <= k < i ==> roster[k] != player;
        if place < budgets.len() {
            Some(budgets[place])
        } else {
            None
        }
    } else {
        None
    }
}

/// The budget of a player who first stands at `place`.
proof fn lemma_budget_at<P>(
    roster: Seq<P>,
    budgets: Seq<ISMCTSPlayerParams>,
    player: P,
    place: Option<usize>,
)
    requires
        stands_at(roster, player, place),
    ensures
        budget_of(roster, budgets, player) == match place {
            Some(i) => if i < budgets.len() {
                Some(budgets[i as int])
            } else {
                None
            },
            None => None,
        },
{
    if let Some(i) = place {
        assert(roster.contains(player));
        let chosen = choose|i: int|
            0 <= i < roster.len() && roster[i] == player && forall|k: int|
                0 <= k < i ==> roster[k] != player;
        if chosen < i {
            assert(roster[chosen] != player);
        }
        if i < chosen {
            assert(roster[i as int] != player);
        }
    }
}

/// Whether a game of self-play ends in `state`: the game is over, or no move
/// is left, or the player to move has no budget.
pub open spec fn game_stops<P, A, G: Mcts<P, A>>(
    state: G,
    roster: Seq<P>,
    budgets: Seq<ISMCTSPlayerParams>,
) -> bool {
    ||| state.result() is Some
    ||| state.legal_actions().len() == 0
    ||| budget_of(roster, budgets, state.to_move()) is None
}

/// `after` is `before` after move `j` of `state` was made and recorded. The
/// move is one that the search may choose with the budget of the player to
/// move; it leads to `next`, which is recorded as step `step_index` of game
/// `sim_index`, and the move is recorded between the nodes of the two states.
pub open spec fn move_by<
    P,
    A,
    G: Mcts<P, A> + Determinable<P, A, G> + Clone + Eq + PartialEq,
    F: Fn(&Vec<Vec<u64>>, Option<usize>) -> u64,
>(
    before: GraphView<G, A>,
    after: GraphView<G, A>,
    state: G,
    next: G,
    roster: Seq<P>,
    budgets: Seq<ISMCTSPlayerParams>,
    rank: F,
    sim_index: usize,
    step_index: usize,
    j: int,
) -> bool {
    let action = state.legal_actions()[j];
    &&& state.result() is None
    &&& 0 <= j < state.legal_actions().len()
    &&& budget_of(roster, budgets, state.to_move()) matches Some(budget)
    &&& is_choice::<P, A, G, F>(
        state,
        budget.num_determinations as nat,
        budget.num_simulations_per_action as nat,
        rank,
        j,
    )
    &&& state.leads_to(action, next)
    &&& after == before.with_state(next, sim_index, step_index).with_action(
        before.place_of(state),
        before.place_with(next),
        action,
    )
}

/// `after` is `before` after one move from `state` to `next` was made and
/// recorded, see [`move_by`].
pub open spec fn is_move<
    P,
    A,
    G: Mcts<P, A> + Determinable<P, A, G> + Clone + Eq + PartialEq,
    F: Fn(&Vec<Vec<u64>>, Option<usize>) -> u64,
>(
    before: GraphView<G, A>,
    after: GraphView<G, A>,
    state: G,
    next: G,
    roster: Seq<P>,
    budgets: Seq<ISMCTSPlayerParams>,
    rank: F,
    sim_index: usize,
    step_index: usize,
) -> bool {
    exists|j: int| #[trigger]
        move_by::<P, A, G, F>(
            before,
            after,
            state,
            next,
            roster,
            budgets,
            rank,
            sim_index,
            step_index,
            j,
        )
}

/// `after` is `start` after the first `steps` moves of game `sim_index`,
/// which have taken the game from `opening` to `state`. Move `k` is recorded
/// as step `k`.
pub open spec fn played<
    P,
    A,
    G: Mcts<P, A> + Determinable<P, A, G> + Clone + Eq + PartialEq,
    F: Fn(&Vec<Vec<u64>>, Option<usize>) -> u64,
>(
    start: GraphView<G, A>,
    after: GraphView<G, A>,
    opening: G,
    state: G,
    roster: Seq<P>,
    budgets: Seq<ISMCTSPlayerParams>,
    rank: F,
    sim_index: usize,
    steps: usize,
) -> bool
    decreases steps,
{
    if steps == 0 {
        after == start && state == opening
    } else {
        exists|earlier: GraphView<G, A>, previous: G|
            played::<P, A, G, F>(
                start,
                earlier,
                opening,
                previous,
                roster,
                budgets,
                rank,
                sim_index,
                (steps - 1) as usize,
            ) && #[trigger] is_move::<P, A, G, F>(
                earlier,
                after,
                previous,
                state,
                roster,
                budgets,
                rank,
                sim_index,
                steps,
            )
    }
}

/// `after` is `before` after game `sim_index` of self-play, which started in
/// `opening`, a state in which the initializer `I` opens a game, and came to
/// `state` in `steps` moves. The opening state is recorded as step 0, then
/// the moves. The game ends where [`game_stops`]
/// says, or earlier if the graph is full.
pub open spec fn game_of<
    P,
    A,
    G: Mcts<P, A> + Determinable<P, A, G> + Clone + Eq + PartialEq,
    I: Initializer<P, A, G>,
    F: Fn(&Vec<Vec<u64>>, Option<usize>) -> u64,
>(
    before: GraphView<G, A>,
    after: GraphView<G, A>,
    opening: G,
    state: G,
    budgets: Seq<ISMCTSPlayerParams>,
    rank: F,
    sim_index: usize,
    steps: usize,
) -> bool {
    &&& I::opens(opening)
    &&& !before.is_full()
    &&& played::<P, A, G, F>(
        before.with_state(opening, sim_index, 0),
        after,
        opening,
        state,
        opening.roster(),
        budgets,
        rank,
        sim_index,
        steps,
    )
    &&& game_stops::<P, A, G>(state, opening.roster(), budgets) || after.is_full()
}

/// `after` is `before` after game `sim_index` of self-play, see [`game_of`].
pub open spec fn is_game<
    P,
    A,
    G: Mcts<P, A> + Determinable<P, A, G> + Clone + Eq + PartialEq,
    I: Initializer<P, A, G>,
    F: Fn(&Vec<Vec<u64>>, Option<usize>) -> u64,
>(
    before: GraphView<G, A>,
    after: GraphView<G, A>,
    budgets: Seq<ISMCTSPlayerParams>,
    rank: F,
    sim_index: usize,
) -> bool {
    exists|opening: G, state: G, steps: usize| #[trigger]
        game_of::<P, A, G, I, F>(before, after, opening, state, budgets, rank, sim_index, steps)
}

/// `after` is the graph of the first `games` games of self-play.
pub open spec fn is_batch<
    P,
    A,
    G: Mcts<P, A> + Determinable<P, A, G> + Clone + Eq + PartialEq,
    I: Initializer<P, A, G>,
    F: Fn(&Vec<Vec<u64>>, Option<usize>) -> u64,
>(
    after: GraphView<G, A>,
    budgets: Seq<ISMCTSPlayerParams>,
    rank: F,
    games: usize,
) -> bool
    decreases games,
{
    if games == 0 {
        after == GraphView::<G, A>::empty()
    } else {
        exists|earlier: GraphView<G, A>|
            is_batch::<P, A, G, I, F>(earlier, budgets, rank, (games - 1) as usize)
                && #[trigger] is_game::<P, A, G, I, F>(
                earlier,
                after,
                budgets,
                rank,
                (games - 1) as usize,
            )
    }
}

/// A batch of one more game is the batch before it and one more game: the
/// graphs of `games` and of `games + 1` games differ by the trajectory of the
/// last game.
pub proof fn lemma_batch_grows<
    P,
    A,
    G: Mcts<P, A> + Determinable<P, A, G> + Clone + Eq + PartialEq,
    I: Initializer<P, A, G>,
    F: Fn(&Vec<Vec<u64>>, Option<usize>) -> u64,
>(after: GraphView<G, A>, budgets: Seq<ISMCTSPlayerParams>, rank: F, games: usize)
    requires
        games < usize::MAX,
        is_batch::<P, A, G, I, F>(after, budgets, rank, (games + 1) as usize),
    ensures
        exists|earlier: GraphView<G, A>|
            is_batch::<P, A, G, I, F>(earlier, budgets, rank, games)
                && #[trigger] is_game::<P, A, G, I, F>(earlier, after, budgets, rank, games),
{
    let more = (games + 1) as usize;
    let earlier = choose|earlier: GraphView<G, A>|
        is_batch::<P, A, G, I, F>(earlier, budgets, rank, (more - 1) as usize)
            && #[trigger] is_game::<P, A, G, I, F>(
            earlier,
            after,
            budgets,
            rank,
            (more - 1) as usize,
        );
    assert(is_game::<P, A, G, I, F>(earlier, after, budgets, rank, games));
}

/// A game in which a move was made did not stop in its opening state.
proof fn lemma_played_on<
    P,
    A,
    G: Mcts<P, A> + Determinable<P, A, G> + Clone + Eq + PartialEq,
    F: Fn(&Vec<Vec<u64>>, Option<usize>) -> u64,
>(
    start: GraphView<G, A>,
    after: GraphView<G, A>,
    opening: G,
    state: G,
    roster: Seq<P>,
    budgets: Seq<ISMCTSPlayerParams>,
    rank: F,
    sim_index: usize,
    steps: usize,
)
    requires
        steps > 0,
        played::<P, A, G, F>(start, after, opening, state, roster, budgets, rank, sim_index, steps),
    ensures
        !game_stops::<P, A, G>(opening, roster, budgets),
    decreases steps,
{
    let (earlier, previous) = choose|earlier: GraphView<G, A>, previous: G|
        played::<P, A, G, F>(
            start,
            earlier,
            opening,
            previous,
            roster,
            budgets,
            rank,
            sim_index,
            (steps - 1) as usize,
        ) && #[trigger] is_move::<P, A, G, F>(
            earlier,
            after,
            previous,
            state,
            roster,
            budgets,
            rank,
            sim_index,
            steps,
        );
    if steps == 1 {
        assert(previous == opening);
        let j = choose|j: int| #[trigger]
            move_by::<P, A, G, F>(
                earlier,
                after,
                previous,
                state,
                roster,
                budgets,
                rank,
                sim_index,
                steps,
                j,
            );
    } else {
        lemma_played_on::<P, A, G, F>(
            start,
            earlier,
            opening,
            previous,
            roster,
            budgets,
            rank,
            sim_index,
            (steps - 1) as usize,
        );
    }
}

/// Of a game that stops in its opening state, only that state is recorded,
/// and no move: so it is where the game is over from the start, or where
/// there is no move to make.
pub proof fn lemma_stopped_at_once<
    P,
    A,
    G: Mcts<P, A> + Determinable<P, A, G> + Clone + Eq + PartialEq,
    I: Initializer<P, A, G>,
    F: Fn(&Vec<Vec<u64>>, Option<usize>) -> u64,
>(
    before: GraphView<G, A>,
    after: GraphView<G, A>,
    opening: G,
    state: G,
    budgets: Seq<ISMCTSPlayerParams>,
    rank: F,
    sim_index: usize,
    steps: usize,
)
    requires
        game_of::<P, A, G, I, F>(before, after, opening, state, budgets, rank, sim_index, steps),
        game_stops::<P, A, G>(opening, opening.roster(), budgets),
    ensures
        steps == 0,
        state == opening,
        after == before.with_state(opening, sim_index, 0),
        after.edges == before.edges,
{
    if steps > 0 {
        lemma_played_on::<P, A, G, F>(
            before.with_state(opening, sim_index, 0),
            after,
            opening,
            state,
            opening.roster(),
            budgets,
            rank,
            sim_index,
            steps,
        );
    }
}

/// The moves of a game leave the nodes that were there as they are.
proof fn lemma_played_keeps_nodes<
    P,
    A,
    G: Mcts<P, A> + Determinable<P, A, G> + Clone + Eq + PartialEq,
    F: Fn(&Vec<Vec<u64>>, Option<usize>) -> u64,
>(
    start: GraphView<G, A>,
    after: GraphView<G, A>,
    opening: G,
    state: G,
    roster: Seq<P>,
    budgets: Seq<ISMCTSPlayerParams>,
    rank: F,
    sim_index: usize,
    steps: usize,
)
    requires
        played::<P, A, G, F>(start, after, opening, state, roster, budgets, rank, sim_index, steps),
    ensures
        after.nodes.len() >= start.nodes.len(),
        forall|i: int| 0 <= i < start.nodes.len() ==> #[trigger] after.nodes[i] == start.nodes[i],
    decreases steps,
{
    if steps > 0 {
        let (earlier, previous) = choose|earlier: GraphView<G, A>, previous: G|
            played::<P, A, G, F>(
                start,
                earlier,
                opening,
                previous,
                roster,
                budgets,
                rank,
                sim_index,
                (steps - 1) as usize,
            ) && #[trigger] is_move::<P, A, G, F>(
                earlier,
                after,
                previous,
                state,
                roster,
                budgets,
                rank,
                sim_index,
                steps,
            );
        lemma_played_keeps_nodes::<P, A, G, F>(
            start,
            earlier,
            opening,
            previous,
            roster,
            budgets,
            rank,
            sim_index,
            (steps - 1) as usize,
        );
        let j = choose|j: int| #[trigger]
            move_by::<P, A, G, F>(
                earlier,
                after,
                previous,
                state,
                roster,
                budgets,
                rank,
                sim_index,
                steps,
                j,
            );
        let middle = earlier.with_state(state, sim_index, steps);
        assert(after.nodes == middle.nodes);
        assert forall|i: int| 0 <= i < start.nodes.len() implies #[trigger] after.nodes[i]
            == start.nodes[i] by {
            assert(middle.nodes[i] == earlier.nodes[i]);
        }
    }
}

/// A game opens in a state in which its initializer opens a game, and that
/// state is recorded: a node holds it when the game has been played. It is
/// the node that held the state before, or else a new node that names this
/// game and step 0. The nodes that were there before the game stay as they
/// are.
pub proof fn lemma_game_records_opening<
    P,
    A,
    G: Mcts<P, A> + Determinable<P, A, G> + Clone + Eq + PartialEq,
    I: Initializer<P, A, G>,
    F: Fn(&Vec<Vec<u64>>, Option<usize>) -> u64,
>(
    before: GraphView<G, A>,
    after: GraphView<G, A>,
    opening: G,
    state: G,
    budgets: Seq<ISMCTSPlayerParams>,
    rank: F,
    sim_index: usize,
    steps: usize,
)
    requires
        game_of::<P, A, G, I, F>(before, after, opening, state, budgets, rank, sim_index, steps),
    ensures
        I::opens(opening),
        after.holds(before.place_with(opening), opening),
        after.nodes.len() >= before.nodes.len(),
        forall|i: int| 0 <= i < before.nodes.len() ==> #[trigger] after.nodes[i] == before.nodes[i],
        !before.knows(opening) ==> after.nodes[before.nodes.len() as int] == (GraphNode {
            state: opening,
            sim_index,
            step_index: 0,
        }),
{
    let start = before.with_state(opening, sim_index, 0);
    lemma_played_keeps_nodes::<P, A, G, F>(
        start,
        after,
        opening,
        state,
        opening.roster(),
        budgets,
        rank,
        sim_index,
        steps,
    );
    if before.knows(opening) {
        let place = before.place_of(opening);
        assert(before.holds(place, opening));
        assert(start.nodes[place] == before.nodes[place]);
    } else {
        assert(start.nodes[before.nodes.len() as int].state == opening);
    }
    assert forall|i: int| 0 <= i < before.nodes.len() implies #[trigger] after.nodes[i]
        == before.nodes[i] by {
        assert(start.nodes[i] == before.nodes[i]);
    }
}

/// Whatever first move is made in `opening`, the game stops in the state it
/// leads to.
pub open spec fn ends_after_one_move<P, A, G: Mcts<P, A>>(
    opening: G,
    roster: Seq<P>,
    budgets: Seq<ISMCTSPlayerParams>,
) -> bool {
    forall|action: A, next: G|
        opening.legal_actions().contains(action) && #[trigger] opening.leads_to(action, next)
            ==> game_stops::<P, A, G>(next, roster, budgets)
}

/// Where every first move ends the game, a game in which a move was made has
/// made one move.
proof fn lemma_played_one_move<
    P,
    A,
    G: Mcts<P, A> + Determinable<P, A, G> + Clone + Eq + PartialEq,
    F: Fn(&Vec<Vec<u64>>, Option<usize>) -> u64,
>(
    start: GraphView<G, A>,
    after: GraphView<G, A>,
    opening: G,
    state: G,
    roster: Seq<P>,
    budgets: Seq<ISMCTSPlayerParams>,
    rank: F,
    sim_index: usize,
    steps: usize,
)
    requires
        steps > 0,
        played::<P, A, G, F>(start, after, opening, state, roster, budgets, rank, sim_index, steps),
        ends_after_one_move::<P, A, G>(opening, roster, budgets),
    ensures
        steps == 1,
        is_move::<P, A, G, F>(start, after, opening, state, roster, budgets, rank, sim_index, 1),
        game_stops::<P, A, G>(state, roster, budgets),
    decreases steps,
{
    let (earlier, previous) = choose|earlier: GraphView<G, A>, previous: G|
        played::<P, A, G, F>(
            start,
            earlier,
            opening,
            previous,
            roster,
            budgets,
            rank,
            sim_index,
            (steps - 1) as usize,
        ) && #[trigger] is_move::<P, A, G, F>(
            earlier,
            after,
            previous,
            state,
            roster,
            budgets,
            rank,
            sim_index,
            steps,
        );
    let j = choose|j: int| #[trigger]
        move_by::<P, A, G, F>(
            earlier,
            after,
            previous,
            state,
            roster,
            budgets,
            rank,
            sim_index,
            steps,
            j,
        );
    if steps == 1 {
        assert(previous == opening);
        assert(earlier == start);
        assert(opening.legal_actions().contains(opening.legal_actions()[j]));
    } else {
        lemma_played_one_move::<P, A, G, F>(
            start,
            earlier,
            opening,
            previous,
            roster,
            budgets,
            rank,
            sim_index,
            (steps - 1) as usize,
        );
    }
}

/// A game in whose opening state a move can be made, and in which every
/// first move ends the game, makes one move: the opening state is recorded,
/// then the state that the move leads to and the move. The graph must have
/// room left when the opening state has been recorded.
pub proof fn lemma_game_of_one_move<
    P,
    A,
    G: Mcts<P, A> + Determinable<P, A, G> + Clone + Eq + PartialEq,
    I: Initializer<P, A, G>,
    F: Fn(&Vec<Vec<u64>>, Option<usize>) -> u64,
>(
    before: GraphView<G, A>,
    after: GraphView<G, A>,
    opening: G,
    state: G,
    budgets: Seq<ISMCTSPlayerParams>,
    rank: F,
    sim_index: usize,
    steps: usize,
)
    requires
        game_of::<P, A, G, I, F>(before, after, opening, state, budgets, rank, sim_index, steps),
        !before.with_state(opening, sim_index, 0).is_full(),
        !game_stops::<P, A, G>(opening, opening.roster(), budgets),
        ends_after_one_move::<P, A, G>(opening, opening.roster(), budgets),
    ensures
        steps == 1,
        is_move::<P, A, G, F>(
            before.with_state(opening, sim_index, 0),
            after,
            opening,
            state,
            opening.roster(),
            budgets,
            rank,
            sim_index,
            1,
        ),
        game_stops::<P, A, G>(state, opening.roster(), budgets),
{
    if steps > 0 {
        lemma_played_one_move::<P, A, G, F>(
            before.with_state(opening, sim_index, 0),
            after,
            opening,
            state,
            opening.roster(),
            budgets,
            rank,
            sim_index,
            steps,
        );
    }
}

/// Where the initializer opens every game in the one state `opening`, and a
/// game stops in that state at once (the game is over there, or no move is
/// left, or the player to move has no budget), a batch of one game or more
/// gives a graph of one node and no edge. The node holds `opening` and names
/// game 0 and step 0, and each game came to it once.
pub proof fn lemma_batch_stopped_at_once<
    P,
    A,
    G: Mcts<P, A> + Determinable<P, A, G> + Clone + Eq + PartialEq,
    I: Initializer<P, A, G>,
    F: Fn(&Vec<Vec<u64>>, Option<usize>) -> u64,
>(
    after: GraphView<G, A>,
    budgets: Seq<ISMCTSPlayerParams>,
    rank: F,
    games: usize,
    opening: G,
)
    requires
        games >= 1,
        is_batch::<P, A, G, I, F>(after, budgets, rank, games),
        forall|state: G| #[trigger] I::opens(state) ==> state == opening,
        game_stops::<P, A, G>(opening, opening.roster(), budgets),
    ensures
        after.nodes == seq![(GraphNode { state: opening, sim_index: 0, step_index: 0 })],
        after.edges.len() == 0,
        after.passes == seq![games as nat],
        after.arrivals == games,
    decreases games,
{
    let earlier = choose|earlier: GraphView<G, A>|
        is_batch::<P, A, G, I, F>(earlier, budgets, rank, (games - 1) as usize)
            && #[trigger] is_game::<P, A, G, I, F>(
            earlier,
            after,
            budgets,
            rank,
            (games - 1) as usize,
        );
    let (first, last, steps) = choose|first: G, last: G, steps: usize| #[trigger]
        game_of::<P, A, G, I, F>(
            earlier,
            after,
            first,
            last,
            budgets,
            rank,
            (games - 1) as usize,
            steps,
        );
    assert(I::opens(first));
    lemma_stopped_at_once::<P, A, G, I, F>(
        earlier,
        after,
        first,
        last,
        budgets,
        rank,
        (games - 1) as usize,
        steps,
    );
    let node = GraphNode { state: opening, sim_index: 0, step_index: 0 };
    if games == 1 {
        assert(earlier == GraphView::<G, A>::empty());
        assert(!earlier.knows(opening)) by {
            if earlier.knows(opening) {
                let i = choose|i: int| earlier.holds(i, opening);
            }
        }
        assert(after.nodes =~= seq![node]);
        assert(after.passes =~= seq![1nat]);
    } else {
        lemma_batch_stopped_at_once::<P, A, G, I, F>(
            earlier,
            budgets,
            rank,
            (games - 1) as usize,
            opening,
        );
        assert(earlier.nodes[0] == node);
        assert(earlier.holds(0, opening));
        let place = earlier.place_of(opening);
        assert(earlier.holds(place, opening));
        assert(after.passes =~= seq![games as nat]);
    }
}

/// A game stands in `state` at a node of `view`: a node holds the state, and
/// more games came to it than moves were made from it.
pub open spec fn stands_in<G: Clone + Eq + PartialEq, A>(view: GraphView<G, A>, state: G) -> bool {
    &&& view.knows(state)
    &&& view.out_count(view.place_of(state)) < view.passes[view.place_of(state)]
}

/// The moves of a game keep the graph well formed, and every edge a move of
/// the game.
proof fn lemma_played_well_formed<
    P,
    A,
    G: Mcts<P, A> + Determinable<P, A, G> + Clone + Eq + PartialEq,
    F: Fn(&Vec<Vec<u64>>, Option<usize>) -> u64,
>(
    start: GraphView<G, A>,
    after: GraphView<G, A>,
    opening: G,
    state: G,
    roster: Seq<P>,
    budgets: Seq<ISMCTSPlayerParams>,
    rank: F,
    sim_index: usize,
    steps: usize,
)
    requires
        played::<P, A, G, F>(start, after, opening, state, roster, budgets, rank, sim_index, steps),
        start.well_formed(),
        edges_are_moves::<P, A, G>(start),
        stands_in(start, opening),
    ensures
        after.well_formed(),
        edges_are_moves::<P, A, G>(after),
        stands_in(after, state),
    decreases steps,
{
    if steps > 0 {
        let (earlier, previous) = choose|earlier: GraphView<G, A>, previous: G|
            played::<P, A, G, F>(
                start,
                earlier,
                opening,
                previous,
                roster,
                budgets,
                rank,
                sim_index,
                (steps - 1) as usize,
            ) && #[trigger] is_move::<P, A, G, F>(
                earlier,
                after,
                previous,
                state,
                roster,
                budgets,
                rank,
                sim_index,
                steps,
            );
        lemma_played_well_formed::<P, A, G, F>(
            start,
            earlier,
            opening,
            previous,
            roster,
            budgets,
            rank,
            sim_index,
            (steps - 1) as usize,
        );
        let j = choose|j: int| #[trigger]
            move_by::<P, A, G, F>(
                earlier,
                after,
                previous,
                state,
                roster,
                budgets,
                rank,
                sim_index,
                steps,
                j,
            );
        let action = previous.legal_actions()[j];
        let source = earlier.place_of(previous);
        let target = earlier.place_with(state);
        let middle = earlier.with_state(state, sim_index, steps);
        assert(earlier.holds(source, previous));
        earlier.lemma_with_state_well_formed(state, sim_index, steps);
        lemma_state_keeps_moves::<P, A, G>(earlier, state, sim_index, steps);
        assert(middle.nodes[source] == earlier.nodes[source]);
        assert(middle.out_count(source) == earlier.out_count(source));
        assert(middle.holds(target, state));
        if target == source {
            assert(earlier.knows(state));
            assert(middle.passes[source] == earlier.passes[source] + 1);
        }
        assert(previous.legal_actions().contains(action));
        middle.lemma_with_action_well_formed(source, target, action);
        lemma_action_keeps_moves::<P, A, G>(middle, source, target, action);
        assert(after.nodes == middle.nodes);
        assert(after.passes == middle.passes);
        assert(after.holds(target, state));
        let place = after.place_of(state);
        assert(after.holds(place, state));
        after.lemma_equal_states_share_node(place, target);
        assert(after.out_count(target) == middle.out_count(target) + if target == source {
            1nat
        } else {
            0nat
        });
    }
}

/// A game of self-play keeps the graph well formed, and every edge a move of
/// the game.
pub proof fn lemma_game_well_formed<
    P,
    A,
    G: Mcts<P, A> + Determinable<P, A, G> + Clone + Eq + PartialEq,
    I: Initializer<P, A, G>,
    F: Fn(&Vec<Vec<u64>>, Option<usize>) -> u64,
>(
    before: GraphView<G, A>,
    after: GraphView<G, A>,
    budgets: Seq<ISMCTSPlayerParams>,
    rank: F,
    sim_index: usize,
)
    requires
        is_game::<P, A, G, I, F>(before, after, budgets, rank, sim_index),
        before.well_formed(),
        edges_are_moves::<P, A, G>(before),
    ensures
        after.well_formed(),
        edges_are_moves::<P, A, G>(after),
{
    let (opening, state, steps) = choose|opening: G, state: G, steps: usize| #[trigger]
        game_of::<P, A, G, I, F>(before, after, opening, state, budgets, rank, sim_index, steps);
    let start = before.with_state(opening, sim_index, 0);
    before.lemma_with_state_well_formed(opening, sim_index, 0);
    lemma_state_keeps_moves::<P, A, G>(before, opening, sim_index, 0);
    let place = start.place_of(opening);
    assert(start.holds(before.place_with(opening), opening));
    assert(start.holds(place, opening));
    start.lemma_equal_states_share_node(place, before.place_with(opening));
    lemma_played_well_formed::<P, A, G, F>(
        start,
        after,
        opening,
        state,
        opening.roster(),
        budgets,
        rank,
        sim_index,
        steps,
    );
}

/// The graph of a batch of self-play is well formed, and every edge is a
/// move of the game. So no two nodes hold the same state, no two edges join
/// the same nodes by the same move, and the moves that were made from a node
/// are no more than the games that came to it.
pub proof fn lemma_batch_well_formed<
    P,
    A,
    G: Mcts<P, A> + Determinable<P, A, G> + Clone + Eq + PartialEq,
    I: Initializer<P, A, G>,
    F: Fn(&Vec<Vec<u64>>, Option<usize>) -> u64,
>(after: GraphView<G, A>, budgets: Seq<ISMCTSPlayerParams>, rank: F, games: usize)
    requires
        is_batch::<P, A, G, I, F>(after, budgets, rank, games),
    ensures
        after.well_formed(),
        edges_are_moves::<P, A, G>(after),
    decreases games,
{
    if games > 0 {
        let earlier = choose|earlier: GraphView<G, A>|
            is_batch::<P, A, G, I, F>(earlier, budgets, rank, (games - 1) as usize)
                && #[trigger] is_game::<P, A, G, I, F>(
                earlier,
                after,
                budgets,
                rank,
                (games - 1) as usize,
            );
        lemma_batch_well_formed::<P, A, G, I, F>(earlier, budgets, rank, (games - 1) as usize);
        lemma_game_well_formed::<P, A, G, I, F>(
            earlier,
            after,
            budgets,
            rank,
            (games - 1) as usize,
        );
    } else {
        assert(total(after.passes) == 0);
    }
}

/// Node `i` can be reached, along edges, from a node that holds a state in
/// which the initializer `I` opens a game.
pub open spec fn from_opening<
    P,
    A,
    G: Mcts<P, A> + Clone + Eq + PartialEq,
    I: Initializer<P, A, G>,
>(view: GraphView<G, A>, i: int) -> bool {
    exists|o: int|
        0 <= o < view.nodes.len() && I::opens(view.nodes[o].state) && #[trigger] view.reaches(
            o,
            i,
        )
}

/// Every node can be reached, along edges, from a node that holds a state in
/// which the initializer `I` opens a game.
pub open spec fn rooted<
    P,
    A,
    G: Mcts<P, A> + Clone + Eq + PartialEq,
    I: Initializer<P, A, G>,
>(view: GraphView<G, A>) -> bool {
    forall|i: int| 0 <= i < view.nodes.len() ==> #[trigger] from_opening::<P, A, G, I>(view, i)
}

/// What can be reached from an opening state in a graph can be so reached
/// in one that extends it.
proof fn lemma_extends_from_opening<
    P,
    A,
    G: Mcts<P, A> + Clone + Eq + PartialEq,
    I: Initializer<P, A, G>,
>(later: GraphView<G, A>, earlier: GraphView<G, A>, i: int)
    requires
        later.extends(earlier),
        from_opening::<P, A, G, I>(earlier, i),
    ensures
        from_opening::<P, A, G, I>(later, i),
{
    let o = choose|o: int|
        0 <= o < earlier.nodes.len() && I::opens(earlier.nodes[o].state)
            && #[trigger] earlier.reaches(o, i);
    later.lemma_extends_reaches(earlier, o, i);
    assert(later.nodes[o] == earlier.nodes[o]);
}

/// The moves of a game keep every node within reach of an opening state.
proof fn lemma_played_rooted<
    P,
    A,
    G: Mcts<P, A> + Determinable<P, A, G> + Clone + Eq + PartialEq,
    I: Initializer<P, A, G>,
    F: Fn(&Vec<Vec<u64>>, Option<usize>) -> u64,
>(
    start: GraphView<G, A>,
    after: GraphView<G, A>,
    opening: G,
    state: G,
    roster: Seq<P>,
    budgets: Seq<ISMCTSPlayerParams>,
    rank: F,
    sim_index: usize,
    steps: usize,
)
    requires
        played::<P, A, G, F>(start, after, opening, state, roster, budgets, rank, sim_index, steps),
        rooted::<P, A, G, I>(start),
        start.knows(opening),
    ensures
        rooted::<P, A, G, I>(after),
        after.knows(state),
    decreases steps,
{
    if steps > 0 {
        let (earlier, previous) = choose|earlier: GraphView<G, A>, previous: G|
            played::<P, A, G, F>(
                start,
                earlier,
                opening,
                previous,
                roster,
                budgets,
                rank,
                sim_index,
                (steps - 1) as usize,
            ) && #[trigger] is_move::<P, A, G, F>(
                earlier,
                after,
                previous,
                state,
                roster,
                budgets,
                rank,
                sim_index,
                steps,
            );
        lemma_played_rooted::<P, A, G, I, F>(
            start,
            earlier,
            opening,
            previous,
            roster,
            budgets,
            rank,
            sim_index,
            (steps - 1) as usize,
        );
        let j = choose|j: int| #[trigger]
            move_by::<P, A, G, F>(
                earlier,
                after,
                previous,
                state,
                roster,
                budgets,
                rank,
                sim_index,
                steps,
                j,
            );
        let source = earlier.place_of(previous);
        let target = earlier.place_with(state);
        assert(earlier.holds(source, previous));
        earlier.lemma_move_extends(state, sim_index, steps, source, previous.legal_actions()[j]);
        assert(after.holds(target, state));
        assert forall|i: int| 0 <= i < after.nodes.len() implies #[trigger] from_opening::<
            P,
            A,
            G,
            I,
        >(after, i) by {
            if i < earlier.nodes.len() {
                assert(from_opening::<P, A, G, I>(earlier, i));
                lemma_extends_from_opening::<P, A, G, I>(after, earlier, i);
            } else {
                assert(i == target);
                assert(from_opening::<P, A, G, I>(earlier, source));
                lemma_extends_from_opening::<P, A, G, I>(after, earlier, source);
                let o = choose|o: int|
                    0 <= o < after.nodes.len() && I::opens(after.nodes[o].state)
                        && #[trigger] after.reaches(o, source);
                after.lemma_reaches_on(o, source, target);
            }
        }
    }
}

/// A game keeps every node within reach of an opening state.
proof fn lemma_game_rooted<
    P,
    A,
    G: Mcts<P, A> + Determinable<P, A, G> + Clone + Eq + PartialEq,
    I: Initializer<P, A, G>,
    F: Fn(&Vec<Vec<u64>>, Option<usize>) -> u64,
>(
    before: GraphView<G, A>,
    after: GraphView<G, A>,
    opening: G,
    state: G,
    budgets: Seq<ISMCTSPlayerParams>,
    rank: F,
    sim_index: usize,
    steps: usize,
)
    requires
        game_of::<P, A, G, I, F>(before, after, opening, state, budgets, rank, sim_index, steps),
        rooted::<P, A, G, I>(before),
    ensures
        rooted::<P, A, G, I>(after),
{
    let start = before.with_state(opening, sim_index, 0);
    let place = before.place_with(opening);
    if before.knows(opening) {
        assert(before.holds(before.place_of(opening), opening));
    }
    assert(start.holds(place, opening));
    assert(start.extends(before));
    assert forall|i: int| 0 <= i < start.nodes.len() implies #[trigger] from_opening::<P, A, G, I>(
        start,
        i,
    ) by {
        if i < before.nodes.len() {
            assert(from_opening::<P, A, G, I>(before, i));
            lemma_extends_from_opening::<P, A, G, I>(start, before, i);
        } else {
            assert(i == place);
            let walk = seq![i];
            assert(start.is_walk(walk));
            assert(walk[0] == i && walk.last() == i);
            assert(start.reaches(i, i));
        }
    }
    lemma_played_rooted::<P, A, G, I, F>(
        start,
        after,
        opening,
        state,
        opening.roster(),
        budgets,
        rank,
        sim_index,
        steps,
    );
}

/// In the graph of a batch of self-play every node can be reached, along
/// edges, from a node that holds a state in which the initializer opens a
/// game. So where there is a node at all, one of the nodes holds such a state.
pub proof fn lemma_batch_rooted<
    P,
    A,
    G: Mcts<P, A> + Determinable<P, A, G> + Clone + Eq + PartialEq,
    I: Initializer<P, A, G>,
    F: Fn(&Vec<Vec<u64>>, Option<usize>) -> u64,
>(after: GraphView<G, A>, budgets: Seq<ISMCTSPlayerParams>, rank: F, games: usize)
    requires
        is_batch::<P, A, G, I, F>(after, budgets, rank, games),
    ensures
        rooted::<P, A, G, I>(after),
    decreases games,
{
    if games > 0 {
        let earlier = choose|earlier: GraphView<G, A>|
            is_batch::<P, A, G, I, F>(earlier, budgets, rank, (games - 1) as usize)
                && #[trigger] is_game::<P, A, G, I, F>(
                earlier,
                after,
                budgets,
                rank,
                (games - 1) as usize,
            );
        lemma_batch_rooted::<P, A, G, I, F>(earlier, budgets, rank, (games - 1) as usize);
        let (opening, state, steps) = choose|opening: G, state: G, steps: usize| #[trigger]
            game_of::<P, A, G, I, F>(
                earlier,
                after,
                opening,
                state,
                budgets,
                rank,
                (games - 1) as usize,
                steps,
            );
        lemma_game_rooted::<P, A, G, I, F>(
            earlier,
            after,
            opening,
            state,
            budgets,
            rank,
            (games - 1) as usize,
            steps,
        );
    }
}

/// Plays game `sim_n` of a batch of self-play and records it in `graph`.
///
/// The game starts from the state that the initializer `I` gives with a
/// generator seeded with `sim_params.seed`, and makes its moves with a
/// generator seeded with `sim_params.seed + sim_n`. While the game is not
/// over, the player to move chooses with [`ismcts_mt`], with the budget that
/// `sim_params.sim_players` holds at that player's place in the roster of the
/// opening state and with `rank` to rank the moves; the move is made, and the
/// state it leads to and the move are recorded.
///
/// The game also ends where no move is left, or where the player to move has
/// no budget; and it is broken off when the graph is full.
///
/// The graph must not be full.
pub fn play_game<P, A, G, I, F>(
    graph: &mut SelfPlayGraph<G, A>,
    sim_params: &ISMCTSParams,
    sim_n: usize,
    rank: &F,
) where
    P: PartialEq,
    A: Clone + Eq + PartialEq,
    G: Clone + Eq + PartialEq + Mcts<P, A> + Determinable<P, A, G>,
    I: Initializer<P, A, G>,
    F: Fn(&Vec<Vec<u64>>, Option<usize>) -> u64,

    requires
        obeys_concrete_eq::<P>(),
        obeys_concrete_eq::<A>(),
        obeys_concrete_eq::<G>(),
        clones_exactly::<A>(),
        clones_exactly::<G>(),
        sim_params.seed + sim_n <= u64::MAX,
        forall|rows: &Vec<Vec<u64>>, place: Option<usize>| call_requires(*rank, (rows, place)),
        old(graph).wf(),
        !old(graph).full(),
        edges_are_moves::<P, A, G>(old(graph)@),
    ensures
        final(graph).wf(),
        edges_are_moves::<P, A, G>(final(graph)@),
        is_game::<P, A, G, I, F>(old(graph)@, final(graph)@, sim_params.sim_players@, *rank, sim_n),
        final(graph)@.nodes.len() >= old(graph)@.nodes.len(),
        forall|i: int|
            0 <= i < old(graph)@.nodes.len() ==> #[trigger] final(graph)@.nodes[i]
                == old(graph)@.nodes[i],
        forall|i: int|
            old(graph)@.nodes.len() <= i < final(graph)@.nodes.len() ==> (
            #[trigger] final(graph)@.nodes[i]).sim_index == sim_n,
        final(graph)@.arrivals - final(graph)@.moves() == old(graph)@.arrivals
            - old(graph)@.moves() + 1,
{
    let ghost before = graph@;
    let ghost budgets = sim_params.sim_players@;
    let mut not_rng = seed_from_u64(sim_params.seed);
    let mut per_sim_rng = seed_from_u64(sim_params.seed + (sim_n as u64));
    let mut game = I::initialize(&mut not_rng);
    let players = game.players();
    let ghost opening = game;
    let ghost roster = players@;
    let mut step: usize = 0;
    proof {
        before.lemma_with_state_well_formed(game, sim_n, step);
        lemma_state_keeps_moves::<P, A, G>(before, game, sim_n, step);
    }
    let mut current = add_state_to_graph(graph, &game, sim_n, step);
    let ghost start = graph@;
    step += 1;
    loop
        invariant
            obeys_concrete_eq::<P>(),
            obeys_concrete_eq::<A>(),
            obeys_concrete_eq::<G>(),
            clones_exactly::<A>(),
            clones_exactly::<G>(),
            forall|rows: &Vec<Vec<u64>>, place: Option<usize>| call_requires(*rank, (rows, place)),
            budgets == sim_params.sim_players@,
            roster == players@,
            roster == opening.roster(),
            graph.wf(),
            edges_are_moves::<P, A, G>(graph@),
            graph@.holds(current as int, game),
            graph@.out_count(current as int) < graph@.passes[current as int],
            1 <= step <= graph@.arrivals,
            played::<P, A, G, F>(
                start,
                graph@,
                opening,
                game,
                roster,
                budgets,
                *rank,
                sim_n,
                (step - 1) as usize,
            ),
            graph@.nodes.len() >= before.nodes.len(),
            forall|i: int|
                0 <= i < before.nodes.len() ==> #[trigger] graph@.nodes[i] == before.nodes[i],
            forall|i: int|
                before.nodes.len() <= i < graph@.nodes.len() ==> (#[trigger] graph@.nodes[i]).sim_index
                    == sim_n,
            graph@.arrivals - graph@.moves() == before.arrivals - before.moves() + 1,
        ensures
            graph.wf(),
            edges_are_moves::<P, A, G>(graph@),
            played::<P, A, G, F>(
                start,
                graph@,
                opening,
                game,
                roster,
                budgets,
                *rank,
                sim_n,
                (step - 1) as usize,
            ),
            game_stops::<P, A, G>(game, roster, budgets) || graph@.is_full(),
            graph@.nodes.len() >= before.nodes.len(),
            forall|i: int|
                0 <= i < before.nodes.len() ==> #[trigger] graph@.nodes[i] == before.nodes[i],
            forall|i: int|
                before.nodes.len() <= i < graph@.nodes.len() ==> (#[trigger] graph@.nodes[i]).sim_index
                    == sim_n,
            graph@.arrivals - graph@.moves() == before.arrivals - before.moves() + 1,
        decreases game.horizon(),
    {
        if game.outcome().is_some() {
            break ;
        }
        if game.actions().len() == 0 {
            break ;
        }
        let current_player = game.current_player();
        let place = position(&players, &current_player);
        proof {
            lemma_budget_at(roster, budgets, current_player, place);
        }
        let budget = match place {
            Some(idx) => {
                if idx < sim_params.sim_players.len() {
                    Some(sim_params.sim_players[idx])
                } else {
                    None
                }
            },
            None => None,
        };
        let sim_player = match budget {
            Some(sim_player) => sim_player,
            None => {
                break ;
            },
        };
        let ai_selected_action = ismcts_mt(
            &game,
            &per_sim_rng,
            sim_player.num_determinations,
            sim_player.num_simulations_per_action,
            rank,
        );
        let next = game.apply_action(copy_of(&ai_selected_action), &mut per_sim_rng).unwrap();
        if graph.is_full() {
            break ;
        }
        let ghost view = graph@;
        proof {
            view.lemma_with_state_well_formed(next, sim_n, step);
            lemma_state_keeps_moves::<P, A, G>(view, next, sim_n, step);
        }
        let new_node_idx = add_state_to_graph(graph, &next, sim_n, step);
        let ghost middle = graph@;
        proof {
            assert(middle.nodes[current as int] == view.nodes[current as int]);
            assert(middle.holds(new_node_idx as int, next));
            assert(new_node_idx != current);
            assert(middle.out_count(current as int) == view.out_count(current as int));
            middle.lemma_with_action_well_formed(
                current as int,
                new_node_idx as int,
                ai_selected_action,
            );
            lemma_action_keeps_moves::<P, A, G>(
                middle,
                current as int,
                new_node_idx as int,
                ai_selected_action,
            );
        }
        add_action_to_graph(graph, ai_selected_action, current, new_node_idx);
        proof {
            assert(graph@.nodes == middle.nodes);
            assert(graph@.passes == middle.passes);
            assert(graph@.out_count(new_node_idx as int) == middle.out_count(new_node_idx as int));
            let j = choose|j: int|
                0 <= j < game.legal_actions().len() && ai_selected_action
                    == game.legal_actions()[j] && #[trigger] is_choice::<P, A, G, F>(
                    game,
                    sim_player.num_determinations as nat,
                    sim_player.num_simulations_per_action as nat,
                    *rank,
                    j,
                );
            assert(view.holds(view.place_of(game), game));
            view.lemma_equal_states_share_node(current as int, view.place_of(game));
            assert(move_by::<P, A, G, F>(
                view,
                graph@,
                game,
                next,
                roster,
                budgets,
                *rank,
                sim_n,
                step,
                j,
            ));
            assert(is_move::<P, A, G, F>(
                view,
                graph@,
                game,
                next,
                roster,
                budgets,
                *rank,
                sim_n,
                step,
            ));
            assert forall|i: int| before.nodes.len() <= i < graph@.nodes.len() implies (
            #[trigger] graph@.nodes[i]).sim_index == sim_n by {
                if i < view.nodes.len() {
                    assert(graph@.nodes[i] == view.nodes[i]);
                }
            }
        }
        step += 1;
        game = next;
        current = new_node_idx;
    }
    proof {
        assert(game_of::<P, A, G, I, F>(
            before,
            graph@,
            opening,
            game,
            budgets,
            *rank,
            sim_n,
            (step - 1) as usize,
        ));
    }
}

/// Plays `sim_params.num_sims` games of self-play, one after the other, and
/// returns the graph of the states that they went through and of the moves
/// between them (see [`play_game`]). Each game opens in the state that the
/// initializer `I` gives, and every node of the graph can be reached from
/// such a state. All games start alike; game `n` makes its moves with a
/// generator seeded with `sim_params.seed + n`.
///
/// If the graph becomes full, it is returned as it is and no further game is
/// played.
pub fn generate_graph<P, A, G, I, F>(sim_params: ISMCTSParams, rank: &F) -> (graph: SelfPlayGraph<
    G,
    A,
>) where
    P: PartialEq,
    A: Clone + Eq + PartialEq,
    G: Clone + Eq + PartialEq + Mcts<P, A> + Determinable<P, A, G>,
    I: Initializer<P, A, G>,
    F: Fn(&Vec<Vec<u64>>, Option<usize>) -> u64,

    requires
        obeys_concrete_eq::<P>(),
        obeys_concrete_eq::<A>(),
        obeys_concrete_eq::<G>(),
        clones_exactly::<A>(),
        clones_exactly::<G>(),
        sim_params.num_sims == 0 || sim_params.seed + sim_params.num_sims - 1 <= u64::MAX,
        forall|rows: &Vec<Vec<u64>>, place: Option<usize>| call_requires(*rank, (rows, place)),
    ensures
        graph.wf(),
        exists|games: usize|
            {
                &&& games <= sim_params.num_sims
                &&& #[trigger] is_batch::<P, A, G, I, F>(
                    graph@,
                    sim_params.sim_players@,
                    *rank,
                    games,
                )
                &&& games == sim_params.num_sims || graph.full()
            },
        rooted::<P, A, G, I>(graph@),
        edges_are_moves::<P, A, G>(graph@),
        forall|i: int|
            0 <= i < graph@.nodes.len() ==> (#[trigger] graph@.nodes[i]).sim_index
                < sim_params.num_sims,
        sim_params.num_sims == 0 ==> graph@ == GraphView::<G, A>::empty(),
        graph@.arrivals <= sim_params.num_sims + graph@.moves(),
        !graph.full() ==> graph@.arrivals == sim_params.num_sims + graph@.moves(),
{
    let mut graph: SelfPlayGraph<G, A> = SelfPlayGraph::new();
    let mut sim_n: usize = 0;
    proof {
        assert(graph@.moves() == 0);
    }
    while sim_n < sim_params.num_sims
        invariant
            obeys_concrete_eq::<P>(),
            obeys_concrete_eq::<A>(),
            obeys_concrete_eq::<G>(),
            clones_exactly::<A>(),
            clones_exactly::<G>(),
            sim_params.num_sims == 0 || sim_params.seed + sim_params.num_sims - 1 <= u64::MAX,
            forall|rows: &Vec<Vec<u64>>, place: Option<usize>| call_requires(*rank, (rows, place)),
            sim_n <= sim_params.num_sims,
            graph.wf(),
            is_batch::<P, A, G, I, F>(graph@, sim_params.sim_players@, *rank, sim_n),
            edges_are_moves::<P, A, G>(graph@),
            forall|i: int|
                0 <= i < graph@.nodes.len() ==> (#[trigger] graph@.nodes[i]).sim_index < sim_n,
            sim_n == 0 ==> graph@ == GraphView::<G, A>::empty(),
            graph@.arrivals == sim_n + graph@.moves(),
        decreases sim_params.num_sims - sim_n,
    {
        if graph.is_full() {
            proof {
                lemma_batch_rooted::<P, A, G, I, F>(graph@, sim_params.sim_players@, *rank, sim_n);
            }
            return graph;
        }
        let ghost earlier = graph@;
        play_game::<P, A, G, I, F>(&mut graph, &sim_params, sim_n, rank);
        sim_n += 1;
        proof {
            assert(is_batch::<P, A, G, I, F>(
                earlier,
                sim_params.sim_players@,
                *rank,
                (sim_n - 1) as usize,
            ));
            assert(is_game::<P, A, G, I, F>(
                earlier,
                graph@,
                sim_params.sim_players@,
                *rank,
                (sim_n - 1) as usize,
            ));
            assert forall|i: int| 0 <= i < graph@.nodes.len() implies (
            #[trigger] graph@.nodes[i]).sim_index < sim_n by {
                if i < earlier.nodes.len() {
                    assert(graph@.nodes[i] == earlier.nodes[i]);
                }
            }
        }
    }
    proof {
        lemma_batch_rooted::<P, A, G, I, F>(graph@, sim_params.sim_players@, *rank, sim_n);
    }
    graph
}

} // verus!
