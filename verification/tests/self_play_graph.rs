use mcts::generate_graph;
use mcts::graph::add_action_to_graph;
use mcts::graph::add_state_to_graph;
use mcts::Determinable;
use mcts::ISMCTSParams;
use mcts::ISMCTSPlayerParams;
use mcts::Initializer;
use mcts::Mcts;
use mcts::Outcome;
use mcts::SelfPlayGraph;
use petgraph::stable_graph::EdgeIndex;
use petgraph::stable_graph::NodeIndex;
use rand::Rng;
use rand_pcg::Pcg64;

fn key_of(x: f64) -> u64 {
    if x.is_nan() {
        return 0;
    }
    let bits = x.to_bits();
    if bits >> 63 == 1 {
        !bits
    } else {
        bits | (1 << 63)
    }
}

fn differential(rows: &Vec<Vec<u64>>, root: Option<usize>) -> u64 {
    let players = rows.first().map(|row| row.len()).unwrap_or(0);
    let mut mean = vec![0f64; players];
    for row in rows {
        let max = row.iter().copied().max().unwrap_or(0);
        if max > 0 {
            for p in 0..players {
                mean[p] += row[p] as f64 / max as f64;
            }
        }
    }
    for score in mean.iter_mut() {
        *score /= rows.len() as f64;
    }
    let own = root.map(|r| mean[r]).unwrap_or(0.0);
    let others: Vec<f64> =
        mean.iter().enumerate().filter(|(p, _)| Some(*p) != root).map(|(_, s)| *s).collect();
    let opponents =
        if others.is_empty() { 0.0 } else { others.iter().sum::<f64>() / others.len() as f64 };
    key_of(own - opponents)
}

fn params(seed: u64, num_sims: usize, players: usize) -> ISMCTSParams {
    ISMCTSParams {
        seed,
        num_sims,
        max_cores: 1,
        sim_players: vec![
            ISMCTSPlayerParams { num_determinations: 4, num_simulations_per_action: 10 };
            players
        ],
    }
}

/// A walk on the numbers: from `at`, a move adds 1 or 2 until `goal` is
/// reached or passed; the players take turns and the one who arrives wins.
/// The initializers below pick the opening state.
#[derive(Clone, Debug, PartialEq, Eq)]
struct Walk {
    at: u32,
    goal: u32,
    steps: Vec<u32>,
    dead_end: bool,
}

impl Mcts<usize, u32> for Walk {
    type Error = String;

    fn actions(&self) -> Vec<u32> {
        if self.dead_end || self.at >= self.goal {
            vec![]
        } else {
            self.steps.clone()
        }
    }

    fn apply_action(&self, action: u32, _rng: &mut Pcg64) -> Result<Self, String> {
        if !self.actions().contains(&action) {
            return Err(format!("cannot step {}", action));
        }
        Ok(Walk { at: self.at + action, ..self.clone() })
    }

    fn outcome(&self) -> Option<Outcome<usize>> {
        if !self.dead_end && self.at >= self.goal {
            Some(Outcome::Winner(((self.at + 1) % 2) as usize))
        } else {
            None
        }
    }

    fn current_player(&self) -> usize {
        (self.at % 2) as usize
    }

    fn players(&self) -> Vec<usize> {
        vec![0, 1]
    }
}

impl Determinable<usize, u32, Walk> for Walk {
    fn determine(&self, _rng: &mut Pcg64, _perspective_player: usize) -> Walk {
        self.clone()
    }
}

struct OneStep;

impl Initializer<usize, u32, Walk> for OneStep {
    fn initialize(_rng: &mut Pcg64) -> Walk {
        Walk { at: 0, goal: 1, steps: vec![1], dead_end: false }
    }
}

struct Finished;

impl Initializer<usize, u32, Walk> for Finished {
    fn initialize(_rng: &mut Pcg64) -> Walk {
        Walk { at: 3, goal: 3, steps: vec![1], dead_end: false }
    }
}

struct Stuck;

impl Initializer<usize, u32, Walk> for Stuck {
    fn initialize(_rng: &mut Pcg64) -> Walk {
        Walk { at: 0, goal: 3, steps: vec![1], dead_end: true }
    }
}

struct LongWalk;

impl Initializer<usize, u32, Walk> for LongWalk {
    fn initialize(_rng: &mut Pcg64) -> Walk {
        Walk { at: 0, goal: 9, steps: vec![1, 2], dead_end: false }
    }
}

struct Straight;

impl Initializer<usize, u32, Walk> for Straight {
    fn initialize(_rng: &mut Pcg64) -> Walk {
        Walk { at: 0, goal: 4, steps: vec![1], dead_end: false }
    }
}

struct Drawn;

impl Initializer<usize, u32, Walk> for Drawn {
    fn initialize(rng: &mut Pcg64) -> Walk {
        Walk { at: rng.gen_range(0..1000), goal: 2000, steps: vec![], dead_end: true }
    }
}

fn endpoints<G: Clone + Eq, A: Clone + Eq>(graph: &SelfPlayGraph<G, A>, k: usize) -> (usize, usize) {
    let (from, to) = graph.topology().edge_endpoints(EdgeIndex::new(k)).unwrap();
    (from.index(), to.index())
}

fn outgoing<G: Clone + Eq, A: Clone + Eq>(graph: &SelfPlayGraph<G, A>, node: usize) -> usize {
    (0..graph.edges().len())
        .filter(|k| endpoints(graph, *k).0 == node)
        .map(|k| graph.edges()[k].count)
        .sum()
}

#[test]
fn single_action_game_gives_two_nodes_and_one_edge() {
    let graph =
        generate_graph::<usize, u32, Walk, OneStep, _>(params(0, 1, 2), &differential);
    assert_eq!(graph.nodes().len(), 2);
    assert_eq!(graph.edges().len(), 1);
    assert_eq!(graph.edges()[0].count, 1);
    assert_eq!(graph.edges()[0].action, 1);
    assert_eq!(endpoints(&graph, 0), (0, 1));
    assert_eq!(graph.nodes()[0].state.at, 0);
    assert_eq!(graph.nodes()[1].state.at, 1);
    assert_eq!((graph.nodes()[0].sim_index, graph.nodes()[0].step_index), (0, 0));
    assert_eq!((graph.nodes()[1].sim_index, graph.nodes()[1].step_index), (0, 1));
    assert_eq!(graph.topology().node_count(), 2);
    assert_eq!(graph.topology().edge_count(), 1);
    assert_eq!(graph.topology().node_weight(NodeIndex::new(1)), Some(&1));
    assert_eq!(graph.topology().edge_weight(EdgeIndex::new(0)), Some(&0));
}

#[test]
fn no_games_give_an_empty_graph() {
    let graph =
        generate_graph::<usize, u32, Walk, LongWalk, _>(params(3, 0, 2), &differential);
    assert_eq!(graph.nodes().len(), 0);
    assert_eq!(graph.edges().len(), 0);
    assert_eq!(graph.topology().node_count(), 0);
    assert_eq!(graph.topology().edge_count(), 0);
}

#[test]
fn finished_opening_state_is_the_only_node() {
    let graph =
        generate_graph::<usize, u32, Walk, Finished, _>(params(0, 1, 2), &differential);
    assert_eq!(graph.nodes().len(), 1);
    assert_eq!(graph.edges().len(), 0);
    let more = generate_graph::<usize, u32, Walk, Finished, _>(params(0, 5, 2), &differential);
    assert_eq!(more.nodes().len(), 1);
    assert_eq!(more.edges().len(), 0);
    assert_eq!((more.nodes()[0].sim_index, more.nodes()[0].step_index), (0, 0));
}

#[test]
fn opening_state_without_moves_is_the_only_node() {
    let graph = generate_graph::<usize, u32, Walk, Stuck, _>(params(0, 1, 2), &differential);
    assert_eq!(graph.nodes().len(), 1);
    assert_eq!(graph.edges().len(), 0);
}

#[test]
fn player_without_budget_ends_the_game() {
    let graph =
        generate_graph::<usize, u32, Walk, Straight, _>(params(0, 1, 0), &differential);
    assert_eq!(graph.nodes().len(), 1);
    assert_eq!(graph.edges().len(), 0);
    // player 1 moves at step 1 and has no budget
    let graph =
        generate_graph::<usize, u32, Walk, Straight, _>(params(0, 1, 1), &differential);
    assert_eq!(graph.nodes().len(), 2);
    assert_eq!(graph.edges().len(), 1);
}

#[test]
fn one_more_game_adds_one_more_trajectory() {
    for k in 0..4usize {
        let graph =
            generate_graph::<usize, u32, Walk, Straight, _>(params(5, k, 2), &differential);
        let more =
            generate_graph::<usize, u32, Walk, Straight, _>(params(5, k + 1, 2), &differential);
        assert_eq!(more.nodes().len(), 5);
        assert_eq!(more.edges().len(), 4);
        for edge in 0..4 {
            assert_eq!(more.edges()[edge].count, k + 1);
            assert_eq!(endpoints(&more, edge), (edge, edge + 1));
            if k > 0 {
                assert_eq!(graph.edges()[edge].count, k);
            }
        }
        if k == 0 {
            assert_eq!(graph.nodes().len(), 0);
        } else {
            assert!(graph.nodes() == more.nodes());
        }
    }
}

#[test]
fn same_seed_gives_the_same_graph() {
    let first = generate_graph::<usize, u32, Walk, LongWalk, _>(params(8, 6, 2), &differential);
    let second = generate_graph::<usize, u32, Walk, LongWalk, _>(params(8, 6, 2), &differential);
    assert!(first.nodes() == second.nodes());
    assert!(first.edges() == second.edges());
    for k in 0..first.edges().len() {
        assert_eq!(endpoints(&first, k), endpoints(&second, k));
    }
}

#[test]
fn every_game_starts_from_the_same_drawn_state() {
    let graph = generate_graph::<usize, u32, Walk, Drawn, _>(params(21, 5, 2), &differential);
    assert_eq!(graph.nodes().len(), 1);
}

#[test]
fn equal_states_share_one_node() {
    let graph = generate_graph::<usize, u32, Walk, LongWalk, _>(params(1, 12, 2), &differential);
    let nodes = graph.nodes();
    assert!(nodes.len() >= 2);
    assert!(nodes.len() <= 11);
    for i in 0..nodes.len() {
        for j in 0..i {
            assert!(nodes[i].state != nodes[j].state);
        }
    }
    for k in 0..graph.edges().len() {
        for l in 0..k {
            assert!(
                endpoints(&graph, k) != endpoints(&graph, l)
                    || graph.edges()[k].action != graph.edges()[l].action
            );
        }
        let (from, to) = endpoints(&graph, k);
        assert_eq!(nodes[from].state.at + graph.edges()[k].action, nodes[to].state.at);
        assert!(graph.edges()[k].count >= 1);
    }
    assert_eq!(nodes[0].state.at, 0);
    assert_eq!(outgoing(&graph, 0), 12);
}

#[test]
fn moves_from_a_node_are_no_more_than_the_games_that_came_to_it() {
    let games = 9usize;
    let graph =
        generate_graph::<usize, u32, Walk, LongWalk, _>(params(2, games, 2), &differential);
    for node in 0..graph.nodes().len() {
        let incoming: usize = (0..graph.edges().len())
            .filter(|k| endpoints(&graph, *k).1 == node)
            .map(|k| graph.edges()[k].count)
            .sum();
        let arrivals = if node == 0 { games } else { incoming };
        assert!(outgoing(&graph, node) <= arrivals);
        if graph.nodes()[node].state.outcome().is_none() {
            assert_eq!(outgoing(&graph, node), arrivals);
        } else {
            assert_eq!(outgoing(&graph, node), 0);
        }
        assert!(graph.nodes()[node].sim_index < games);
    }
}

#[test]
fn two_actions_to_the_same_state_make_two_edges() {
    let mut graph: SelfPlayGraph<&str, char> = SelfPlayGraph::new();
    let root = add_state_to_graph(&mut graph, &"root", 0, 0);
    let next = add_state_to_graph(&mut graph, &"next", 0, 1);
    add_action_to_graph(&mut graph, 'A', root, next);
    let root_again = add_state_to_graph(&mut graph, &"root", 1, 0);
    let next_again = add_state_to_graph(&mut graph, &"next", 1, 1);
    add_action_to_graph(&mut graph, 'B', root_again, next_again);
    assert_eq!((root, next), (0, 1));
    assert_eq!((root_again, next_again), (0, 1));
    assert_eq!(graph.nodes().len(), 2);
    assert_eq!(graph.edges().len(), 2);
    assert_eq!(endpoints(&graph, 0), (0, 1));
    assert_eq!(endpoints(&graph, 1), (0, 1));
    assert_eq!((graph.edges()[0].action, graph.edges()[0].count), ('A', 1));
    assert_eq!((graph.edges()[1].action, graph.edges()[1].count), ('B', 1));
    assert_eq!((graph.nodes()[1].sim_index, graph.nodes()[1].step_index), (0, 1));
}

#[test]
fn repeated_move_is_counted_on_its_edge() {
    let mut graph: SelfPlayGraph<u8, char> = SelfPlayGraph::new();
    assert!(!graph.is_full());
    for game in 0..3usize {
        let a = add_state_to_graph(&mut graph, &1, game, 0);
        let b = add_state_to_graph(&mut graph, &2, game, 1);
        add_action_to_graph(&mut graph, 'x', a, b);
        let c = add_state_to_graph(&mut graph, &1, game, 2);
        add_action_to_graph(&mut graph, 'y', b, c);
        assert_eq!((a, b, c), (0, 1, 0));
    }
    assert_eq!(graph.nodes().len(), 2);
    assert_eq!(graph.edges().len(), 2);
    assert_eq!(endpoints(&graph, 0), (0, 1));
    assert_eq!(endpoints(&graph, 1), (1, 0));
    assert_eq!((graph.edges()[0].action, graph.edges()[0].count), ('x', 3));
    assert_eq!((graph.edges()[1].action, graph.edges()[1].count), ('y', 3));
    assert_eq!((graph.nodes()[0].sim_index, graph.nodes()[0].step_index), (0, 0));
    assert_eq!(graph.topology().edge_count(), 2);
    assert_eq!(graph.topology().node_count(), 2);
}

#[test]
fn topology_agrees_with_the_tables() {
    let graph = generate_graph::<usize, u32, Walk, LongWalk, _>(params(4, 10, 2), &differential);
    let topology = graph.topology();
    assert_eq!(topology.node_count(), graph.nodes().len());
    assert_eq!(topology.edge_count(), graph.edges().len());
    for i in 0..graph.nodes().len() {
        assert_eq!(topology.node_weight(NodeIndex::new(i)), Some(&i));
    }
    for k in 0..graph.edges().len() {
        assert_eq!(topology.edge_weight(EdgeIndex::new(k)), Some(&k));
        let (from, to) = endpoints(&graph, k);
        assert!(from < graph.nodes().len() && to < graph.nodes().len());
        let between: Vec<usize> = topology
            .edges_connecting(NodeIndex::new(from), NodeIndex::new(to))
            .map(|edge| *edge.weight())
            .collect();
        assert!(between.contains(&k));
    }
    let moves: usize = graph.edges().iter().map(|edge| edge.count).sum();
    assert_eq!(graph.arrivals(), 10 + moves);
}

#[test]
fn greatest_seed_is_taken_for_one_game() {
    let graph =
        generate_graph::<usize, u32, Walk, OneStep, _>(params(u64::MAX, 1, 2), &differential);
    assert_eq!(graph.nodes().len(), 2);
    assert_eq!(graph.edges().len(), 1);
    let none =
        generate_graph::<usize, u32, Walk, OneStep, _>(params(u64::MAX, 0, 2), &differential);
    assert_eq!(none.nodes().len(), 0);
}

#[test]
fn every_node_is_reached_from_the_opening_state() {
    let graph = generate_graph::<usize, u32, Walk, LongWalk, _>(params(6, 15, 2), &differential);
    let nodes = graph.nodes();
    assert_eq!(nodes[0].state.at, 0);
    assert_eq!((nodes[0].sim_index, nodes[0].step_index), (0, 0));
    let mut reached = vec![false; nodes.len()];
    reached[0] = true;
    let mut grew = true;
    while grew {
        grew = false;
        for k in 0..graph.edges().len() {
            let (from, to) = endpoints(&graph, k);
            if reached[from] && !reached[to] {
                reached[to] = true;
                grew = true;
            }
        }
    }
    assert!(reached.iter().all(|r| *r));
    for node in nodes.iter() {
        assert!(node.step_index as u32 <= node.state.at);
        assert!(node.state.at <= 2 * node.step_index as u32);
    }
}
