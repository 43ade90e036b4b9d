use mcts::mcts;
use mcts::Mcts;
use mcts::Outcome;
use mcts::VecTree;
use rand::SeedableRng;
use rand_pcg::Pcg64;

/// The usual UCB1 score with exploration constant sqrt(2) and a little noise,
/// as an integer that keeps the order of the floating-point value.
fn ucb1(value: u64, visits: u64, parent_visits: u64, noise: u32) -> u64 {
    let exploitation = value as f64 / visits as f64;
    let exploration = 2f64.sqrt() * ((parent_visits as f64 + 1.0).ln() / visits as f64).sqrt();
    let ucb = exploitation + exploration + noise as f64 / 4294967296.0 * 1e-6;
    ucb.to_bits()
}

/// Player 0 picks `A` and wins, or picks `B` and player 1 wins.
#[derive(Clone, Debug, PartialEq, Eq)]
enum Fork {
    Root,
    WonByZero,
    WonByOne,
}

impl Mcts<usize, char> for Fork {
    type Error = String;

    fn actions(&self) -> Vec<char> {
        match self {
            Fork::Root => vec!['A', 'B'],
            _ => vec![],
        }
    }

    fn apply_action(&self, action: char, _rng: &mut Pcg64) -> Result<Self, String> {
        match (self, action) {
            (Fork::Root, 'A') => Ok(Fork::WonByZero),
            (Fork::Root, 'B') => Ok(Fork::WonByOne),
            _ => Err(format!("illegal move {}", action)),
        }
    }

    fn outcome(&self) -> Option<Outcome<usize>> {
        match self {
            Fork::Root => None,
            Fork::WonByZero => Some(Outcome::Winner(0)),
            Fork::WonByOne => Some(Outcome::Winner(1)),
        }
    }

    fn current_player(&self) -> usize {
        0
    }

    fn players(&self) -> Vec<usize> {
        vec![0, 1]
    }
}

#[test]
fn mcts_prefers_the_winning_move() {
    let mut rng = Pcg64::seed_from_u64(0);
    let action = mcts(&Fork::Root, &mut rng, 100, &ucb1);
    assert_eq!(action, 'A');
}

#[test]
fn root_is_visited_once_per_search() {
    let mut rng = Pcg64::seed_from_u64(0);
    let mut tree = VecTree::from_state(Fork::Root);
    tree.search_n(&mut rng, 100, &ucb1);
    assert_eq!(tree.get(0).num_visits(), 100);
    assert_eq!(tree.node_count(), 3);
    assert_eq!(tree.get(0).children(), &vec![1, 2]);
    let left = tree.get(1).num_visits();
    let right = tree.get(2).num_visits();
    assert_eq!(left + right, 100);
    assert_eq!(tree.get(1).value(), &vec![left, 0]);
    assert_eq!(tree.get(2).value(), &vec![0, right]);
    assert_eq!(tree.best_action(), Some('A'));
}

/// A pile of tokens: a move takes 1 or 2; whoever takes the last wins.
#[derive(Clone, Debug, PartialEq, Eq)]
struct Pile {
    left: u32,
    to_move: usize,
}

impl Mcts<usize, u32> for Pile {
    type Error = String;

    fn actions(&self) -> Vec<u32> {
        (1..=2).filter(|take| *take <= self.left).collect()
    }

    fn apply_action(&self, action: u32, _rng: &mut Pcg64) -> Result<Self, String> {
        if action == 0 || action > 2 || action > self.left {
            return Err(format!("cannot take {}", action));
        }
        Ok(Pile { left: self.left - action, to_move: 1 - self.to_move })
    }

    fn outcome(&self) -> Option<Outcome<usize>> {
        if self.left == 0 {
            Some(Outcome::Winner(1 - self.to_move))
        } else {
            None
        }
    }

    fn current_player(&self) -> usize {
        self.to_move
    }

    fn players(&self) -> Vec<usize> {
        vec![0, 1]
    }
}

/// One move, after which nobody has won and nothing can be done.
#[derive(Clone, Debug, PartialEq, Eq)]
struct Trap {
    sprung: bool,
}

impl Mcts<usize, char> for Trap {
    type Error = String;

    fn actions(&self) -> Vec<char> {
        if self.sprung {
            vec![]
        } else {
            vec!['X']
        }
    }

    fn apply_action(&self, action: char, _rng: &mut Pcg64) -> Result<Self, String> {
        if self.sprung || action != 'X' {
            return Err(format!("illegal move {}", action));
        }
        Ok(Trap { sprung: true })
    }

    fn outcome(&self) -> Option<Outcome<usize>> {
        None
    }

    fn current_player(&self) -> usize {
        0
    }

    fn players(&self) -> Vec<usize> {
        vec![0]
    }
}

#[test]
fn mcts_returns_a_legal_action() {
    for seed in 0..10u64 {
        let mut rng = Pcg64::seed_from_u64(seed);
        for left in 1..8u32 {
            let game = Pile { left, to_move: 0 };
            let action = mcts(&game, &mut rng, 30, &ucb1);
            assert!(game.actions().contains(&action));
        }
    }
}

#[test]
fn mcts_takes_the_last_token_when_it_can() {
    let mut rng = Pcg64::seed_from_u64(0);
    assert_eq!(mcts(&Pile { left: 2, to_move: 0 }, &mut rng, 200, &ucb1), 2);
    assert_eq!(mcts(&Pile { left: 1, to_move: 1 }, &mut rng, 1, &ucb1), 1);
}

#[test]
fn mcts_returns_the_single_action_for_any_positive_budget() {
    for budget in 1..6usize {
        let mut rng = Pcg64::seed_from_u64(budget as u64);
        assert_eq!(mcts(&Pile { left: 1, to_move: 0 }, &mut rng, budget, &ucb1), 1);
        assert_eq!(mcts(&Trap { sprung: false }, &mut rng, budget, &ucb1), 'X');
    }
}

#[test]
fn visits_of_a_node_are_those_of_its_children_and_its_own_stops() {
    let mut rng = Pcg64::seed_from_u64(4);
    let mut tree = VecTree::from_state(Pile { left: 6, to_move: 0 });
    for searches in 1..=200u64 {
        tree.search(&mut rng, &ucb1);
        assert_eq!(tree.get(0).num_visits(), searches);
    }
    let mut ends = 0u64;
    for i in 0..tree.node_count() {
        let node = tree.get(i);
        let below: u64 = node.children().iter().map(|c| tree.get(*c).num_visits()).sum();
        assert!(below <= node.num_visits());
        let stops = node.num_visits() - below;
        if node.is_leaf() {
            assert_eq!(stops, node.num_visits());
        } else if i == 0 {
            assert_eq!(stops, 0);
        } else {
            assert!(stops <= 1);
        }
        ends += stops;
        for wins in node.value() {
            assert!(*wins <= node.num_visits());
        }
        assert_eq!(node.value().len(), 2);
        assert_eq!(node.value().iter().sum::<u64>(), node.num_visits());
    }
    assert_eq!(ends, 200);
}

#[test]
fn every_node_but_the_root_has_one_parent() {
    let mut rng = Pcg64::seed_from_u64(6);
    let mut tree = VecTree::from_state(Pile { left: 7, to_move: 0 });
    tree.search_n(&mut rng, 150, &ucb1);
    let mut listed = vec![0usize; tree.node_count()];
    for i in 0..tree.node_count() {
        let node = tree.get(i);
        if !node.is_leaf() {
            assert_eq!(node.children().len(), node.state().actions().len());
        }
        for (k, child) in node.children().iter().enumerate() {
            listed[*child] += 1;
            assert!(*child > i);
            assert_eq!(tree.get(*child).parent_idx(), Some(i));
            let action = node.state().actions()[k];
            let expected = node.state().apply_action(action, &mut rng).unwrap();
            assert_eq!(*tree.get(*child).state(), expected);
        }
    }
    assert_eq!(tree.get(0).parent_idx(), None);
    assert_eq!(listed[0], 0);
    for i in 1..tree.node_count() {
        assert_eq!(listed[i], 1);
    }
}

#[test]
fn unvisited_children_are_selected_first() {
    let mut rng = Pcg64::seed_from_u64(0);
    let mut tree = VecTree::from_state(Pile { left: 5, to_move: 0 });
    tree.expand(0, &mut rng);
    assert_eq!(tree.select(0, &mut rng, &ucb1), 1);
    tree.backpropagate(&vec![0, 1], &Outcome::Winner(0));
    assert_eq!(tree.select(0, &mut rng, &ucb1), 2);
    assert_eq!(tree.get(0).num_visits(), 1);
    assert_eq!(tree.get(1).value(), &vec![1, 0]);
    assert_eq!(tree.ucbt_value(2, &mut rng, &ucb1), None);
    let flat = |_value: u64, _visits: u64, _parent: u64, _noise: u32| -> u64 { 7 };
    assert_eq!(tree.ucbt_value(1, &mut rng, &flat), Some(7));
}

#[test]
fn selection_takes_the_first_highest_score() {
    let mut rng = Pcg64::seed_from_u64(0);
    let mut tree = VecTree::from_state(Pile { left: 5, to_move: 0 });
    tree.expand(0, &mut rng);
    tree.backpropagate(&vec![0, 1], &Outcome::Winner(1));
    tree.backpropagate(&vec![0, 2], &Outcome::Winner(0));
    tree.backpropagate(&vec![0, 2], &Outcome::Winner(1));
    let by_wins = |value: u64, _visits: u64, _parent: u64, _noise: u32| -> u64 { value };
    assert_eq!(tree.select(0, &mut rng, &by_wins), 2);
    let by_visits = |_value: u64, visits: u64, parent: u64, _noise: u32| -> u64 { parent - visits };
    assert_eq!(tree.select(0, &mut rng, &by_visits), 1);
    let flat = |_value: u64, _visits: u64, _parent: u64, _noise: u32| -> u64 { 0 };
    assert_eq!(tree.select(0, &mut rng, &flat), 1);
}

#[test]
fn best_action_compares_the_means_exactly() {
    let mut rng = Pcg64::seed_from_u64(0);
    let mut tree = VecTree::from_state(Pile { left: 5, to_move: 0 });
    assert_eq!(tree.best_action(), None);
    tree.expand(0, &mut rng);
    // nobody has been visited: all means are 0 and the first move is best
    assert_eq!(tree.best_action(), Some(1));
    // child 1: 1 win in 3 visits; child 2: 2 wins in 5 visits
    for winner in [0, 1, 1] {
        tree.backpropagate(&vec![0, 1], &Outcome::Winner(winner));
    }
    for winner in [0, 1, 0, 1, 1] {
        tree.backpropagate(&vec![0, 2], &Outcome::Winner(winner));
    }
    assert_eq!(tree.get(1).value(), &vec![1, 2]);
    assert_eq!(tree.get(2).value(), &vec![2, 3]);
    assert_eq!(tree.get(0).value(), &vec![3, 5]);
    assert_eq!(tree.get(0).num_visits(), 8);
    assert_eq!(tree.best_action(), Some(2));
    // child 1 now has 2 wins in 5 visits: the means are equal, the first wins
    tree.backpropagate(&vec![0, 1], &Outcome::Winner(0));
    tree.backpropagate(&vec![0, 1], &Outcome::Winner(1));
    assert_eq!(tree.best_action(), Some(1));
}

#[test]
fn escape_adds_a_visit_and_no_win() {
    let mut rng = Pcg64::seed_from_u64(0);
    let mut tree = VecTree::from_state(Trap { sprung: false });
    tree.search_n(&mut rng, 5, &ucb1);
    assert_eq!(tree.node_count(), 2);
    assert_eq!(tree.get(0).num_visits(), 5);
    assert_eq!(tree.get(1).num_visits(), 5);
    assert_eq!(tree.get(0).value(), &vec![0]);
    assert_eq!(tree.get(1).value(), &vec![0]);
    assert!(tree.get(1).is_leaf());
}

#[test]
fn several_winners_each_get_one_win() {
    let mut tree = VecTree::from_state(Pile { left: 5, to_move: 0 });
    tree.backpropagate(&vec![0], &Outcome::Winners(vec![1, 0, 1]));
    assert_eq!(tree.get(0).value(), &vec![1, 1]);
    assert_eq!(tree.get(0).num_visits(), 1);
}

#[test]
fn add_node_appends_a_child() {
    let mut tree = VecTree::from_state(Pile { left: 5, to_move: 0 });
    let first = tree.add_node(Pile { left: 4, to_move: 1 }, Some(0));
    let second = tree.add_node(Pile { left: 3, to_move: 0 }, Some(first));
    assert_eq!((first, second), (1, 2));
    assert_eq!(tree.get(0).children(), &vec![1]);
    assert_eq!(tree.get(1).children(), &vec![2]);
    assert_eq!(tree.get(2).parent_idx(), Some(1));
    assert_eq!(tree.get(2).state().left, 3);
    assert_eq!(tree.get(2).value(), &vec![0, 0]);
}
