use mcts::Mcts;
use mcts::Outcome;
use mcts::VecTree;
use rand::SeedableRng;
use rand_pcg::Pcg64;
use std::ops::Range;

#[derive(Eq, PartialEq, Hash, Clone)]
pub struct NumberGamePlayer {
    name: String,
    alive: bool,
    numbers: Vec<u8>,
}

#[derive(Eq, PartialEq, Hash, Clone)]
pub struct NumberGame {
    guess_range: Range<u8>,
    players: Vec<NumberGamePlayer>,
    state: NumberGameState,
}

#[derive(Eq, PartialEq, Hash, Clone)]
pub enum NumberGameState {
    PlayerMustSelectNumber(usize, usize), //(player_idx, number_idx)
    PlayerMustGuessNumber(usize),         //(player_idx)
    PlayerMustRespondToGuess(usize, u8),  //(player_idx, guess_number)
    Winner(usize),
}

#[derive(Eq, PartialEq, Hash, Clone, Debug)]
pub enum NumberGameAction {
    SelectNumber(usize, usize, u8), // (player_idx, number_idx, guess_number)
    Guess(usize, usize, u8),        // (player_idx, opponent_player_idx, guess_number)
    Respond(usize, Response),       // (player_idx, response)
}

#[derive(Eq, PartialEq, Hash, Clone, Debug)]
pub enum Response {
    GuessIsCorrect,
    GuessIsGreaterThanAction,
    GuessIsLesserThanActual,
    NoResponse,
}

impl Default for NumberGame {
    fn default() -> Self {
        NumberGame {
            guess_range: 1..20,
            players: vec![
                NumberGamePlayer { name: "Jim".to_string(), alive: true, numbers: vec![0, 0] },
                NumberGamePlayer { name: "Pam".to_string(), alive: true, numbers: vec![0, 0] },
                NumberGamePlayer { name: "Michael".to_string(), alive: true, numbers: vec![0, 0] },
            ],
            state: NumberGameState::PlayerMustSelectNumber(0, 0),
        }
    }
}

impl NumberGame {
    fn living_opponents(&self, player_idx: usize) -> Vec<usize> {
        self.players
            .iter()
            .enumerate()
            .filter(move |(idx, player)| *idx != player_idx && player.alive)
            .map(|(idx, _)| idx)
            .collect()
    }

    fn next_living_player_idx(&self, player_idx: usize) -> usize {
        let mut next = (player_idx + 1) % self.players.len();
        while !self.players[next].alive {
            next = (next + 1) % self.players.len();
        }
        next
    }
}

impl Mcts<usize, NumberGameAction> for NumberGame {
    type Error = ();

    fn actions(&self) -> Vec<NumberGameAction> {
        let mut actions = Vec::new();
        match self.state {
            NumberGameState::PlayerMustSelectNumber(player_idx, number_idx) => {
                for n in self.guess_range.clone() {
                    actions.push(NumberGameAction::SelectNumber(player_idx, number_idx, n))
                }
            }
            NumberGameState::PlayerMustGuessNumber(player_idx) => {
                for opp_idx in self.living_opponents(player_idx) {
                    for n in self.guess_range.clone() {
                        actions.push(NumberGameAction::Guess(player_idx, opp_idx, n))
                    }
                }
            }
            NumberGameState::PlayerMustRespondToGuess(_, _) => {}
            NumberGameState::Winner(_) => {}
        }
        actions
    }

    fn apply_action(&self, action: NumberGameAction, _rng: &mut Pcg64) -> Result<Self, ()> {
        let mut game = self.clone();
        match action {
            NumberGameAction::SelectNumber(player_idx, number_idx, n) => {
                game.players[player_idx].numbers[number_idx] = n;
                if game.players[player_idx].numbers.contains(&0) {
                    game.state = NumberGameState::PlayerMustSelectNumber(player_idx, number_idx + 1);
                } else {
                    let next_player_idx = game.next_living_player_idx(player_idx);
                    if game.players[next_player_idx].numbers.contains(&0) {
                        game.state = NumberGameState::PlayerMustSelectNumber(next_player_idx, 0);
                    } else {
                        game.state = NumberGameState::PlayerMustGuessNumber(0);
                    }
                }
                Ok(game)
            }
            NumberGameAction::Guess(_, _, _) => Ok(game),
            NumberGameAction::Respond(_, _) => Ok(game),
        }
    }

    fn outcome(&self) -> Option<Outcome<usize>> {
        match self.state {
            NumberGameState::Winner(player_idx) => Some(Outcome::Winner(player_idx)),
            _ => None,
        }
    }

    fn current_player(&self) -> usize {
        match self.state {
            NumberGameState::PlayerMustSelectNumber(player_idx, _)
            | NumberGameState::PlayerMustGuessNumber(player_idx)
            | NumberGameState::PlayerMustRespondToGuess(player_idx, _)
            | NumberGameState::Winner(player_idx) => player_idx,
        }
    }

    fn players(&self) -> Vec<usize> {
        (0..self.players.len()).collect()
    }
}

#[test]
fn tree_test() {
    let game = NumberGame::default();

    let _rng = rand_pcg::Pcg32::seed_from_u64(0);

    let tree = VecTree::from_state(game);
    assert_eq!(tree.node_count(), 1);
    assert_eq!(tree.get(0).num_visits(), 0);
    assert!(tree.get(0).is_leaf());
}

#[test]
fn number_game_root_expands_into_one_child_per_number() {
    let mut rng = Pcg64::seed_from_u64(0);
    let mut tree = VecTree::from_state(NumberGame::default());
    tree.expand(0, &mut rng);
    assert_eq!(tree.node_count(), 20);
    let expected: Vec<usize> = (1..20).collect();
    assert_eq!(tree.get(0).children(), &expected);
    let actions = tree.get(0).state().actions();
    for (k, child) in tree.get(0).children().iter().enumerate() {
        let node = tree.get(*child);
        assert_eq!(node.parent_idx(), Some(0));
        assert_eq!(node.num_visits(), 0);
        assert!(node.is_leaf());
        let expected_state = NumberGame::default().apply_action(actions[k].clone(), &mut rng).unwrap();
        assert!(*node.state() == expected_state);
    }
}
