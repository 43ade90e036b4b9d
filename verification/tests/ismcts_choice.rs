use mcts::ismcts::decide;
use mcts::ismcts::determinization_scores;
use mcts::ismcts::first_max;
use mcts::ismcts_mt;
use mcts::tally::credit;
use mcts::tally::position;
use mcts::tally::zero_row;
use mcts::Determinable;
use mcts::ISMCTSParams;
use mcts::Mcts;
use mcts::Outcome;
use rand::Rng;
use rand::RngCore;
use rand::SeedableRng;
use rand_pcg::Pcg64;

/// An integer that keeps the order of `x`; not-a-number comes lowest.
fn key_of(x: f64) -> u64 {
    if x.is_nan() {
        return 0;
    }
    let bits = x.to_bits();
    if bits >> 63 == 1 {
        !bits
    } else {
        bits | (1 << 63)
    }
}

/// The rank of a move: each row is divided by its greatest entry, the rows are
/// averaged, and the mean of the opponents is taken from the score of the
/// deciding player.
fn differential(rows: &Vec<Vec<u64>>, root: Option<usize>) -> u64 {
    let players = rows.first().map(|row| row.len()).unwrap_or(0);
    let mut mean = vec![0f64; players];
    for row in rows {
        let max = row.iter().copied().max().unwrap_or(0);
        if max > 0 {
            for p in 0..players {
                mean[p] += row[p] as f64 / max as f64;
            }
        }
    }
    for score in mean.iter_mut() {
        *score /= rows.len() as f64;
    }
    let own = root.map(|r| mean[r]).unwrap_or(0.0);
    let others: Vec<f64> =
        mean.iter().enumerate().filter(|(p, _)| Some(*p) != root).map(|(_, s)| *s).collect();
    let opponents =
        if others.is_empty() { 0.0 } else { others.iter().sum::<f64>() / others.len() as f64 };
    key_of(own - opponents)
}

/// A game of one move: the mover names a door; behind each door stands the
/// winner that `prizes` gives. With `hidden`, determinizing draws the prize
/// behind the last door at random.
#[derive(Clone, Debug, PartialEq, Eq)]
struct Doors {
    prizes: Vec<usize>,
    opened: Option<usize>,
    hidden: bool,
}

impl Mcts<usize, usize> for Doors {
    type Error = String;

    fn actions(&self) -> Vec<usize> {
        match self.opened {
            None => (0..self.prizes.len()).collect(),
            Some(_) => vec![],
        }
    }

    fn apply_action(&self, action: usize, _rng: &mut Pcg64) -> Result<Self, String> {
        if self.opened.is_some() || action >= self.prizes.len() {
            return Err(format!("no door {}", action));
        }
        Ok(Doors { prizes: self.prizes.clone(), opened: Some(action), hidden: self.hidden })
    }

    fn outcome(&self) -> Option<Outcome<usize>> {
        self.opened.map(|door| Outcome::Winner(self.prizes[door]))
    }

    fn current_player(&self) -> usize {
        0
    }

    fn players(&self) -> Vec<usize> {
        vec![0, 1]
    }
}

impl Determinable<usize, usize, Doors> for Doors {
    fn determine(&self, rng: &mut Pcg64, _perspective_player: usize) -> Doors {
        let mut state = self.clone();
        if self.hidden {
            let last = state.prizes.len() - 1;
            state.prizes[last] = rng.gen_range(0..2);
        }
        state
    }
}

fn doors(prizes: &[usize]) -> Doors {
    Doors { prizes: prizes.to_vec(), opened: None, hidden: false }
}

#[test]
fn single_action_game_returns_that_action() {
    let rng = Pcg64::seed_from_u64(0);
    let game = doors(&[0]);
    assert_eq!(ismcts_mt(&game, &rng, 4, 10, &differential), 0);
}

#[test]
fn ismcts_returns_the_single_action_for_any_positive_budget() {
    let game = doors(&[1]);
    for seed in 0..5u64 {
        let rng = Pcg64::seed_from_u64(seed);
        for budget in 1..4usize {
            assert_eq!(ismcts_mt(&game, &rng, budget, budget, &differential), 0);
        }
    }
}

#[test]
fn ismcts_picks_the_winning_door() {
    let rng = Pcg64::seed_from_u64(0);
    assert_eq!(ismcts_mt(&doors(&[1, 1, 0, 1]), &rng, 4, 10, &differential), 2);
    assert_eq!(ismcts_mt(&doors(&[1, 0, 0, 1]), &rng, 4, 10, &differential), 1);
}

#[test]
fn ismcts_returns_a_legal_action() {
    for seed in 0..10u64 {
        let rng = Pcg64::seed_from_u64(seed);
        let game = Doors { prizes: vec![1, 0, 1], opened: None, hidden: true };
        let action = ismcts_mt(&game, &rng, 3, 5, &differential);
        assert!(game.actions().contains(&action));
    }
}

#[test]
fn symmetric_actions_tie_to_the_first() {
    let rng = Pcg64::seed_from_u64(3);
    assert_eq!(ismcts_mt(&doors(&[0, 0, 0]), &rng, 4, 10, &differential), 0);
    assert_eq!(ismcts_mt(&doors(&[1, 1, 1]), &rng, 4, 10, &differential), 0);
    assert_eq!(ismcts_mt(&doors(&[1, 0, 0]), &rng, 4, 10, &differential), 1);
}

#[test]
fn ismcts_is_deterministic() {
    let game = Doors { prizes: vec![1, 0, 1, 0, 1], opened: None, hidden: true };
    let first = ismcts_mt(&game, &Pcg64::seed_from_u64(42), 8, 25, &differential);
    let second = ismcts_mt(&game, &Pcg64::seed_from_u64(42), 8, 25, &differential);
    assert_eq!(first, second);
}

#[test]
fn ismcts_leaves_the_generator_where_it_was() {
    let game = doors(&[1, 0]);
    let rng = Pcg64::seed_from_u64(5);
    let mut before = rng.clone();
    let _ = ismcts_mt(&game, &rng, 4, 10, &differential);
    let mut after = rng;
    assert_eq!(before.next_u64(), after.next_u64());
}

#[test]
fn deposits_do_not_depend_on_the_order_of_the_work() {
    let game = Doors { prizes: vec![1, 0, 1], opened: None, hidden: true };
    let rng = Pcg64::seed_from_u64(42);
    let in_order: Vec<Vec<Vec<u64>>> =
        (0..8).map(|d| determinization_scores(&game, &rng, d, 25)).collect();
    let mut backwards: Vec<(usize, Vec<Vec<u64>>)> =
        (0..8).rev().map(|d| (d, determinization_scores(&game, &rng, d, 25))).collect();
    backwards.sort_by_key(|(d, _)| *d);
    let sorted: Vec<Vec<Vec<u64>>> = backwards.into_iter().map(|(_, scores)| scores).collect();
    assert_eq!(in_order, sorted);
    let again: Vec<Vec<Vec<u64>>> =
        (0..8).map(|d| determinization_scores(&game, &rng, d, 25)).collect();
    assert_eq!(in_order, again);
}

#[test]
fn deposit_counts_the_wins_of_each_player() {
    let rng = Pcg64::seed_from_u64(9);
    let scores = determinization_scores(&doors(&[0, 1, 1]), &rng, 2, 7);
    assert_eq!(scores, vec![vec![7, 0], vec![0, 7], vec![0, 7]]);
}

#[test]
fn hidden_prize_is_drawn_anew_in_each_determinization() {
    let game = Doors { prizes: vec![0], opened: None, hidden: true };
    let rng = Pcg64::seed_from_u64(1);
    let mut seen = [false; 2];
    for d in 0..32 {
        let scores = determinization_scores(&game, &rng, d, 3);
        assert!(scores == vec![vec![3, 0]] || scores == vec![vec![0, 3]]);
        seen[if scores[0][0] == 3 { 0 } else { 1 }] = true;
    }
    assert!(seen[0] && seen[1]);
}

#[test]
fn decide_takes_the_first_greatest_rank() {
    let total = |rows: &Vec<Vec<u64>>, _root: Option<usize>| -> u64 {
        rows.iter().map(|row| row.iter().sum::<u64>()).sum()
    };
    let deposits = vec![
        vec![vec![1, 0], vec![2, 2], vec![0, 0]],
        vec![vec![0, 1], vec![0, 0], vec![4, 0]],
    ];
    // totals: 2, 4, 4
    assert_eq!(decide(3, &deposits, Some(0), &total), 1);
    let own = |rows: &Vec<Vec<u64>>, root: Option<usize>| -> u64 {
        rows.iter().map(|row| row[root.unwrap()]).sum()
    };
    // wins of player 0: 1, 2, 4; wins of player 1: 1, 2, 0
    assert_eq!(decide(3, &deposits, Some(0), &own), 2);
    assert_eq!(decide(3, &deposits, Some(1), &own), 1);
    assert_eq!(decide(3, &Vec::new(), None, &total), 0);
}

#[test]
fn differential_ranks_by_normalised_scores() {
    // one determinization, two players: 3 of 4 wins against 1 of 4.
    let strong = vec![vec![3u64, 1]];
    let weak = vec![vec![1u64, 3]];
    assert!(differential(&strong, Some(0)) > differential(&weak, Some(0)));
    assert_eq!(differential(&strong, Some(0)), key_of(1.0 - 1.0 / 3.0));
    assert_eq!(differential(&weak, Some(0)), key_of(1.0 / 3.0 - 1.0));
    assert_eq!(differential(&vec![vec![0u64, 0]], Some(0)), key_of(0.0));
}

#[test]
fn first_max_is_the_earliest_of_the_greatest() {
    assert_eq!(first_max(&vec![1, 3, 3]), 1);
    assert_eq!(first_max(&vec![5]), 0);
    assert_eq!(first_max(&vec![2, 2, 2]), 0);
    assert_eq!(first_max(&vec![0, 1, 2, 9, 3]), 3);
}

#[test]
fn position_is_the_first_place() {
    assert_eq!(position(&vec![4usize, 7, 7], &7), Some(1));
    assert_eq!(position(&vec![4usize, 7, 7], &4), Some(0));
    assert_eq!(position(&vec![4usize, 7, 7], &5), None);
    assert_eq!(position(&Vec::<usize>::new(), &5), None);
}

#[test]
fn credit_adds_one_for_each_winner() {
    let players = vec![10usize, 20, 30];
    let mut row = zero_row(3);
    assert_eq!(row, vec![0, 0, 0]);
    credit(&mut row, &players, &Outcome::Winner(20));
    assert_eq!(row, vec![0, 1, 0]);
    credit(&mut row, &players, &Outcome::Winners(vec![30, 10, 30]));
    assert_eq!(row, vec![1, 1, 1]);
    credit(&mut row, &players, &Outcome::Escape("No actions available".to_string()));
    assert_eq!(row, vec![1, 1, 1]);
    credit(&mut row, &players, &Outcome::Winner(40));
    assert_eq!(row, vec![1, 1, 1]);
}

#[test]
fn default_params_are_three_players_of_twelve_by_hundred() {
    let params = ISMCTSParams::default();
    assert_eq!(params.seed, 0);
    assert_eq!(params.num_sims, 1);
    assert_eq!(params.max_cores, 24);
    assert_eq!(params.sim_players.len(), 3);
    for player in &params.sim_players {
        assert_eq!(player.num_determinations, 12);
        assert_eq!(player.num_simulations_per_action, 100);
    }
}
