use mcts::random_rollout;
use mcts::Mcts;
use mcts::Outcome;
use rand::Rng;
use rand::SeedableRng;
use rand_pcg::Pcg64;

/// A countdown: each move takes 1 or 2 from the pile; whoever takes the last
/// wins. With `stuck` the pile can never be reduced and no one wins.
#[derive(Clone, Debug, PartialEq, Eq)]
struct Pile {
    left: u32,
    to_move: usize,
    stuck: bool,
}

impl Mcts<usize, u32> for Pile {
    type Error = String;

    fn actions(&self) -> Vec<u32> {
        if self.stuck {
            vec![]
        } else {
            (1..=2).filter(|take| *take <= self.left).collect()
        }
    }

    fn apply_action(&self, action: u32, _rng: &mut Pcg64) -> Result<Self, String> {
        if action == 0 || action > 2 || action > self.left || self.stuck {
            return Err(format!("cannot take {}", action));
        }
        Ok(Pile { left: self.left - action, to_move: 1 - self.to_move, stuck: false })
    }

    fn outcome(&self) -> Option<Outcome<usize>> {
        if self.left == 0 && !self.stuck {
            Some(Outcome::Winner(1 - self.to_move))
        } else {
            None
        }
    }

    fn current_player(&self) -> usize {
        self.to_move
    }

    fn players(&self) -> Vec<usize> {
        vec![0, 1]
    }
}

/// A game that is over, with several winners.
#[derive(Clone)]
struct Shared;

impl Mcts<usize, u32> for Shared {
    type Error = String;

    fn actions(&self) -> Vec<u32> {
        vec![]
    }

    fn apply_action(&self, _action: u32, _rng: &mut Pcg64) -> Result<Self, String> {
        Err("the game is over".to_string())
    }

    fn outcome(&self) -> Option<Outcome<usize>> {
        Some(Outcome::Winners(vec![0, 2]))
    }

    fn current_player(&self) -> usize {
        0
    }

    fn players(&self) -> Vec<usize> {
        vec![0, 1, 2]
    }
}

#[test]
fn rollout_of_a_finished_game_is_its_outcome() {
    let mut rng = Pcg64::seed_from_u64(1);
    let game = Pile { left: 0, to_move: 1, stuck: false };
    assert!(matches!(random_rollout(&game, &mut rng), Outcome::Winner(0)));
    match random_rollout(&Shared, &mut rng) {
        Outcome::Winners(winners) => assert_eq!(winners, vec![0, 2]),
        _ => panic!("expected several winners"),
    }
}

#[test]
fn rollout_with_one_move_left_is_won_by_the_mover() {
    let mut rng = Pcg64::seed_from_u64(2);
    let game = Pile { left: 1, to_move: 1, stuck: false };
    assert!(matches!(random_rollout(&game, &mut rng), Outcome::Winner(1)));
}

#[test]
fn rollout_without_moves_escapes() {
    let mut rng = Pcg64::seed_from_u64(0);
    let game = Pile { left: 3, to_move: 0, stuck: true };
    match random_rollout(&game, &mut rng) {
        Outcome::Escape(reason) => assert_eq!(reason, "No actions available"),
        _ => panic!("expected an escape"),
    }
}

#[test]
fn rollout_ends_on_every_finite_game() {
    for seed in 0..50u64 {
        let mut rng = Pcg64::seed_from_u64(seed);
        for left in 0..40u32 {
            let game = Pile { left, to_move: 0, stuck: false };
            match random_rollout(&game, &mut rng) {
                Outcome::Winner(winner) => assert!(winner < 2),
                _ => panic!("a pile always has a winner"),
            }
        }
    }
}

#[test]
fn rollout_meets_both_winners() {
    let game = Pile { left: 2, to_move: 0, stuck: false };
    let mut wins = [0usize; 2];
    let mut rng = Pcg64::seed_from_u64(7);
    for _ in 0..200 {
        if let Outcome::Winner(winner) = random_rollout(&game, &mut rng) {
            wins[winner] += 1;
        }
    }
    assert_eq!(wins[0] + wins[1], 200);
    assert!(wins[0] > 0);
    assert!(wins[1] > 0);
}

#[test]
fn rollout_is_repeatable_from_the_same_seed() {
    let game = Pile { left: 25, to_move: 0, stuck: false };
    let mut first = Pcg64::seed_from_u64(11);
    let mut second = Pcg64::seed_from_u64(11);
    for _ in 0..20 {
        let a = random_rollout(&game, &mut first);
        let b = random_rollout(&game, &mut second);
        match (a, b) {
            (Outcome::Winner(x), Outcome::Winner(y)) => assert_eq!(x, y),
            _ => panic!("a pile always has a winner"),
        }
    }
    assert_eq!(first.gen::<u64>(), second.gen::<u64>());
}

#[test]
fn outcome_credits_its_winners_only() {
    assert!(Outcome::Winner(3usize).credits(&3));
    assert!(!Outcome::Winner(3usize).credits(&4));
    assert!(Outcome::Winners(vec![1usize, 5]).credits(&5));
    assert!(!Outcome::Winners(vec![1usize, 5]).credits(&2));
    assert!(!Outcome::<usize>::Escape("stuck".to_string()).credits(&0));
}
