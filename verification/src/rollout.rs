//! Playing a game out with random moves.

use crate::game::clones_exactly;
use crate::game::copy_of;
use crate::game::is_play;
use crate::game::plays_out_to;
use crate::game::stops_with;
use crate::game::Mcts;
use crate::outcome::Outcome;
use crate::random::choose_one;
use rand_pcg::Pcg64;
use vstd::prelude::*;

verus! {

/// One random move from `game`: the state it leads to, or the verdict with
/// which play stops at `game`.
fn random_step<P, A: Clone, G: Mcts<P, A>>(game: &G, rng: &mut Pcg64) -> (r: Result<G, Outcome<P>>)
    requires
        clones_exactly::<A>(),
    ensures
        match r {
            Ok(next) => {
                &&& game.result() is None
                &&& next.horizon() < game.horizon()
                &&& exists|action: A|
                    game.legal_actions().contains(action) && game.leads_to(action, next)
            },
            Err(verdict) => stops_with::<P, A, G>(*game, verdict@),
        },
{
    if let Some(verdict) = game.outcome() {
        return Err(verdict);
    }
    let actions = game.actions();
    match choose_one(actions.as_slice(), rng) {
        Some(action) => {
            let action = copy_of(action);
            let next = game.apply_action(action, rng).unwrap();
            Ok(next)
        },
        None => Err(Outcome::Escape("No actions available".to_string())),
    }
}

/// Plays `game` to its end with moves picked uniformly at random and returns
/// the outcome. A state that is not over and has no move ends the play with
/// `Escape("No actions available")`.
///
/// The loop ends because each move lowers the state's `horizon`.
pub fn random_rollout<P, A: Clone, G: Mcts<P, A>>(game: &G, rng: &mut Pcg64) -> (verdict: Outcome<P>)
    requires
        clones_exactly::<A>(),
    ensures
        plays_out_to::<P, A, G>(*game, verdict@),
{
    let mut current = match random_step(game, rng) {
        Ok(next) => next,
        Err(verdict) => {
            proof {
                assert(is_play::<P, A, G>(seq![*game]));
            }
            return verdict;
        },
    };
    let ghost mut states: Seq<G> = seq![*game, current];
    loop
        invariant
            clones_exactly::<A>(),
            is_play::<P, A, G>(states),
            states[0] == *game,
            states.last() == current,
        decreases current.horizon(),
    {
        match random_step(&current, rng) {
            Ok(next) => {
                proof {
                    let longer = states.push(next);
                    assert forall|i: int| 0 <= i < longer.len() - 1 implies {
                        &&& (#[trigger] longer[i]).result() is None
                        &&& exists|action: A|
                            longer[i].legal_actions().contains(action) && longer[i].leads_to(
                                action,
                                longer[i + 1],
                            )
                    } by {
                        if i < states.len() - 1 {
                            assert(longer[i] == states[i]);
                            assert(longer[i + 1] == states[i + 1]);
                        }
                    }
                    states = longer;
                }
                current = next;
            },
            Err(verdict) => {
                return verdict;
            },
        }
    }
}

} // verus!
