//! What a game has to offer to be searched.

use crate::outcome::view_of;
use crate::outcome::Outcome;
use crate::outcome::OutcomeView;
use rand_pcg::Pcg64;
use vstd::prelude::*;

verus! {

/// Cloning a `T` gives back an equal value.
pub open spec fn clones_exactly<T: Clone>() -> bool {
    forall|a: T, b: T| #[trigger] call_ensures(T::clone, (&a,), b) ==> a == b
}

/// A copy of `value`.
pub fn copy_of<T: Clone>(value: &T) -> (copy: T)
    requires
        clones_exactly::<T>(),
    ensures
        copy == *value,
{
    value.clone()
}

/// A game state that can be searched. `P` names a player, `A` a move.
///
/// The six `spec` functions are the model of the state: what the methods
/// return, as mathematics. A verified implementation defines them and proves
/// its methods against them. The bodies given here leave them open, so that an
/// implementation may also be written without them; of such an implementation
/// the contracts of the methods are taken on trust.
pub trait Mcts<P, A>: Clone {
    /// Why a move was refused.
    type Error: core::fmt::Debug;

    /// The legal moves, in the order in which `actions` lists them.
    open spec fn legal_actions(&self) -> Seq<A> {
        arbitrary()
    }

    /// The outcome, for a state in which the game is over.
    open spec fn result(&self) -> Option<OutcomeView<P>> {
        arbitrary()
    }

    /// The player who moves next.
    open spec fn to_move(&self) -> P {
        arbitrary()
    }

    /// All players, in their canonical order.
    open spec fn roster(&self) -> Seq<P> {
        arbitrary()
    }

    /// Whether `action`, played in this state, can lead to `next`. Where chance
    /// plays a part, one action leads to several states.
    open spec fn leads_to(&self, action: A, next: Self) -> bool {
        arbitrary()
    }

    /// A bound on the number of moves that can still be played. Every move
    /// lowers it, so a line of play cannot go on for ever.
    open spec fn horizon(&self) -> nat {
        arbitrary()
    }

    /// The legal moves from this state.
    fn actions(&self) -> (list: Vec<A>)
        ensures
            list@ == self.legal_actions(),
    ;

    /// The state that `action` leads to. The state itself is left as it is. A
    /// legal move is never refused.
    fn apply_action(&self, action: A, rng: &mut Pcg64) -> (moved: Result<Self, Self::Error>)
        ensures
            self.legal_actions().contains(action) ==> moved is Ok,
            moved matches Ok(next) ==> self.leads_to(action, next) && next.horizon()
                < self.horizon(),
    ;

    /// The outcome if the game is over, `None` while it is not.
    fn outcome(&self) -> (verdict: Option<Outcome<P>>)
        ensures
            view_of(verdict) == self.result(),
    ;

    /// The player who moves next.
    fn current_player(&self) -> (player: P)
        ensures
            player == self.to_move(),
    ;

    /// All players of the game.
    fn players(&self) -> (list: Vec<P>)
        ensures
            list@ == self.roster(),
    ;
}

/// A game with hidden information: it can fill in what one player cannot see.
///
/// As in [`Mcts`], the body given for the `spec` function leaves it open; a
/// verified implementation defines it.
pub trait Determinable<P, A, G: Mcts<P, A>>: Mcts<P, A> {
    /// Whether `state` is a determinization of this state for
    /// `perspective_player`: it agrees with everything that player can see.
    /// Where nothing is hidden, the state itself is its only determinization.
    open spec fn fills_in(&self, perspective_player: P, state: G) -> bool {
        arbitrary()
    }

    /// A determinization of this state for `perspective_player`, what is
    /// hidden from them drawn at random. The moves open to the player whose
    /// turn it is depend only on what that player sees, so from their
    /// perspective the legal moves stay the same.
    fn determine(&self, rng: &mut Pcg64, perspective_player: P) -> (state: G)
        ensures
            self.fills_in(perspective_player, state),
            perspective_player == self.to_move() ==> state.legal_actions()
                == self.legal_actions(),
    ;
}

/// Where a game of self-play starts.
///
/// As in [`Mcts`], the body given for the `spec` function leaves it open; a
/// verified implementation defines it.
pub trait Initializer<P, A, S: Mcts<P, A>> {
    /// Whether `state` is a state in which a game may open.
    open spec fn opens(state: S) -> bool {
        arbitrary()
    }

    /// The opening state of a game.
    fn initialize(rng: &mut Pcg64) -> (state: S)
        ensures
            Self::opens(state),
    ;
}

/// `states` is a line of play: in each state but the last the game is not
/// over, and one of its legal moves leads to the state that follows.
pub open spec fn is_play<P, A, G: Mcts<P, A>>(states: Seq<G>) -> bool {
    &&& states.len() > 0
    &&& forall|i: int|
        0 <= i < states.len() - 1 ==> {
            &&& (#[trigger] states[i]).result() is None
            &&& exists|action: A|
                states[i].legal_actions().contains(action) && states[i].leads_to(
                    action,
                    states[i + 1],
                )
        }
}

/// Whether play that has come to `end` stops there with `verdict`: the game
/// is over with that outcome, or it is not over but no move is left, which is
/// reported as an escape.
pub open spec fn stops_with<P, A, G: Mcts<P, A>>(end: G, verdict: OutcomeView<P>) -> bool {
    match end.result() {
        Some(outcome) => verdict == outcome,
        None => end.legal_actions().len() == 0 && verdict == OutcomeView::<P>::Escape(
            "No actions available"@,
        ),
    }
}

/// Whether some line of play from `start` stops with `verdict`.
pub open spec fn plays_out_to<P, A, G: Mcts<P, A>>(start: G, verdict: OutcomeView<P>) -> bool {
    exists|states: Seq<G>|
        #![trigger is_play::<P, A, G>(states)]
        is_play::<P, A, G>(states) && states[0] == start && stops_with::<P, A, G>(
            states.last(),
            verdict,
        )
}

} // verus!
