//! How a game ends.

use vstd::laws_eq::obeys_concrete_eq;
use vstd::prelude::*;

verus! {

/// The verdict of a finished game.
pub enum Outcome<P> {
    /// A single player won.
    Winner(P),
    /// Several players share the win.
    Winners(Vec<P>),
    /// Play stopped without a winner; the text says why.
    Escape(String),
}

/// What an [`Outcome`] says, with its list as a sequence and its text as
/// characters.
pub enum OutcomeView<P> {
    Winner(P),
    Winners(Seq<P>),
    Escape(Seq<char>),
}

impl<P> View for Outcome<P> {
    type V = OutcomeView<P>;

    open spec fn view(&self) -> OutcomeView<P> {
        match self {
            Outcome::Winner(p) => OutcomeView::Winner(*p),
            Outcome::Winners(ps) => OutcomeView::Winners(ps@),
            Outcome::Escape(why) => OutcomeView::Escape(why@),
        }
    }
}

impl<P> OutcomeView<P> {
    /// Whether the outcome is a win for `player`: they are the winner, or one
    /// of the winners. An escape is a win for nobody.
    pub open spec fn credits(self, player: P) -> bool {
        match self {
            OutcomeView::Winner(p) => p == player,
            OutcomeView::Winners(ps) => ps.contains(player),
            OutcomeView::Escape(_) => false,
        }
    }

    /// The reward that one finished game adds to `player`'s total: 1 for a
    /// win, 0 otherwise.
    pub open spec fn reward(self, player: P) -> nat {
        if self.credits(player) {
            1
        } else {
            0
        }
    }
}

/// The view of an optional outcome.
pub open spec fn view_of<P>(outcome: Option<Outcome<P>>) -> Option<OutcomeView<P>> {
    match outcome {
        Some(o) => Some(o@),
        None => None,
    }
}

/// Whether `player` occurs in `players`.
pub fn contains_player<P: PartialEq>(players: &Vec<P>, player: &P) -> (r: bool)
    requires
        obeys_concrete_eq::<P>(),
    ensures
        r == players@.contains(*player),
{
    let mut i: usize = 0;
    while i < players.len()
        invariant
            obeys_concrete_eq::<P>(),
            i <= players.len(),
            forall|k: int| 0 <= k < i ==> players@[k] != *player,
        decreases players.len() - i,
    {
        proof {
            reveal(obeys_concrete_eq);
        }
        if players[i] == *player {
            return true;
        }
        i += 1;
    }
    false
}

impl<P: PartialEq> Outcome<P> {
    /// Whether the outcome is a win for `player`.
    pub fn credits(&self, player: &P) -> (r: bool)
        requires
            obeys_concrete_eq::<P>(),
        ensures
            r == self@.credits(*player),
    {
        match self {
            Outcome::Winner(p) => {
                proof {
                    reveal(obeys_concrete_eq);
                }
                *p == *player
            },
            Outcome::Winners(ps) => contains_player(ps, player),
            Outcome::Escape(_) => false,
        }
    }
}

} // verus!
