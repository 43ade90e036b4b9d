//! Counting wins per player.

use crate::outcome::Outcome;
use crate::outcome::OutcomeView;
use vstd::laws_eq::obeys_concrete_eq;
use vstd::prelude::*;

verus! {

/// How many of `verdicts` are a win for `player`.
pub open spec fn wins<P>(verdicts: Seq<OutcomeView<P>>, player: P) -> nat
    decreases verdicts.len(),
{
    if verdicts.len() == 0 {
        0
    } else {
        wins(verdicts.drop_last(), player) + verdicts.last().reward(player)
    }
}

/// `row` holds, for each of `players` in turn, that player's wins among
/// `verdicts`.
pub open spec fn is_tally<P>(row: Seq<u64>, players: Seq<P>, verdicts: Seq<OutcomeView<P>>) -> bool {
    &&& row.len() == players.len()
    &&& forall|i: int| 0 <= i < row.len() ==> #[trigger] row[i] == wins(verdicts, players[i])
}

/// Nobody wins more games than were played.
pub proof fn lemma_wins_bounded<P>(verdicts: Seq<OutcomeView<P>>, player: P)
    ensures
        wins(verdicts, player) <= verdicts.len(),
    decreases verdicts.len(),
{
    if verdicts.len() > 0 {
        lemma_wins_bounded(verdicts.drop_last(), player);
    }
}

/// One more verdict adds its reward to a player's wins.
pub proof fn lemma_wins_push<P>(verdicts: Seq<OutcomeView<P>>, verdict: OutcomeView<P>, player: P)
    ensures
        wins(verdicts.push(verdict), player) == wins(verdicts, player) + verdict.reward(player),
{
    assert(verdicts.push(verdict).drop_last() == verdicts);
}

/// `place` is where `player` first stands in `players`, or `None` if they are
/// not among them.
pub open spec fn stands_at<P>(players: Seq<P>, player: P, place: Option<usize>) -> bool {
    match place {
        Some(i) => {
            &&& i < players.len()
            &&& players[i as int] == player
            &&& forall|k: int| 0 <= k < i ==> players[k] != player
        },
        None => !players.contains(player),
    }
}

/// Where `player` stands in `players`: the first index that holds them.
pub fn position<P: PartialEq>(players: &Vec<P>, player: &P) -> (place: Option<usize>)
    requires
        obeys_concrete_eq::<P>(),
    ensures
        stands_at(players@, *player, place),
{
    let mut i: usize = 0;
    while i < players.len()
        invariant
            obeys_concrete_eq::<P>(),
            i <= players.len(),
            forall|k: int| 0 <= k < i ==> players@[k] != *player,
        decreases players.len() - i,
    {
        proof {
            reveal(obeys_concrete_eq);
        }
        if players[i] == *player {
            return Some(i);
        }
        i += 1;
    }
    None
}

/// A row of `len` zeros: nobody has won anything yet.
pub fn zero_row(len: usize) -> (row: Vec<u64>)
    ensures
        row@.len() == len,
        forall|i: int| 0 <= i < len ==> row@[i] == 0,
{
    let mut row: Vec<u64> = Vec::new();
    while row.len() < len
        invariant
            row@.len() <= len,
            forall|i: int| 0 <= i < row@.len() ==> row@[i] == 0,
        decreases len - row@.len(),
    {
        row.push(0);
    }
    row
}

/// Adds one game's `verdict` to `row`: each of `players` for whom it is a win
/// gets one more, the others stay as they are.
pub fn credit<P: PartialEq>(row: &mut Vec<u64>, players: &Vec<P>, verdict: &Outcome<P>)
    requires
        obeys_concrete_eq::<P>(),
        old(row)@.len() == players@.len(),
        forall|i: int| 0 <= i < old(row)@.len() ==> old(row)@[i] < u64::MAX,
    ensures
        final(row)@.len() == old(row)@.len(),
        forall|i: int|
            0 <= i < old(row)@.len() ==> #[trigger] final(row)@[i] == old(row)@[i]
                + verdict@.reward(players@[i]),
{
    let mut i: usize = 0;
    while i < players.len()
        invariant
            obeys_concrete_eq::<P>(),
            i <= players@.len(),
            row@.len() == players@.len(),
            row@.len() == old(row)@.len(),
            forall|k: int|
                0 <= k < i ==> #[trigger] row@[k] == old(row)@[k] + verdict@.reward(players@[k]),
            forall|k: int| i <= k < row@.len() ==> row@[k] == old(row)@[k],
            forall|k: int| 0 <= k < old(row)@.len() ==> old(row)@[k] < u64::MAX,
        decreases players@.len() - i,
    {
        if verdict.credits(&players[i]) {
            let wins_so_far: u64 = row[i];
            row[i] = wins_so_far + 1;
        }
        i += 1;
    }
}

} // verus!
