//! Information-set search: the state is determinized several times, each
//! legal move is played out at random in each determinization, and the move
//! that did best for the player to move is returned.

use crate::game::clones_exactly;
use crate::game::copy_of;
use crate::game::plays_out_to;
use crate::game::Determinable;
use crate::game::Mcts;
use crate::outcome::OutcomeView;
use crate::random::clone_rng;
use crate::random::next_u32;
use crate::rollout::random_rollout;
use crate::tally::credit;
use crate::tally::is_tally;
use crate::tally::lemma_wins_bounded;
use crate::tally::lemma_wins_push;
use crate::tally::position;
use crate::tally::stands_at;
use crate::tally::wins;
use crate::tally::zero_row;
use rand_pcg::Pcg64;
use vstd::laws_eq::obeys_concrete_eq;
use vstd::prelude::*;

verus! {

/// The search budget of one player.
#[derive(Clone, Copy)]
pub struct ISMCTSPlayerParams {
    /// How many determinizations are sampled for each decision.
    pub num_determinations: usize,
    /// How many random games are played for each move in each determinization.
    pub num_simulations_per_action: usize,
}

/// The settings of a batch of self-play.
pub struct ISMCTSParams {
    /// The seed from which every random stream of the batch is derived.
    pub seed: u64,
    /// How many games are played.
    pub num_sims: usize,
    /// How many threads a caller may use for the determinizations.
    pub max_cores: usize,
    /// The budget of each player, in the order of the game's roster.
    pub sim_players: Vec<ISMCTSPlayerParams>,
}

impl Default for ISMCTSParams {
    /// One game from seed 0 on up to 24 threads, with three players who each
    /// sample 12 determinizations and play 100 games per move.
    fn default() -> (params: Self)
        ensures
            params.seed == 0,
            params.num_sims == 1,
            params.max_cores == 24,
            params.sim_players@.len() == 3,
            forall|i: int|
                0 <= i < 3 ==> (#[trigger] params.sim_players@[i]).num_determinations == 12
                    && params.sim_players@[i].num_simulations_per_action == 100,
    {
        let mut sim_players: Vec<ISMCTSPlayerParams> = Vec::new();
        sim_players.push(
            ISMCTSPlayerParams { num_determinations: 12, num_simulations_per_action: 100 },
        );
        sim_players.push(
            ISMCTSPlayerParams { num_determinations: 12, num_simulations_per_action: 100 },
        );
        sim_players.push(
            ISMCTSPlayerParams { num_determinations: 12, num_simulations_per_action: 100 },
        );
        ISMCTSParams { seed: 0, num_sims: 1, max_cores: 24, sim_players }
    }
}

/// A generator of its own for one determinization: a copy of `rng`, moved on
/// by `delta` draws, so that each determinization reads another stretch of the
/// stream and `rng` itself stays where it is.
fn clone_and_advance_rng(rng: &Pcg64, delta: usize) -> (advanced: Pcg64) {
    let mut advanced = clone_rng(rng);
    let mut drawn: usize = 0;
    while drawn < delta
        invariant
            drawn <= delta,
        decreases delta - drawn,
    {
        let _ = next_u32(&mut advanced);
        drawn += 1;
    }
    advanced
}

/// `row` is the tally of `verdicts`, and each of them ends a random game that
/// starts at `after`, a state that `action` leads to from `determined`.
pub open spec fn row_witness<P, A, G: Mcts<P, A>>(
    determined: G,
    roster: Seq<P>,
    action: A,
    row: Seq<u64>,
    after: G,
    verdicts: Seq<OutcomeView<P>>,
) -> bool {
    &&& determined.leads_to(action, after)
    &&& forall|k: int|
        0 <= k < verdicts.len() ==> plays_out_to::<P, A, G>(after, #[trigger] verdicts[k])
    &&& is_tally(row, roster, verdicts)
}

/// `row` counts, for each player of `roster`, the wins in `games` random
/// games played after `action` was made in `determined`.
pub open spec fn is_action_row<P, A, G: Mcts<P, A>>(
    determined: G,
    roster: Seq<P>,
    action: A,
    games: nat,
    row: Seq<u64>,
) -> bool {
    exists|after: G, verdicts: Seq<OutcomeView<P>>|
        verdicts.len() == games && #[trigger] row_witness::<P, A, G>(
            determined,
            roster,
            action,
            row,
            after,
            verdicts,
        )
}

/// `scores` is the deposit of the determinization `determined` of `game`.
/// The state is a determinization of `game` for the player to move, with the
/// same legal moves. There is a row for each legal move, in the order of the
/// moves, and each row counts the wins in `games` random games played after
/// that move was made in `determined`.
pub open spec fn deposit_of<P, A, G: Mcts<P, A> + Determinable<P, A, G>>(
    game: G,
    determined: G,
    games: nat,
    scores: Seq<Vec<u64>>,
) -> bool {
    &&& game.fills_in(game.to_move(), determined)
    &&& determined.legal_actions() == game.legal_actions()
    &&& scores.len() == game.legal_actions().len()
    &&& forall|a: int|
        0 <= a < scores.len() ==> is_action_row::<P, A, G>(
            determined,
            game.roster(),
            game.legal_actions()[a],
            games,
            (#[trigger] scores[a])@,
        )
}

/// `scores` is what one determinization of `game` may deposit, see
/// [`deposit_of`].
pub open spec fn is_deposit<P, A, G: Mcts<P, A> + Determinable<P, A, G>>(
    game: G,
    games: nat,
    scores: Seq<Vec<u64>>,
) -> bool {
    exists|determined: G| #[trigger] deposit_of::<P, A, G>(game, determined, games, scores)
}

/// The work of one determinization. The generator is `rng` moved on by
/// `determinization_idx` draws. The hidden part of `game` is filled in from
/// the point of view of the player to move; then, for each legal move in
/// turn, the move is made and `num_simulations` random games are played from
/// the state it leads to. The result holds, for each move, the wins of each
/// player of the roster.
pub fn determinization_scores<P, A, G>(
    game: &G,
    rng: &Pcg64,
    determinization_idx: usize,
    num_simulations: usize,
) -> (scores: Vec<Vec<u64>>) where P: PartialEq, A: Clone, G: Mcts<P, A> + Determinable<P, A, G>
    requires
        obeys_concrete_eq::<P>(),
        clones_exactly::<A>(),
    ensures
        is_deposit::<P, A, G>(*game, num_simulations as nat, scores@),
{
    let actions = game.actions();
    let players = game.players();
    let mut rng = clone_and_advance_rng(rng, determinization_idx);
    let current_player = game.current_player();
    let determined = game.determine(&mut rng, current_player);
    let mut action_scores: Vec<Vec<u64>> = Vec::new();
    let mut a: usize = 0;
    while a < actions.len()
        invariant
            obeys_concrete_eq::<P>(),
            clones_exactly::<A>(),
            actions@ == game.legal_actions(),
            players@ == game.roster(),
            game.fills_in(game.to_move(), determined),
            determined.legal_actions() == game.legal_actions(),
            a <= actions@.len(),
            action_scores@.len() == a,
            forall|k: int|
                0 <= k < a ==> is_action_row::<P, A, G>(
                    determined,
                    game.roster(),
                    game.legal_actions()[k],
                    num_simulations as nat,
                    (#[trigger] action_scores@[k])@,
                ),
        decreases actions@.len() - a,
    {
        let action = copy_of(&actions[a]);
        assert(determined.legal_actions().contains(action)) by {
            assert(determined.legal_actions()[a as int] == action);
        }
        let game_after_action = determined.apply_action(action, &mut rng).unwrap();
        let mut scores = zero_row(players.len());
        let ghost mut verdicts: Seq<OutcomeView<P>> = Seq::empty();
        let mut played: usize = 0;
        while played < num_simulations
            invariant
                obeys_concrete_eq::<P>(),
                clones_exactly::<A>(),
                players@ == game.roster(),
                played <= num_simulations,
                verdicts.len() == played,
                is_tally(scores@, players@, verdicts),
                forall|k: int|
                    0 <= k < verdicts.len() ==> plays_out_to::<P, A, G>(
                        game_after_action,
                        #[trigger] verdicts[k],
                    ),
            decreases num_simulations - played,
        {
            let verdict = random_rollout(&game_after_action, &mut rng);
            proof {
                assert forall|i: int| 0 <= i < scores@.len() implies scores@[i] < u64::MAX by {
                    lemma_wins_bounded(verdicts, players@[i]);
                }
                assert forall|i: int| 0 <= i < players@.len() implies wins(
                    verdicts.push(verdict@),
                    #[trigger] players@[i],
                ) == wins(verdicts, players@[i]) + verdict@.reward(players@[i]) by {
                    lemma_wins_push(verdicts, verdict@, players@[i]);
                }
            }
            credit(&mut scores, &players, &verdict);
            proof {
                verdicts = verdicts.push(verdict@);
            }
            played += 1;
        }
        proof {
            assert(row_witness::<P, A, G>(
                determined,
                game.roster(),
                game.legal_actions()[a as int],
                scores@,
                game_after_action,
                verdicts,
            ));
        }
        action_scores.push(scores);
        a += 1;
    }
    proof {
        assert(deposit_of::<P, A, G>(*game, determined, num_simulations as nat, action_scores@));
    }
    action_scores
}

/// `best` is the first place at which `keys` is greatest.
pub open spec fn is_first_max(keys: Seq<u64>, best: int) -> bool {
    &&& 0 <= best < keys.len()
    &&& forall|k: int| 0 <= k < keys.len() ==> keys[k] <= keys[best]
    &&& forall|k: int| 0 <= k < best ==> keys[k] < keys[best]
}

/// The first place at which `keys` is greatest.
pub fn first_max(keys: &Vec<u64>) -> (best: usize)
    requires
        keys@.len() > 0,
    ensures
        is_first_max(keys@, best as int),
{
    let mut best: usize = 0;
    let mut k: usize = 1;
    while k < keys.len()
        invariant
            0 <= best < k <= keys@.len(),
            forall|i: int| 0 <= i < k ==> keys@[i] <= keys@[best as int],
            forall|i: int| 0 <= i < best ==> keys@[i] < keys@[best as int],
        decreases keys@.len() - k,
    {
        if keys[k] > keys[best] {
            best = k;
        }
        k += 1;
    }
    best
}

/// `rows` holds the row of move `a` from each deposit, in the order of the
/// deposits.
pub open spec fn rows_of(deposits: Seq<Vec<Vec<u64>>>, a: int, rows: Seq<Vec<u64>>) -> bool {
    &&& rows.len() == deposits.len()
    &&& forall|d: int| 0 <= d < rows.len() ==> (#[trigger] rows[d])@ == deposits[d]@[a]@
}

/// `key` is a rank that `rank` gives move `a` on its rows in `deposits`.
pub open spec fn is_key<F: Fn(&Vec<Vec<u64>>, Option<usize>) -> u64>(
    rank: F,
    deposits: Seq<Vec<Vec<u64>>>,
    a: int,
    root_player: Option<usize>,
    key: u64,
) -> bool {
    exists|rows: Vec<Vec<u64>>|
        rows_of(deposits, a, rows@) && #[trigger] call_ensures(rank, (&rows, root_player), key)
}

/// The rows of move `a`, one from each deposit.
fn gather(deposits: &Vec<Vec<Vec<u64>>>, a: usize) -> (rows: Vec<Vec<u64>>)
    requires
        forall|d: int| 0 <= d < deposits@.len() ==> a < (#[trigger] deposits@[d])@.len(),
    ensures
        rows_of(deposits@, a as int, rows@),
{
    let mut rows: Vec<Vec<u64>> = Vec::new();
    let mut d: usize = 0;
    while d < deposits.len()
        invariant
            d <= deposits@.len(),
            rows@.len() == d,
            forall|k: int| 0 <= k < deposits@.len() ==> a < (#[trigger] deposits@[k])@.len(),
            forall|k: int| 0 <= k < d ==> (#[trigger] rows@[k])@ == deposits@[k]@[a as int]@,
        decreases deposits@.len() - d,
    {
        let source = &deposits[d][a];
        let mut row: Vec<u64> = Vec::new();
        let mut i: usize = 0;
        while i < source.len()
            invariant
                i <= source@.len(),
                row@ == source@.take(i as int),
            decreases source@.len() - i,
        {
            row.push(source[i]);
            assert(source@.take(i + 1) == source@.take(i as int).push(source@[i as int]));
            i += 1;
        }
        assert(source@.take(source@.len() as int) == source@);
        rows.push(row);
        d += 1;
    }
    rows
}

/// Picks the move to play from what the determinizations deposited.
///
/// `rank` turns the rows of one move (one row from each deposit, each with the
/// wins of every player) and the place of the deciding player in the roster
/// into a number that is greater for a better move. The move with the greatest
/// number is chosen; among equals, the one that comes first.
pub fn decide<F: Fn(&Vec<Vec<u64>>, Option<usize>) -> u64>(
    num_actions: usize,
    deposits: &Vec<Vec<Vec<u64>>>,
    root_player: Option<usize>,
    rank: &F,
) -> (best: usize)
    requires
        num_actions > 0,
        forall|d: int| 0 <= d < deposits@.len() ==> (#[trigger] deposits@[d])@.len() == num_actions,
        forall|rows: &Vec<Vec<u64>>, place: Option<usize>| call_requires(*rank, (rows, place)),
    ensures
        best < num_actions,
        exists|keys: Seq<u64>|
            {
                &&& keys.len() == num_actions
                &&& forall|a: int|
                    0 <= a < num_actions ==> is_key(
                        *rank,
                        deposits@,
                        a,
                        root_player,
                        #[trigger] keys[a],
                    )
                &&& is_first_max(keys, best as int)
            },
{
    let mut keys: Vec<u64> = Vec::new();
    let mut a: usize = 0;
    while a < num_actions
        invariant
            a <= num_actions,
            keys@.len() == a,
            forall|d: int|
                0 <= d < deposits@.len() ==> (#[trigger] deposits@[d])@.len() == num_actions,
            forall|rows: &Vec<Vec<u64>>, place: Option<usize>| call_requires(*rank, (rows, place)),
            forall|k: int|
                0 <= k < a ==> is_key(*rank, deposits@, k, root_player, #[trigger] keys@[k]),
        decreases num_actions - a,
    {
        let rows = gather(deposits, a);
        let key = rank(&rows, root_player);
        keys.push(key);
        a += 1;
    }
    let best = first_max(&keys);
    best
}

/// Among moves of equal rank the earlier one is chosen: no move before the
/// chosen one ranks as high, so a move that ties with it comes after it.
pub proof fn lemma_tie_goes_to_first(keys: Seq<u64>, best: int, other: int)
    requires
        is_first_max(keys, best),
        0 <= other < keys.len(),
        keys[other] == keys[best],
    ensures
        best <= other,
{
}

/// Where all moves rank alike, the first move is chosen.
pub proof fn lemma_all_equal_picks_first(keys: Seq<u64>, best: int)
    requires
        is_first_max(keys, best),
        forall|k: int| 0 <= k < keys.len() ==> #[trigger] keys[k] == keys[0],
    ensures
        best == 0,
{
    if best > 0 {
        assert(keys[best] == keys[0]);
        assert(keys[0] < keys[best]);
    }
}

/// `rank` gives rows with the same entries the same rank.
pub open spec fn ranks_by_entries<F: Fn(&Vec<Vec<u64>>, Option<usize>) -> u64>(rank: F) -> bool {
    forall|rows1: Vec<Vec<u64>>, rows2: Vec<Vec<u64>>, place: Option<usize>, key1: u64, key2: u64|
        #![trigger call_ensures(rank, (&rows1, place), key1), call_ensures(rank, (&rows2, place), key2)]
        {
            &&& rows1@.len() == rows2@.len()
            &&& forall|d: int| 0 <= d < rows1@.len() ==> (#[trigger] rows1@[d])@ == rows2@[d]@
            &&& call_ensures(rank, (&rows1, place), key1)
            &&& call_ensures(rank, (&rows2, place), key2)
        } ==> key1 == key2
}

/// The deposits settle the choice: where the rank of a move is a function of
/// the entries of its rows, two choices made on the same deposits are the
/// same, in whatever order the deposits were worked out.
pub proof fn lemma_deposits_settle_choice<F: Fn(&Vec<Vec<u64>>, Option<usize>) -> u64>(
    rank: F,
    deposits: Seq<Vec<Vec<u64>>>,
    root_player: Option<usize>,
    keys1: Seq<u64>,
    best1: int,
    keys2: Seq<u64>,
    best2: int,
)
    requires
        ranks_by_entries(rank),
        keys1.len() == keys2.len(),
        forall|a: int|
            0 <= a < keys1.len() ==> is_key(rank, deposits, a, root_player, #[trigger] keys1[a]),
        forall|a: int|
            0 <= a < keys2.len() ==> is_key(rank, deposits, a, root_player, #[trigger] keys2[a]),
        is_first_max(keys1, best1),
        is_first_max(keys2, best2),
    ensures
        keys1 == keys2,
        best1 == best2,
{
    assert forall|a: int| 0 <= a < keys1.len() implies keys1[a] == keys2[a] by {
        assert(is_key(rank, deposits, a, root_player, keys1[a]));
        assert(is_key(rank, deposits, a, root_player, keys2[a]));
        let rows1 = choose|rows: Vec<Vec<u64>>|
            rows_of(deposits, a, rows@) && #[trigger] call_ensures(
                rank,
                (&rows, root_player),
                keys1[a],
            );
        let rows2 = choose|rows: Vec<Vec<u64>>|
            rows_of(deposits, a, rows@) && #[trigger] call_ensures(
                rank,
                (&rows, root_player),
                keys2[a],
            );
        assert forall|d: int| 0 <= d < rows1@.len() implies (#[trigger] rows1@[d])@
            == rows2@[d]@ by {
            assert(rows2@[d]@ == deposits[d]@[a]@);
        }
    }
    assert(keys1 =~= keys2);
    if best1 < best2 {
        assert(keys2[best1] < keys2[best2]);
        assert(keys1[best2] <= keys1[best1]);
    }
    if best2 < best1 {
        assert(keys1[best2] < keys1[best1]);
        assert(keys2[best1] <= keys2[best2]);
    }
}

/// The deposits, the place of the deciding player and the ranks behind the
/// choice of move `j`.
pub open spec fn choice_witness<
    P,
    A,
    G: Mcts<P, A> + Determinable<P, A, G>,
    F: Fn(&Vec<Vec<u64>>, Option<usize>) -> u64,
>(
    game: G,
    num_determinizations: nat,
    num_simulations: nat,
    rank: F,
    j: int,
    deposits: Seq<Vec<Vec<u64>>>,
    root_player: Option<usize>,
    keys: Seq<u64>,
) -> bool {
    &&& deposits.len() == num_determinizations
    &&& forall|d: int|
        0 <= d < deposits.len() ==> is_deposit::<P, A, G>(
            game,
            num_simulations,
            (#[trigger] deposits[d])@,
        )
    &&& stands_at(game.roster(), game.to_move(), root_player)
    &&& keys.len() == game.legal_actions().len()
    &&& forall|a: int|
        0 <= a < keys.len() ==> is_key(rank, deposits, a, root_player, #[trigger] keys[a])
    &&& is_first_max(keys, j)
}

/// Move `j` of `game` is one that the search may return: there are
/// `num_determinizations` deposits, each the work of one determinization with
/// `num_simulations` games per move, and ranks that `rank` gives the moves on
/// them, of which that of `j` is the first greatest.
pub open spec fn is_choice<
    P,
    A,
    G: Mcts<P, A> + Determinable<P, A, G>,
    F: Fn(&Vec<Vec<u64>>, Option<usize>) -> u64,
>(
    game: G,
    num_determinizations: nat,
    num_simulations: nat,
    rank: F,
    j: int,
) -> bool {
    exists|deposits: Seq<Vec<Vec<u64>>>, root_player: Option<usize>, keys: Seq<u64>| #[trigger]
        choice_witness::<P, A, G, F>(
            game,
            num_determinizations,
            num_simulations,
            rank,
            j,
            deposits,
            root_player,
            keys,
        )
}

/// Chooses a move for the player whose turn it is in `game`.
///
/// The legal moves are listed once. Determinization `d`, for each `d` below
/// `num_determinizations`, works with a copy of `rng` moved on by `d` draws
/// (see [`determinization_scores`]); `rng` itself is not moved. The deposits
/// are then ranked move by move with `rank` and the best move is returned, the
/// earliest one among equals (see [`decide`]).
///
/// The determinizations share nothing, so they are run one after the other
/// here; a caller that wants them on threads runs [`determinization_scores`]
/// on each thread and hands the deposits to [`decide`].
///
/// The game must have a legal move.
pub fn ismcts_mt<P, A, G, F>(
    game: &G,
    rng: &Pcg64,
    num_determinizations: usize,
    num_simulations: usize,
    rank: &F,
) -> (action: A) where
    P: PartialEq,
    A: Clone,
    G: Mcts<P, A> + Determinable<P, A, G>,
    F: Fn(&Vec<Vec<u64>>, Option<usize>) -> u64,

    requires
        obeys_concrete_eq::<P>(),
        clones_exactly::<A>(),
        game.legal_actions().len() > 0,
        forall|rows: &Vec<Vec<u64>>, place: Option<usize>| call_requires(*rank, (rows, place)),
    ensures
        exists|j: int|
            0 <= j < game.legal_actions().len() && action == game.legal_actions()[j]
                && #[trigger] is_choice::<P, A, G, F>(
                *game,
                num_determinizations as nat,
                num_simulations as nat,
                *rank,
                j,
            ),
        game.legal_actions().contains(action),
        game.legal_actions().len() == 1 ==> action == game.legal_actions()[0],
{
    let actions = game.actions();
    let players = game.players();
    let current_player = game.current_player();
    let root_player = position(&players, &current_player);
    let mut deposits: Vec<Vec<Vec<u64>>> = Vec::new();
    let mut d: usize = 0;
    while d < num_determinizations
        invariant
            obeys_concrete_eq::<P>(),
            clones_exactly::<A>(),
            d <= num_determinizations,
            deposits@.len() == d,
            forall|k: int|
                0 <= k < d ==> is_deposit::<P, A, G>(
                    *game,
                    num_simulations as nat,
                    (#[trigger] deposits@[k])@,
                ),
        decreases num_determinizations - d,
    {
        let scores = determinization_scores(game, rng, d, num_simulations);
        deposits.push(scores);
        d += 1;
    }
    let best = decide(actions.len(), &deposits, root_player, rank);
    proof {
        let keys = choose|keys: Seq<u64>|
            {
                &&& keys.len() == actions@.len()
                &&& forall|a: int|
                    0 <= a < actions@.len() ==> is_key(
                        *rank,
                        deposits@,
                        a,
                        root_player,
                        #[trigger] keys[a],
                    )
                &&& is_first_max(keys, best as int)
            };
        assert(choice_witness::<P, A, G, F>(
            *game,
            num_determinizations as nat,
            num_simulations as nat,
            *rank,
            best as int,
            deposits@,
            root_player,
            keys,
        ));
        assert(is_choice::<P, A, G, F>(
            *game,
            num_determinizations as nat,
            num_simulations as nat,
            *rank,
            best as int,
        ));
    }
    copy_of(&actions[best])
}

} // verus!
