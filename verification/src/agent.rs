//! An agent at play: its game, its count of steps, and the record of the
//! episodes it has finished. Which move to make is for the agent's policy to
//! say; the policy is handed in by whoever drives the agent.

use itertools::Itertools;
use rand::rngs::StdRng;
use vstd::prelude::*;
use vstd::arithmetic::power2::pow2;
use crate::actions::Actions;
use crate::board::{is_over, move_changes};
use crate::game::{empty_game, spawned, stepped, Game, GameView};
use crate::population::Standing;
use crate::sound::lemma_sound_has_tile;
use crate::tally::lemma_line_sum_of_four;
use crate::tally::Measure;

verus! {

/// The playing record of one agent.
///
/// `scores` and `highest_tiles` hold one entry for every finished episode,
/// oldest first; `steps` counts the steps of the episode under way.
#[derive(Clone)]
pub struct Agent {
    pub scores: Vec<u32>,
    pub highest_tiles: Vec<u32>,
    pub game: Game,
    pub steps: usize,
}

/// Calls `itertools::Itertools::position_max` on the values. Taken on trust:
/// the result is `None` for an empty list and otherwise the position of the
/// greatest value, of several greatest the last.
#[verifier::external_body]
pub(crate) fn position_max(values: &Vec<u32>) -> (found: Option<usize>)
    ensures
        found is None <==> values@.len() == 0,
        found matches Some(at) ==> {
            &&& at < values@.len()
            &&& forall|j: int| 0 <= j < values@.len() ==> values@[j] <= values@[at as int]
            &&& forall|j: int| at < j < values@.len() ==> values@[j] < values@[at as int]
        },
{
    values.iter().position_max()
}

/// The face value of the highest tile on the board.
pub open spec fn highest_face(game: Game, face: u32) -> bool {
    exists|i: int, j: int|
        {
            &&& 0 <= i < 4 && 0 <= j < 4
            &&& face == pow2((#[trigger] game.board[i][j]).value as nat)
            &&& game.board[i][j].value != 0
            &&& forall|r: int, c: int|
                0 <= r < 4 && 0 <= c < 4 ==> (#[trigger] game.board[r][c]).value
                    <= game.board[i][j].value
        }
}

/// Turn `n` of an episode: the game is not over and the budget of steps not
/// used up, the policy names the move, and the move is made.
pub open spec fn turn<P: Fn(&Game) -> Actions>(
    policy: P,
    games: Seq<Game>,
    actions: Seq<Actions>,
    n: int,
    budget: int,
) -> bool {
    &&& !is_over(games[n]@.board)
    &&& n < budget
    &&& call_ensures(policy, (&games[n],), actions[n])
    &&& stepped(games[n]@, actions[n], games[n + 1]@)
}

/// Whether the move of turn `n` changes the board.
pub open spec fn turn_changes(games: Seq<Game>, actions: Seq<Actions>, n: int) -> bool {
    move_changes(games[n]@.board, actions[n])
}

/// An episode: a run of turns that goes on until the game is over, the
/// budget of steps is used up, or a move leaves the board unchanged.
/// `games` holds the game before every turn and the game at the end.
pub open spec fn episode<P: Fn(&Game) -> Actions>(
    policy: P,
    games: Seq<Game>,
    actions: Seq<Actions>,
    budget: int,
) -> bool {
    &&& games.len() == actions.len() + 1
    &&& forall|n: int| 0 <= n < actions.len() ==> #[trigger] turn(policy, games, actions, n, budget)
    &&& forall|n: int| 0 <= n < actions.len() - 1 ==> #[trigger] turn_changes(games, actions, n)
    &&& {
        ||| is_over(games[games.len() - 1]@.board)
        ||| actions.len() >= budget
        ||| actions.len() > 0 && !turn_changes(games, actions, actions.len() - 1)
    }
}

impl Agent {
    /// An agent that has yet to play, seated at the given game.
    pub fn new(game: Game) -> (agent: Agent)
        ensures
            agent.game == game,
            agent.scores@.len() == 0,
            agent.highest_tiles@.len() == 0,
            agent.steps == 0,
    {
        Agent { scores: Vec::new(), highest_tiles: Vec::new(), game, steps: 0 }
    }

    /// Makes the given move, unless the game is over: then nothing happens
    /// and `false` is returned. Otherwise the step is counted, whether or not
    /// the move changed the board, and the result says whether it did.
    pub fn step(&mut self, action: Actions, rng: &mut StdRng) -> (changed: bool)
        requires
            old(self).game.wf(),
            old(self).steps < usize::MAX,
        ensures
            final(self).scores == old(self).scores,
            final(self).highest_tiles == old(self).highest_tiles,
            final(self).game.wf(),
            is_over(old(self).game@.board) ==> !changed && final(self).game == old(self).game
                && final(self).steps == old(self).steps,
            !is_over(old(self).game@.board) ==> {
                &&& changed == move_changes(old(self).game@.board, action)
                &&& stepped(old(self).game@, action, final(self).game@)
                &&& final(self).steps == old(self).steps + 1
            },
    {
        if self.game.is_game_over() {
            return false;
        }
        proof {
            self.game.lemma_wf_fits();
        }
        let changed = self.game.step(action, rng);
        self.steps = self.steps + 1;
        changed
    }

    /// Plays one episode: asks the policy for a move and makes it, until the
    /// game is over, the count of steps has reached `max_steps`, or a move
    /// leaves the board unchanged. Then the score and the highest tile of
    /// the game go on record.
    pub fn play<P: Fn(&Game) -> Actions>(&mut self, max_steps: usize, policy: P, rng: &mut StdRng)
        requires
            old(self).game.wf(),
            forall|game: &Game| game.wf() ==> #[trigger] call_requires(policy, (game,)),
        ensures
            final(self).game.wf(),
            final(self).steps >= old(self).steps,
            exists|games: Seq<Game>, actions: Seq<Actions>|
                {
                    &&& #[trigger] episode(policy, games, actions, max_steps - old(self).steps)
                    &&& games[0] == old(self).game
                    &&& games[games.len() - 1] == final(self).game
                    &&& actions.len() == final(self).steps - old(self).steps
                },
            final(self).scores@ == old(self).scores@.push(final(self).game.score),
            final(self).highest_tiles@.len() == old(self).highest_tiles@.len() + 1,
            final(self).highest_tiles@.subrange(0, old(self).highest_tiles@.len() as int) == old(
                self,
            ).highest_tiles@,
            highest_face(final(self).game, final(self).highest_tiles@.last()),
    {
        let ghost budget = max_steps - self.steps;
        let ghost mut games: Seq<Game> = seq![self.game];
        let ghost mut actions: Seq<Actions> = Seq::empty();
        loop
            invariant_except_break
                self.game.wf(),
                self.scores == old(self).scores,
                self.highest_tiles == old(self).highest_tiles,
                self.steps >= old(self).steps,
                budget == max_steps - old(self).steps,
                forall|game: &Game| game.wf() ==> #[trigger] call_requires(policy, (game,)),
                games.len() == actions.len() + 1,
                forall|n: int|
                    0 <= n < actions.len() ==> #[trigger] turn(policy, games, actions, n, budget),
                forall|n: int| 0 <= n < actions.len() ==> #[trigger] turn_changes(games, actions, n),
                games[0] == old(self).game,
                games[games.len() - 1] == self.game,
                actions.len() == self.steps - old(self).steps,
            ensures
                self.game.wf(),
                self.scores == old(self).scores,
                self.highest_tiles == old(self).highest_tiles,
                self.steps >= old(self).steps,
                episode(policy, games, actions, budget),
                games[0] == old(self).game,
                games[games.len() - 1] == self.game,
                actions.len() == self.steps - old(self).steps,
            decreases max_steps - self.steps,
        {
            if self.game.is_game_over() || self.steps >= max_steps {
                break ;
            }
            let action = policy(&self.game);
            let ghost before = self.game;
            let changed = self.step(action, rng);
            proof {
                let longer = games.push(self.game);
                let more = actions.push(action);
                let last = actions.len() as int;
                assert(longer[last] == before);
                assert forall|n: int| 0 <= n < more.len() implies #[trigger] turn(
                    policy,
                    longer,
                    more,
                    n,
                    budget,
                ) by {
                    if n < last {
                        assert(turn(policy, games, actions, n, budget));
                    }
                }
                assert forall|n: int| 0 <= n < more.len() - 1 implies #[trigger] turn_changes(
                    longer,
                    more,
                    n,
                ) by {
                    assert(turn_changes(games, actions, n));
                }
                assert(turn_changes(longer, more, last) == changed);
                games = longer;
                actions = more;
            }
            if !changed {
                break ;
            }
        }
        self.scores.push(self.game.score);
        proof {
            self.game.lemma_wf_fits();
            lemma_sound_has_tile(self.game@);
            lemma_line_sum_of_four(Measure::Count, self.game@.board[0]);
            lemma_line_sum_of_four(Measure::Count, self.game@.board[1]);
            lemma_line_sum_of_four(Measure::Count, self.game@.board[2]);
            lemma_line_sum_of_four(Measure::Count, self.game@.board[3]);
        }
        let best = self.game.highest_tile();
        proof {
            let (r, c) = choose|r: int, c: int|
                0 <= r < 4 && 0 <= c < 4 && (#[trigger] self.game@.board[r][c]).value != 0;
            assert(self.game.board[r][c].value != 0);
        }
        let face = best.unwrap();
        self.highest_tiles.push(face);
        proof {
            let (i, j) = choose|i: int, j: int|
                {
                    &&& 0 <= i < 4 && 0 <= j < 4
                    &&& face == pow2((#[trigger] self.game.board[i][j]).value as nat)
                    &&& forall|r: int, c: int|
                        0 <= r < 4 && 0 <= c < 4 ==> (#[trigger] self.game.board[r][c]).value
                            <= self.game.board[i][j].value
                };
            let (r, c) = choose|r: int, c: int|
                0 <= r < 4 && 0 <= c < 4 && (#[trigger] self.game@.board[r][c]).value != 0;
            assert(self.game.board[r][c].value <= self.game.board[i][j].value);
            assert(highest_face(self.game, face));
            assert(self.highest_tiles@.subrange(0, old(self).highest_tiles@.len() as int) =~= old(
                self,
            ).highest_tiles@);
        }
    }

    /// Seats the agent at a new game and sets its count of steps to zero; the
    /// record of finished episodes stays.
    pub fn reset(&mut self, rng: &mut StdRng)
        ensures
            final(self).scores == old(self).scores,
            final(self).highest_tiles == old(self).highest_tiles,
            final(self).steps == 0,
            exists|first: GameView| #[trigger]
                spawned(empty_game(), first) && spawned(first, final(self).game@),
            final(self).game.wf(),
    {
        self.steps = 0;
        self.game = Game::new(rng);
    }

    /// The highest tile that any finished episode has reached, or `None`
    /// before the first episode is finished.
    pub fn get_highest_tile(&self) -> (best: Option<u32>)
        ensures
            best is None <==> self.highest_tiles@.len() == 0,
            best matches Some(face) ==> self.highest_tiles@.contains(face) && forall|j: int|
                0 <= j < self.highest_tiles@.len() ==> self.highest_tiles@[j] <= face,
    {
        match position_max(&self.highest_tiles) {
            Some(at) => Some(self.highest_tiles[at]),
            None => None,
        }
    }

    /// What the agent has to show for its finished episodes: the sum of
    /// their scores and their number.
    pub fn standing(&self) -> (standing: Standing)
        requires
            self.scores@.len() <= u32::MAX,
        ensures
            standing.total == sum_of(self.scores@),
            standing.episodes == self.scores@.len(),
    {
        Standing { total: self.total_score(), episodes: self.scores.len() as u64 }
    }

    /// The scores of the finished episodes added up.
    pub fn total_score(&self) -> (total: u64)
        requires
            self.scores@.len() <= u32::MAX,
        ensures
            total == sum_of(self.scores@),
    {
        let mut total: u64 = 0;
        let mut n: usize = 0;
        while n < self.scores.len()
            invariant
                n <= self.scores@.len(),
                self.scores@.len() <= u32::MAX,
                total == sum_of(self.scores@.take(n as int)),
                total <= n * u32::MAX,
            decreases self.scores@.len() - n,
        {
            proof {
                assert(self.scores@.take(n + 1).drop_last() =~= self.scores@.take(n as int));
                assert(n * u32::MAX + u32::MAX <= u32::MAX * u32::MAX) by (nonlinear_arith)
                    requires
                        n < u32::MAX,
                ;
            }
            total = total + self.scores[n] as u64;
            n = n + 1;
        }
        proof {
            assert(self.scores@.take(n as int) =~= self.scores@);
        }
        total
    }
}

/// The sum of the scores.
pub open spec fn sum_of(scores: Seq<u32>) -> nat
    decreases scores.len(),
{
    if scores.len() == 0 {
        0
    } else {
        sum_of(scores.drop_last()) + scores.last() as nat
    }
}

} // verus!
