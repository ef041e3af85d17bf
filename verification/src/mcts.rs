//! The planner: for every legal move it plays a number of random games a few
//! moves deep and recommends the move whose games score highest in sum.

use rand::rngs::StdRng;
use vstd::prelude::*;
use crate::actions::Actions;
use crate::board::{is_over, legal_moves, move_changes};
use crate::game::{has_empty_cell, pushed, Game, GameView};
use crate::laws::{lemma_legal_moves, lemma_over_iff_no_legal_move};
use crate::random::choose_action;
use crate::sound::{lemma_change_leaves_room, lemma_sound_has_tile, SCORE_LIMIT};

verus! {

/// How many moves deep a random game is played, the spawn that opens it
/// counted in.
pub const DEPTH: usize = 20;

/// How many random games are played for every legal move.
pub const SEARCHES_PER_MOVE: usize = 200;

/// Whether `at` is the first position with the highest of the first `n`
/// scores.
pub open spec fn first_maximum(scores: Seq<u32>, n: int, at: int) -> bool {
    &&& 0 <= at < n
    &&& forall|j: int| 0 <= j < n ==> scores[j] <= scores[at]
    &&& forall|j: int| 0 <= j < at ==> scores[j] < scores[at]
}

/// How many actions have a score: the length of the shorter list.
pub open spec fn paired(actions: Seq<Actions>, scores: Seq<u32>) -> int {
    if actions.len() <= scores.len() {
        actions.len() as int
    } else {
        scores.len() as int
    }
}

/// The action with the highest score, each action taken with the score of
/// the same position; of several with the highest score, the first. Entries
/// of the longer list that have no partner in the shorter are left out.
pub fn best_action(actions: &Vec<Actions>, scores: &Vec<u32>) -> (best: Option<Actions>)
    ensures
        best is None <==> actions.len() == 0 || scores.len() == 0,
        best matches Some(action) ==> exists|at: int|
            {
                &&& #[trigger] first_maximum(scores@, paired(actions@, scores@), at)
                &&& action == actions[at]
            },
{
    let n = if actions.len() <= scores.len() {
        actions.len()
    } else {
        scores.len()
    };
    if n == 0 {
        return None;
    }
    let mut at: usize = 0;
    let mut k: usize = 1;
    while k < n
        invariant
            1 <= k <= n,
            n <= actions.len(),
            n <= scores.len(),
            first_maximum(scores@, k as int, at as int),
        decreases n - k,
    {
        if scores[k] > scores[at] {
            at = k;
        }
        k = k + 1;
    }
    assert(first_maximum(scores@, paired(actions@, scores@), at as int));
    Some(actions[at])
}

/// One legal move of a game that is in play and not over, picked at random.
fn random_move(game: &Game, rng: &mut StdRng) -> (action: Actions)
    requires
        game.wf(),
        !is_over(game@.board),
    ensures
        legal_moves(game@.board).contains(action),
{
    proof {
        game.lemma_wf_fits();
        lemma_sound_has_tile(game@);
        lemma_over_iff_no_legal_move(game@.board);
    }
    let moves = game.valid_moves();
    let picked = choose_action(moves, rng);
    picked.unwrap()
}

/// Plays one random game from a position that a move has just produced, up
/// to [`DEPTH`] moves deep or to its end, and returns its score.
fn rollout(game: &Game, rng: &mut StdRng) -> (score: u32)
    requires
        game.wf(),
        has_empty_cell(game@.board),
    ensures
        game.score <= score <= SCORE_LIMIT,
{
    let mut level: usize = 1;
    let mut search_game = *game;
    proof {
        game.lemma_wf_fits();
    }
    search_game.add_tile(rng);
    loop
        invariant
            search_game.wf(),
            search_game.score >= game.score,
            1 <= level <= DEPTH,
        decreases DEPTH - level,
    {
        if search_game.is_game_over() || level >= DEPTH {
            break ;
        }
        let action = random_move(&search_game, rng);
        proof {
            search_game.lemma_wf_fits();
        }
        search_game.step(action, rng);
        level = level + 1;
    }
    proof {
        search_game.lemma_wf_fits();
    }
    search_game.score
}

/// What the random games of the planner can give: for every legal move a
/// total that is at least the score right after the move, counted once for
/// the move itself and once for each of its random games.
pub open spec fn possible_totals(game: GameView, totals: Seq<u32>) -> bool {
    &&& totals.len() == legal_moves(game.board).len()
    &&& forall|n: int|
        0 <= n < totals.len() ==> (SEARCHES_PER_MOVE + 1) * pushed(
            game,
            legal_moves(game.board)[n],
        ).score <= #[trigger] totals[n]
}

/// Recommends a move for a game in play, or `None` if no move is legal.
///
/// Every legal move is made on a copy of the game, and from the position it
/// leaves [`SEARCHES_PER_MOVE`] random games are played, each opened by a
/// spawn and at most [`DEPTH`] moves deep. The total of a move is the score
/// right after it plus the final scores of its random games, and the move
/// with the highest total is recommended, of several the first.
///
/// So the recommendation is always a legal move, and where exactly one move
/// is legal, it is that move, whatever the random games give.
pub fn simlulation(game: &Game, rng: &mut StdRng) -> (choice: Option<Actions>)
    requires
        game.wf(),
    ensures
        choice is None <==> legal_moves(game@.board).len() == 0,
        choice matches Some(action) ==> legal_moves(game@.board).contains(action),
        legal_moves(game@.board).len() == 1 ==> choice == Some(legal_moves(game@.board)[0]),
        exists|totals: Seq<u32>|
            {
                &&& #[trigger] possible_totals(game@, totals)
                &&& choice matches Some(action) ==> exists|at: int|
                    #[trigger] first_maximum(totals, totals.len() as int, at) && action
                        == legal_moves(game@.board)[at]
            },
{
    proof {
        game.lemma_wf_fits();
        lemma_legal_moves(game@.board);
    }
    let valid_actions = game.valid_moves();
    let mut scores: Vec<u32> = Vec::new();
    let mut n: usize = 0;
    while n < valid_actions.len()
        invariant
            n <= valid_actions.len(),
            scores.len() == n,
            forall|m: int|
                0 <= m < n ==> (SEARCHES_PER_MOVE + 1) * pushed(game@, valid_actions@[m]).score
                    <= #[trigger] scores@[m],
            game.wf(),
            game.can_move_any(),
            valid_actions@ == legal_moves(game@.board),
            forall|d: Actions| #[trigger]
                legal_moves(game@.board).contains(d) <==> move_changes(game@.board, d),
        decreases valid_actions.len() - n,
    {
        let action = valid_actions[n];
        let mut current_game = *game;
        proof {
            assert(valid_actions@.contains(action));
            assert(current_game.can_move(action));
            lemma_change_leaves_room(game@.board, action);
        }
        let _changed = current_game.do_move(action);
        proof {
            current_game.lemma_wf_fits();
        }
        let mut score: u32 = current_game.score;
        let mut j: usize = 0;
        while j < SEARCHES_PER_MOVE
            invariant
                j <= SEARCHES_PER_MOVE,
                current_game.wf(),
                has_empty_cell(current_game@.board),
                (j + 1) * current_game.score <= score <= (j + 1) * SCORE_LIMIT,
            decreases SEARCHES_PER_MOVE - j,
        {
            let reached = rollout(&current_game, rng);
            assert((j + 2) * current_game.score == (j + 1) * current_game.score
                + current_game.score) by (nonlinear_arith);
            score = score + reached;
            j = j + 1;
        }
        scores.push(score);
        n = n + 1;
    }
    let choice = best_action(&valid_actions, &scores);
    proof {
        assert(possible_totals(game@, scores@));
        if let Some(action) = choice {
            let at = choose|at: int|
                {
                    &&& #[trigger] first_maximum(
                        scores@,
                        paired(valid_actions@, scores@),
                        at,
                    )
                    &&& action == valid_actions[at]
                };
            assert(valid_actions@[at] == action);
        }
    }
    choice
}

} // verus!
