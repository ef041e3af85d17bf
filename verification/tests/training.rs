use leptos_2048::agent::Agent;
use leptos_2048::game::{Actions, Game};
use leptos_2048::nn::{
    checked_layer_shapes, is_consistent, layer_shapes, ActivationFunction, LayerShape,
};
use leptos_2048::population::{
    best_by_mean, generation_plan, is_higher, rank_by_mean, refill_plan, Standing,
};
use rand::rngs::StdRng;
use rand::SeedableRng;

#[test]
fn test_agent() {
    let mut rng = StdRng::seed_from_u64(16);
    let game = Game::new(&mut rng);
    let mut a = Agent::new(game);
    a.step(Actions::Left, &mut rng);
    assert!(a.steps == 1)
}

#[test]
fn an_agent_whose_game_is_over_does_not_step() {
    let mut rng = StdRng::seed_from_u64(1);
    let mut agent = Agent::new(Game::new(&mut rng));
    let stuck = [[1, 2, 1, 2], [2, 1, 2, 1], [1, 2, 1, 2], [2, 1, 2, 1]];
    for i in 0..4 {
        for j in 0..4 {
            agent.game.board[i][j].value = stuck[i][j];
        }
    }
    let before = agent.game;
    assert_eq!(agent.step(Actions::Left, &mut rng), false);
    assert_eq!(agent.steps, 0);
    assert!(agent.game == before);
}

#[test]
fn an_episode_ends_with_the_budget() {
    let mut rng = StdRng::seed_from_u64(2);
    let mut agent = Agent::new(Game::new(&mut rng));
    agent.play(7, |game: &Game| game.valid_moves()[0], &mut rng);
    assert_eq!(agent.steps, 7);
    assert_eq!(agent.game.moves, 7);
    assert_eq!(agent.scores, vec![agent.game.score]);
    assert_eq!(agent.highest_tiles, vec![agent.game.highest_tile().unwrap()]);
}

#[test]
fn an_episode_ends_with_a_move_that_changes_nothing() {
    let mut rng = StdRng::seed_from_u64(3);
    let mut agent = Agent::new(Game::new(&mut rng));
    agent.play(10000, |_: &Game| Actions::Left, &mut rng);
    assert!(agent.steps >= 1);
    assert_eq!(agent.game.moves + 1, agent.steps);
    assert!(!agent.game.valid_moves().contains(&Actions::Left) || agent.game.is_game_over());
    assert_eq!(agent.scores.len(), 1);
}

#[test]
fn an_episode_ends_with_the_game() {
    let mut rng = StdRng::seed_from_u64(4);
    let mut agent = Agent::new(Game::new(&mut rng));
    agent.play(1000000, |game: &Game| *game.valid_moves().last().unwrap(), &mut rng);
    assert!(agent.game.is_game_over());
    assert_eq!(agent.steps, agent.game.moves);
    assert_eq!(agent.scores, vec![agent.game.score]);
}

#[test]
fn the_record_grows_until_reset_and_outlasts_it() {
    let mut rng = StdRng::seed_from_u64(5);
    let mut agent = Agent::new(Game::new(&mut rng));
    assert_eq!(agent.get_highest_tile(), None);
    agent.play(3, |game: &Game| game.valid_moves()[0], &mut rng);
    agent.play(6, |game: &Game| game.valid_moves()[0], &mut rng);
    assert_eq!(agent.steps, 6);
    assert_eq!(agent.scores.len(), 2);
    assert!(agent.scores[0] <= agent.scores[1]);
    agent.reset(&mut rng);
    assert_eq!(agent.steps, 0);
    assert_eq!(agent.game.score, 0);
    assert_eq!(agent.game.moves, 0);
    assert_eq!(agent.scores.len(), 2);
    assert_eq!(agent.highest_tiles.len(), 2);
    assert_eq!(agent.total_score(), agent.scores[0] as u64 + agent.scores[1] as u64);
}

#[test]
fn the_highest_tile_on_record() {
    let mut rng = StdRng::seed_from_u64(6);
    let mut agent = Agent::new(Game::new(&mut rng));
    agent.highest_tiles = vec![4, 16, 8, 16, 2];
    assert_eq!(agent.get_highest_tile(), Some(16));
    agent.highest_tiles = vec![32];
    assert_eq!(agent.get_highest_tile(), Some(32));
    agent.scores = vec![4000000000, 4000000000, 7];
    assert_eq!(agent.total_score(), 8000000007);
}

#[test]
fn parents_are_drawn_from_the_agents_kept() {
    for seed in 0..20 {
        let mut rng = StdRng::seed_from_u64(seed);
        let parents = refill_plan(1000, 20, &mut rng);
        assert_eq!(parents.len(), 980);
        assert!(parents.iter().all(|&p| p < 20));
        assert!((0..20).all(|k| parents.contains(&k)));
    }
    let mut rng = StdRng::seed_from_u64(1);
    assert_eq!(refill_plan(5, 5, &mut rng), vec![]);
    assert_eq!(refill_plan(0, 0, &mut rng), vec![]);
    assert_eq!(refill_plan(4, 1, &mut rng), vec![0, 0, 0]);
}

#[test]
fn the_best_are_kept_and_stand_parent_to_the_rest() {
    let list: Vec<Standing> = [(10u64, 2u64), (9, 1), (20, 4), (0, 5), (27, 3), (5, 1)]
        .iter()
        .map(|&(total, episodes)| Standing { total, episodes })
        .collect();
    for seed in 0..20 {
        let mut rng = StdRng::seed_from_u64(seed);
        let plan = generation_plan(&list, 2, &mut rng);
        assert_eq!(plan.len(), 6);
        assert_eq!(plan[..2], [1, 4]);
        assert!(plan[2..].iter().all(|&p| p == 1 || p == 4));
    }
    let mut rng = StdRng::seed_from_u64(1);
    assert_eq!(generation_plan(&list, 6, &mut rng), vec![1, 4, 0, 2, 5, 3]);
    assert_eq!(generation_plan(&list, 1, &mut rng), vec![1, 1, 1, 1, 1, 1]);
    assert_eq!(generation_plan(&vec![], 0, &mut rng), vec![]);
}

#[test]
fn layers_lead_from_width_to_width() {
    let shapes = layer_shapes(
        &[16, 128, 64, 4],
        &[
            ActivationFunction::ReLU,
            ActivationFunction::ReLU,
            ActivationFunction::Identity,
        ],
    );
    assert_eq!(
        shapes,
        vec![
            LayerShape { inputs: 16, outputs: 128, activation: ActivationFunction::ReLU },
            LayerShape { inputs: 128, outputs: 64, activation: ActivationFunction::ReLU },
            LayerShape { inputs: 64, outputs: 4, activation: ActivationFunction::Identity },
        ]
    );
    assert_eq!(layer_shapes(&[2], &[]), vec![]);
}

#[test]
fn widths_and_activations_must_match() {
    assert_eq!(checked_layer_shapes(&[2, 3, 1], &[ActivationFunction::Sigmoid]), None);
    assert_eq!(checked_layer_shapes(&[], &[]), None);
    assert_eq!(
        checked_layer_shapes(&[2, 3], &[ActivationFunction::Tanh]),
        Some(vec![LayerShape { inputs: 2, outputs: 3, activation: ActivationFunction::Tanh }])
    );
}

#[test]
fn weights_must_fit_the_layer_before() {
    assert!(is_consistent(2, &vec![vec![2, 2, 2], vec![3]]));
    assert!(is_consistent(2, &vec![]));
    assert!(is_consistent(2, &vec![vec![], vec![0, 0]]));
    assert!(!is_consistent(2, &vec![vec![2, 3, 2], vec![3]]));
    assert!(!is_consistent(2, &vec![vec![2, 2, 2], vec![2]]));
    assert!(!is_consistent(3, &vec![vec![2, 2, 2], vec![3]]));
}

fn standings(list: &[(u64, u64)]) -> Vec<Standing> {
    list.iter().map(|&(total, episodes)| Standing { total, episodes }).collect()
}

#[test]
fn means_are_compared_as_fractions() {
    let third = Standing { total: 1, episodes: 3 };
    let more = Standing { total: 333333333333333334, episodes: 1000000000000000000 };
    let same = Standing { total: 4, episodes: 12 };
    assert!(is_higher(&more, &third));
    assert!(!is_higher(&third, &more));
    assert!(!is_higher(&third, &same));
    assert!(!is_higher(&same, &third));
    let huge = Standing { total: u64::MAX, episodes: u64::MAX };
    let one = Standing { total: 1, episodes: 1 };
    assert!(!is_higher(&huge, &one));
    assert!(!is_higher(&one, &huge));
}

#[test]
fn agents_rank_by_mean_and_equals_keep_their_order() {
    let list = standings(&[(10, 2), (9, 1), (20, 4), (0, 5), (27, 3), (5, 1)]);
    assert_eq!(rank_by_mean(&list), vec![1, 4, 0, 2, 5, 3]);
    assert_eq!(rank_by_mean(&standings(&[])), vec![]);
    assert_eq!(rank_by_mean(&standings(&[(3, 1)])), vec![0]);
    assert_eq!(rank_by_mean(&standings(&[(1, 1), (2, 2), (3, 3)])), vec![0, 1, 2]);
    assert_eq!(rank_by_mean(&standings(&[(1, 1), (2, 1), (3, 1)])), vec![2, 1, 0]);
}

#[test]
fn the_best_agent_is_the_last_of_the_highest() {
    let list = standings(&[(10, 2), (9, 1), (20, 4), (18, 2), (5, 1)]);
    assert_eq!(best_by_mean(&list), Some(3));
    assert_eq!(best_by_mean(&standings(&[(7, 1)])), Some(0));
    assert_eq!(best_by_mean(&standings(&[])), None);
    assert_eq!(best_by_mean(&standings(&[(1, 2), (1, 3)])), Some(0));
}

#[test]
fn an_agent_shows_its_total_and_its_episodes() {
    let mut rng = StdRng::seed_from_u64(9);
    let mut agent = Agent::new(Game::new(&mut rng));
    assert_eq!(agent.standing(), Standing { total: 0, episodes: 0 });
    agent.scores = vec![12, 0, 30];
    assert_eq!(agent.standing(), Standing { total: 42, episodes: 3 });
}
