use leptos_2048::game::{Actions, Game, Tile};
use leptos_2048::mcts::{best_action, simlulation};
use rand::rngs::StdRng;
use rand::SeedableRng;

fn board_of(exponents: [[u32; 4]; 4], seed: u64) -> Game {
    let mut game = Game::new(&mut StdRng::seed_from_u64(seed));
    let mut idx = 0;
    for i in 0..4 {
        for j in 0..4 {
            idx += 1;
            game.board[i][j] = Tile::new(idx, exponents[i][j]);
        }
    }
    game
}

#[test]
fn the_only_legal_move_is_recommended() {
    for seed in 0..5 {
        let game = board_of([[1, 0, 0, 0], [2, 0, 0, 0], [3, 0, 0, 0], [4, 0, 0, 0]], seed);
        assert_eq!(game.valid_moves(), vec![Actions::Right]);
        let choice = simlulation(&game, &mut StdRng::seed_from_u64(seed));
        assert_eq!(choice, Some(Actions::Right));
    }
}

#[test]
fn nothing_is_recommended_when_the_game_is_over() {
    let game = board_of([[1, 2, 1, 2], [2, 1, 2, 1], [1, 2, 1, 2], [2, 1, 2, 1]], 1);
    assert_eq!(simlulation(&game, &mut StdRng::seed_from_u64(1)), None);
}

#[test]
fn the_recommendation_is_a_legal_move_and_leaves_the_game_alone() {
    for seed in 0..5 {
        let game = board_of([[1, 2, 3, 4], [0, 0, 0, 0], [0, 0, 0, 0], [0, 0, 0, 0]], seed);
        let copy = game;
        let choice = simlulation(&game, &mut StdRng::seed_from_u64(seed));
        assert_eq!(choice, Some(Actions::Down));
        assert!(game == copy);
        let game = Game::new(&mut StdRng::seed_from_u64(seed));
        let choice = simlulation(&game, &mut StdRng::seed_from_u64(seed)).unwrap();
        assert!(game.valid_moves().contains(&choice));
    }
}

#[test]
fn same_seed_same_recommendation() {
    let game = Game::new(&mut StdRng::seed_from_u64(11));
    let a = simlulation(&game, &mut StdRng::seed_from_u64(3));
    let b = simlulation(&game, &mut StdRng::seed_from_u64(3));
    assert_eq!(a, b);
}

#[test]
fn the_highest_score_wins_and_the_first_of_equals() {
    let actions = vec![Actions::Left, Actions::Right, Actions::Up, Actions::Down];
    assert_eq!(best_action(&actions, &vec![1, 9, 3, 2]), Some(Actions::Right));
    assert_eq!(best_action(&actions, &vec![4, 7, 7, 2]), Some(Actions::Right));
    assert_eq!(best_action(&actions, &vec![5, 5, 5, 5]), Some(Actions::Left));
    assert_eq!(best_action(&actions, &vec![0, 0, 0, 1]), Some(Actions::Down));
    assert_eq!(best_action(&actions, &vec![1, 2]), Some(Actions::Right));
    assert_eq!(best_action(&actions, &vec![]), None);
    assert_eq!(best_action(&vec![], &vec![1, 2]), None);
}
