use leptos_2048::game::{Actions, Game, Tile, MAX_EXPONENT, SIZE};
use rand::rngs::StdRng;
use rand::SeedableRng;

fn rng(seed: u64) -> StdRng {
    StdRng::seed_from_u64(seed)
}

fn test_game() -> Game {
    let mut game = Game::new(&mut rng(1));
    game.board = [
        [
            Tile::new(0, 0),
            Tile::new(1, 1),
            Tile::new(2, 2),
            Tile::new(3, 3),
        ],
        [
            Tile::new(4, 4),
            Tile::new(5, 5),
            Tile::new(6, 6),
            Tile::new(7, 7),
        ],
        [
            Tile::new(8, 8),
            Tile::new(9, 9),
            Tile::new(10, 10),
            Tile::new(11, 11),
        ],
        [
            Tile::new(12, 12),
            Tile::new(13, 13),
            Tile::new(14, 14),
            Tile::new(15, 15),
        ],
    ];
    game
}

fn game_of(exponents: [[u32; 4]; 4]) -> Game {
    let mut game = Game::new(&mut rng(2));
    let mut idx = 0;
    for i in 0..4 {
        for j in 0..4 {
            idx += 1;
            let mut tile = Tile::new(if exponents[i][j] == 0 { 0 } else { idx }, exponents[i][j]);
            tile.new = exponents[i][j] == 0;
            game.board[i][j] = tile;
        }
    }
    game.tiles = 2;
    game
}

fn exponents_of(game: &Game) -> [[u32; 4]; 4] {
    let mut out = [[0u32; 4]; 4];
    for i in 0..4 {
        for j in 0..4 {
            out[i][j] = game.board[i][j].value;
        }
    }
    out
}

fn occupied_cells(game: &Game) -> usize {
    16 - game.empty_tiles().len()
}

#[test]
fn highest_tile() {
    let game = test_game();
    assert_eq!(game.highest_tile(), Some(32768 as u32));
}

#[test]
fn game_over() {
    let mut game = test_game();
    game.board[0][0].value = 16;
    assert_eq!(game.is_game_over(), true);
}

#[test]
fn invalid_move() {
    let mut game = test_game();
    assert_eq!(game.move_down(), false);
    assert_eq!(game.move_right(), false);
}

#[test]
fn merge_cells() {
    let mut game = test_game();

    game.board[3][2].value = 15;
    assert_eq!(game.move_right(), true);
    assert_eq!(game.highest_tile(), Some(65536 as u32));
}

#[test]
fn flatten_board() {
    let game = test_game();
    let flat = game.flatten();
    assert_eq!(flat.len(), 16);
    assert_eq!(flat, (0..16).into_iter().map(|x| x as u32).collect::<Vec<u32>>())
}

#[test]
fn encoding() {
    let game = test_game();
    let encoding = game.one_hot_encode_board();
    assert_eq!(encoding.len(), SIZE * SIZE * MAX_EXPONENT);
    assert_eq!(encoding[0], 0);
    assert_eq!(encoding[MAX_EXPONENT + 1], 1);
    assert_eq!(encoding[MAX_EXPONENT * 4 + 4], 1);
    assert_eq!(encoding[MAX_EXPONENT * 15 + 15], 1);
}

#[test]
fn encoding_sets_one_slot_per_tile() {
    let game = test_game();
    let encoding = game.one_hot_encode_board();
    let set: usize = encoding.iter().map(|&x| x as usize).sum();
    assert_eq!(set, 15);
    assert_eq!(encoding[MAX_EXPONENT * 4 + 5], 0);
}

#[test]
fn new_game_has_two_small_tiles() {
    for seed in 0..50 {
        let game = Game::new(&mut rng(seed));
        assert_eq!(game.score, 0);
        assert_eq!(game.moves, 0);
        assert_eq!(game.tiles, 2);
        assert_eq!(occupied_cells(&game), 2);
        let listing = game.tiles();
        assert_eq!(listing.len(), 2);
        for id in [1u32, 2u32] {
            let (_, _, face, new, changed) = listing[&id];
            assert!(face == 2 || face == 4);
            assert!(new);
            assert!(!changed);
        }
    }
}

#[test]
fn same_seed_same_game() {
    let a = Game::new(&mut rng(77));
    let b = Game::new(&mut rng(77));
    assert!(a == b);
    let mut ra = rng(5);
    let mut rb = rng(5);
    let mut ga = Game::new(&mut ra);
    let mut gb = Game::new(&mut rb);
    for action in [Actions::Left, Actions::Up, Actions::Right, Actions::Down, Actions::Left] {
        assert_eq!(ga.step(action, &mut ra), gb.step(action, &mut rb));
        assert!(ga == gb);
    }
}

#[test]
fn distinct_row_only_moves_down() {
    let mut game = game_of([[1, 2, 3, 4], [0, 0, 0, 0], [0, 0, 0, 0], [0, 0, 0, 0]]);
    let before = exponents_of(&game);
    assert_eq!(game.move_left(), false);
    assert_eq!(exponents_of(&game), before);
    assert_eq!(game.move_right(), false);
    assert_eq!(exponents_of(&game), before);
    assert_eq!(game.move_up(), false);
    assert_eq!(exponents_of(&game), before);
    assert_eq!(game.score, 0);
    assert_eq!(game.move_down(), true);
    assert_eq!(
        exponents_of(&game),
        [[0, 0, 0, 0], [0, 0, 0, 0], [0, 0, 0, 0], [1, 2, 3, 4]]
    );
    assert_eq!(game.score, 0);
}

#[test]
fn scattered_tiles_compact_without_merging() {
    let mut game = game_of([[0, 1, 0, 2], [3, 0, 0, 0], [0, 0, 0, 4], [0, 5, 6, 0]]);
    assert_eq!(game.move_left(), true);
    assert_eq!(
        exponents_of(&game),
        [[1, 2, 0, 0], [3, 0, 0, 0], [4, 0, 0, 0], [5, 6, 0, 0]]
    );
    let mut game = game_of([[0, 1, 0, 2], [3, 0, 0, 0], [0, 0, 0, 4], [0, 5, 6, 0]]);
    assert_eq!(game.move_right(), true);
    assert_eq!(
        exponents_of(&game),
        [[0, 0, 1, 2], [0, 0, 0, 3], [0, 0, 0, 4], [0, 0, 5, 6]]
    );
    let mut game = game_of([[0, 1, 0, 2], [3, 0, 0, 0], [0, 0, 0, 4], [0, 5, 6, 0]]);
    assert_eq!(game.move_up(), true);
    assert_eq!(
        exponents_of(&game),
        [[3, 1, 6, 2], [0, 5, 0, 4], [0, 0, 0, 0], [0, 0, 0, 0]]
    );
    let mut game = game_of([[0, 1, 0, 2], [3, 0, 0, 0], [0, 0, 0, 4], [0, 5, 6, 0]]);
    assert_eq!(game.move_down(), true);
    assert_eq!(
        exponents_of(&game),
        [[0, 0, 0, 0], [0, 0, 0, 0], [0, 1, 0, 2], [3, 5, 6, 4]]
    );
    assert_eq!(game.score, 0);
}

#[test]
fn merge_chain_takes_two_moves() {
    let mut game = game_of([[1, 1, 2, 0], [0, 0, 0, 0], [0, 0, 0, 0], [0, 0, 0, 0]]);
    assert_eq!(game.move_left(), true);
    assert_eq!(exponents_of(&game)[0], [2, 2, 0, 0]);
    assert_eq!(game.score, 4);
    assert_eq!(game.move_left(), true);
    assert_eq!(exponents_of(&game)[0], [3, 0, 0, 0]);
    assert_eq!(game.score, 12);
    assert_eq!(game.move_left(), false);
    assert_eq!(game.score, 12);
}

#[test]
fn a_tile_merges_once_per_move() {
    let mut game = game_of([[1, 1, 1, 1], [2, 2, 2, 0], [3, 0, 3, 3], [0, 0, 0, 0]]);
    assert_eq!(game.move_left(), true);
    assert_eq!(
        exponents_of(&game),
        [[2, 2, 0, 0], [3, 2, 0, 0], [4, 3, 0, 0], [0, 0, 0, 0]]
    );
    assert_eq!(game.score, 4 + 4 + 8 + 16);
    let mut game = game_of([[1, 1, 1, 1], [2, 2, 2, 0], [3, 0, 3, 3], [0, 0, 0, 0]]);
    assert_eq!(game.move_right(), true);
    assert_eq!(
        exponents_of(&game),
        [[0, 0, 2, 2], [0, 0, 2, 3], [0, 0, 3, 4], [0, 0, 0, 0]]
    );
    assert_eq!(game.score, 4 + 4 + 8 + 16);
}

#[test]
fn merged_tile_keeps_the_identity_nearer_the_wall() {
    let mut game = game_of([[0, 3, 0, 3], [0, 0, 0, 0], [0, 0, 0, 0], [0, 0, 0, 0]]);
    let near = game.board[0][1].idx;
    game.board[0][1].new = true;
    assert_eq!(game.move_left(), true);
    let tile = game.board[0][0];
    assert_eq!(tile.idx, near);
    assert_eq!(tile.value, 4);
    assert!(tile.changed);
    assert!(!tile.new);
    let listing = game.tiles();
    assert_eq!(listing.len(), 1);
    assert_eq!(listing[&near], (0, 0, 16, false, true));
    let behind = game.board[0][1];
    assert_eq!((behind.idx, behind.value, behind.new, behind.changed), (0, 0, false, false));
    let far = game.board[0][2];
    assert_eq!((far.idx, far.value, far.new, far.changed), (0, 0, true, false));
}

#[test]
fn a_move_clears_the_marks_of_the_tiles_it_keeps() {
    let mut game = game_of([[2, 0, 0, 0], [0, 0, 0, 0], [0, 0, 0, 0], [0, 0, 0, 0]]);
    game.board[0][0].new = true;
    game.board[0][0].changed = true;
    assert_eq!(game.move_left(), false);
    assert!(!game.board[0][0].new);
    assert!(!game.board[0][0].changed);
}

#[test]
fn full_board_without_equal_neighbours_is_over() {
    let game = game_of([[1, 2, 1, 2], [2, 1, 2, 1], [1, 2, 1, 2], [2, 1, 2, 1]]);
    assert_eq!(game.is_game_over(), true);
    assert!(game.valid_moves().is_empty());
    assert_eq!(game.empty_tiles(), vec![]);
}

#[test]
fn full_board_with_equal_neighbours_is_not_over() {
    let game = game_of([[1, 2, 1, 2], [2, 1, 2, 1], [1, 2, 1, 2], [2, 1, 3, 3]]);
    assert_eq!(game.is_game_over(), false);
    assert_eq!(game.valid_moves(), vec![Actions::Left, Actions::Right]);
    let game = game_of([[1, 2, 1, 2], [2, 1, 2, 1], [1, 2, 1, 2], [2, 1, 2, 1]]);
    let mut below = game;
    below.board[2][0].value = 5;
    below.board[3][0].value = 5;
    assert_eq!(below.is_game_over(), false);
    assert_eq!(below.valid_moves(), vec![Actions::Up, Actions::Down]);
}

#[test]
fn valid_moves_come_in_enumeration_order_and_leave_the_game_alone() {
    let game = game_of([[0, 0, 0, 0], [0, 1, 0, 0], [0, 0, 0, 0], [0, 0, 0, 0]]);
    let copy = game;
    assert_eq!(
        game.valid_moves(),
        vec![Actions::Left, Actions::Right, Actions::Up, Actions::Down]
    );
    assert!(game == copy);
    let corner = game_of([[1, 0, 0, 0], [0, 0, 0, 0], [0, 0, 0, 0], [0, 0, 0, 0]]);
    assert_eq!(corner.valid_moves(), vec![Actions::Right, Actions::Down]);
}

#[test]
fn empty_cells_are_listed_row_by_row() {
    let game = test_game();
    assert_eq!(game.empty_tiles(), vec![(0, 0)]);
    let game = game_of([[1, 0, 1, 0], [1, 1, 1, 1], [0, 1, 1, 1], [1, 1, 1, 0]]);
    assert_eq!(game.empty_tiles(), vec![(0, 1), (0, 3), (2, 0), (3, 3)]);
}

#[test]
fn tiles_are_listed_with_place_face_and_marks() {
    let game = test_game();
    let listing = game.tiles();
    assert_eq!(listing.len(), 15);
    assert_eq!(listing.get(&0), None);
    assert_eq!(listing[&5], (1, 1, 32, true, false));
    assert_eq!(listing[&15], (3, 3, 32768, true, false));
}

#[test]
fn of_two_tiles_with_one_identity_the_later_is_listed() {
    let mut game = game_of([[1, 0, 0, 0], [0, 0, 0, 0], [0, 0, 2, 0], [0, 0, 0, 0]]);
    game.board[0][0].idx = 9;
    game.board[2][2].idx = 9;
    let listing = game.tiles();
    assert_eq!(listing.len(), 1);
    assert_eq!(listing[&9], (2, 2, 4, false, false));
}

#[test]
fn highest_tile_of_an_empty_board_is_absent() {
    let game = game_of([[0; 4]; 4]);
    assert_eq!(game.highest_tile(), None);
    let game = game_of([[0, 0, 0, 0], [0, 0, 1, 0], [0, 0, 0, 0], [0, 0, 0, 0]]);
    assert_eq!(game.highest_tile(), Some(2));
}

#[test]
fn power_of_two_is_exact() {
    assert_eq!(leptos_2048::game::power_of_two(0), 1);
    assert_eq!(leptos_2048::game::power_of_two(5), 32);
    assert_eq!(leptos_2048::game::power_of_two(17), 131072);
    assert_eq!(leptos_2048::game::power_of_two(31), 2147483648);
}

#[test]
fn spawn_at_places_the_rolled_tile() {
    let mut game = game_of([[0; 4]; 4]);
    game.tiles = 7;
    game.spawn_at(2, 3, 0);
    let tile = game.board[2][3];
    assert_eq!((tile.idx, tile.value, tile.new, tile.changed), (8, 2, true, false));
    game.spawn_at(0, 1, 4);
    let tile = game.board[0][1];
    assert_eq!((tile.idx, tile.value, tile.new, tile.changed), (9, 1, true, false));
    assert_eq!(game.tiles, 9);
    assert_eq!(occupied_cells(&game), 2);
}

#[test]
fn a_spawn_lands_on_an_empty_cell() {
    for seed in 0..100 {
        let mut game = game_of([[1, 2, 1, 2], [2, 0, 2, 1], [1, 2, 1, 2], [2, 1, 0, 1]]);
        let before = exponents_of(&game);
        game.add_tile(&mut rng(seed));
        let after = exponents_of(&game);
        assert_eq!(game.tiles, 3);
        let (i, j) = if after[1][1] != 0 { (1, 1) } else { (3, 2) };
        let (k, l) = if after[1][1] != 0 { (3, 2) } else { (1, 1) };
        assert!(after[i][j] == 1 || after[i][j] == 2);
        assert_eq!(after[k][l], 0);
        assert_eq!(game.board[i][j].idx, 3);
        assert!(game.board[i][j].new);
        for r in 0..4 {
            for c in 0..4 {
                if (r, c) != (i, j) {
                    assert_eq!(after[r][c], before[r][c]);
                }
            }
        }
    }
}

#[test]
fn spawns_reach_every_empty_cell_and_both_values() {
    let mut cells = std::collections::BTreeSet::new();
    let mut values = std::collections::BTreeSet::new();
    for seed in 0..400 {
        let mut game = game_of([[1, 0, 0, 2], [0, 0, 0, 0], [0, 0, 0, 0], [3, 0, 0, 0]]);
        game.add_tile(&mut rng(seed));
        let listing = game.tiles();
        let (i, j, face, _, _) = listing[&3];
        cells.insert((i, j));
        values.insert(face);
    }
    assert_eq!(cells.len(), 13);
    assert_eq!(values.into_iter().collect::<Vec<u32>>(), vec![2, 4]);
}

#[test]
fn a_spawn_on_a_full_board_is_counted_and_places_nothing() {
    let mut game = game_of([[1, 2, 1, 2], [2, 1, 2, 1], [1, 2, 1, 2], [2, 1, 2, 1]]);
    let before = game;
    game.add_tile(&mut rng(3));
    assert_eq!(game.tiles, before.tiles + 1);
    assert!(game.board == before.board);
    assert_eq!(game.score, before.score);
    assert_eq!(game.moves, before.moves);
}

#[test]
fn a_step_that_changes_the_board_spawns_one_tile() {
    for seed in 0..50 {
        let mut game = game_of([[1, 1, 0, 0], [0, 2, 0, 0], [0, 0, 0, 0], [0, 0, 0, 3]]);
        let mut moved = game;
        moved.move_left();
        assert_eq!(game.step(Actions::Left, &mut rng(seed)), true);
        assert_eq!(game.moves, 1);
        assert_eq!(game.tiles, 3);
        assert_eq!(game.score, 4);
        assert_eq!(occupied_cells(&game), occupied_cells(&moved) + 1);
        let new_tiles = game.tiles().values().filter(|shown| shown.3).count();
        assert_eq!(new_tiles, 1);
    }
}

#[test]
fn a_step_that_changes_nothing_spawns_nothing() {
    let mut game = game_of([[1, 2, 0, 0], [3, 0, 0, 0], [0, 0, 0, 0], [0, 0, 0, 0]]);
    let before = exponents_of(&game);
    assert_eq!(game.step(Actions::Left, &mut rng(4)), false);
    assert_eq!(exponents_of(&game), before);
    assert_eq!(game.moves, 0);
    assert_eq!(game.tiles, 2);
    assert_eq!(game.score, 0);
}

#[test]
fn do_move_goes_the_way_it_is_told() {
    let start = game_of([[0, 0, 0, 0], [0, 1, 0, 0], [0, 0, 0, 0], [0, 0, 0, 0]]);
    let mut game = start;
    assert!(game.do_move(Actions::Left));
    assert_eq!(exponents_of(&game)[1], [1, 0, 0, 0]);
    let mut game = start;
    assert!(game.do_move(Actions::Right));
    assert_eq!(exponents_of(&game)[1], [0, 0, 0, 1]);
    let mut game = start;
    assert!(game.do_move(Actions::Up));
    assert_eq!(exponents_of(&game)[0], [0, 1, 0, 0]);
    let mut game = start;
    assert!(game.do_move(Actions::Down));
    assert_eq!(exponents_of(&game)[3], [0, 1, 0, 0]);
}

#[test]
fn transpose_swaps_rows_and_columns() {
    let mut game = test_game();
    game.transpose();
    for i in 0..4 {
        for j in 0..4 {
            assert_eq!(game.board[i][j].value as usize, 4 * j + i);
        }
    }
}

#[test]
fn reset_starts_afresh() {
    let mut game = test_game();
    game.score = 40;
    game.moves = 9;
    let flat = game.reset(&mut rng(8));
    assert_eq!(game.score, 0);
    assert_eq!(game.moves, 0);
    assert_eq!(game.tiles, 2);
    assert_eq!(flat, game.flatten());
    assert_eq!(flat.iter().filter(|&&e| e != 0).count(), 2);
}

#[test]
fn actions_by_position() {
    assert_eq!(Actions::try_from(0), Ok(Actions::Left));
    assert_eq!(Actions::try_from(1), Ok(Actions::Right));
    assert_eq!(Actions::try_from(2), Ok(Actions::Up));
    assert_eq!(Actions::try_from(3), Ok(Actions::Down));
    assert_eq!(Actions::try_from(4), Err(()));
    assert_eq!(
        Actions::all(),
        [Actions::Left, Actions::Right, Actions::Up, Actions::Down]
    );
}

#[test]
fn a_second_move_changes_nothing_once_the_first_leaves_no_pair() {
    for action in [Actions::Left, Actions::Right, Actions::Up, Actions::Down] {
        let mut game = game_of([[1, 1, 3, 0], [0, 2, 0, 2], [4, 0, 0, 0], [0, 5, 6, 5]]);
        assert_eq!(game.do_move(action), true);
        let settled = exponents_of(&game);
        assert_eq!(game.do_move(action), false);
        assert_eq!(exponents_of(&game), settled);
    }
}

#[test]
fn random_play_obeys_the_laws() {
    for seed in 0..20 {
        let mut r = rng(seed);
        let mut game = Game::new(&mut r);
        let mut steps = 0;
        loop {
            let moves = game.valid_moves();
            assert_eq!(game.is_game_over(), moves.is_empty());
            if moves.is_empty() || steps > 5000 {
                break;
            }
            let action = moves[(steps + seed as usize) % moves.len()];
            let before = game;
            let mut moved = game;
            moved.do_move(action);
            assert!(game.step(action, &mut r));
            steps += 1;
            assert!(game.score >= before.score);
            assert_eq!(game.score, moved.score);
            assert_eq!(game.moves, before.moves + 1);
            assert_eq!(game.tiles, before.tiles + 1);
            assert_eq!(occupied_cells(&game), occupied_cells(&moved) + 1);
            assert_eq!(game.tiles().values().filter(|shown| shown.3).count(), 1);
            assert_eq!(game.tiles().len(), occupied_cells(&game));
            assert!(game.is_wf());
            let total: u32 = game.flatten().iter().filter(|&&e| e != 0).map(|&e| 1u32 << e).sum();
            assert!(total < 262144);
            assert!(2 * game.tiles <= total);
        }
        assert!(game.is_game_over());
    }
}

#[test]
fn games_in_play_are_told_from_others() {
    assert!(Game::new(&mut rng(3)).is_wf());
    assert!(test_game().is_wf());
    let mut high = test_game();
    high.board[0][0].value = 18;
    assert!(!high.is_wf());
    let mut heavy = test_game();
    heavy.board[0][0].value = 17;
    heavy.board[3][3].value = 17;
    assert!(!heavy.is_wf());
    let mut rich = test_game();
    rich.score = u32::MAX;
    assert!(!rich.is_wf());
    let mut asked = test_game();
    asked.tiles = 40000;
    assert!(!asked.is_wf());
    let mut busy = test_game();
    busy.moves = 3;
    assert!(!busy.is_wf());
    assert!(!game_of([[0; 4]; 4]).is_wf());
    let worth = game_of([[3, 0, 0, 0], [0, 0, 0, 0], [0, 0, 0, 0], [0, 0, 0, 0]]);
    let mut earned = worth;
    earned.score = 16;
    assert!(earned.is_wf());
    earned.score = 17;
    assert!(!earned.is_wf());
}
