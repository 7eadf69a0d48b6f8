use rs_2048::grid::{grid_coord_iterator, Grid, GridError, MoveDirection};

fn board<const N: usize>(tiles: [[u32; N]; N]) -> Grid<N> {
    Grid { tiles, score: 0 }
}

#[test]
fn default() {
    assert_eq!(Grid::<3>::default(), Grid { tiles: [[0; 3]; 3], score: 0 });
    assert_eq!(Grid::<4>::default(), Grid { tiles: [[0; 4]; 4], score: 0 });
    assert_eq!(Grid::<5>::default(), Grid { tiles: [[0; 5]; 5], score: 0 });
    assert_eq!(Grid::<6>::default(), Grid { tiles: [[0; 6]; 6], score: 0 });
    assert_eq!(Grid::<7>::default(), Grid { tiles: [[0; 7]; 7], score: 0 });
    assert_eq!(Grid::<8>::default(), Grid { tiles: [[0; 8]; 8], score: 0 });
    assert_eq!(Grid::<9>::default(), Grid { tiles: [[0; 9]; 9], score: 0 });
    assert_eq!(Grid::<10>::default(), Grid { tiles: [[0; 10]; 10], score: 0 });
}

#[test]
fn random_spawn_tile() -> Result<(), GridError> {
    let mut grid = Grid::<4>::default();
    grid.random_spawn_tile()?;

    assert_eq!(grid.tiles.iter().flatten().filter(|tile| **tile != 0).count(), 1);

    let tile_value = *grid.tiles.iter().flatten().filter(|tile| **tile != 0).next().expect("exist");
    assert!(tile_value == 2 || tile_value == 4);

    let mut grid = Grid { tiles: [[2; 4]; 4], ..Default::default() };

    if let Ok(()) = grid.random_spawn_tile() {
        panic!("should fail");
    }

    Ok(())
}

#[test]
fn rotate() {
    let mut grids = vec![Grid { tiles: [[1, 2, 3], [4, 5, 6], [7, 8, 9]], ..Default::default() }; 4];

    for (n_rotation, grid) in grids.iter_mut().enumerate() {
        grid.rotate_90_deg(n_rotation.try_into().expect("value fit"));
    }

    assert_eq!(grids[0], Grid { tiles: [[1, 2, 3], [4, 5, 6], [7, 8, 9]], ..Default::default() });
    assert_eq!(grids[1], Grid { tiles: [[3, 6, 9], [2, 5, 8], [1, 4, 7]], ..Default::default() });
    assert_eq!(grids[2], Grid { tiles: [[9, 8, 7], [6, 5, 4], [3, 2, 1]], ..Default::default() });
    assert_eq!(grids[3], Grid { tiles: [[7, 4, 1], [8, 5, 2], [9, 6, 3]], ..Default::default() });
}

const GRID_BEFORE_MOVE: Grid<4> = Grid {
    tiles: [[2, 0, 0, 0], [0, 2, 2, 0], [2, 4, 8, 16], [16, 8, 4, 2]],
    score: 0,
};

const GRID_AFTER_MOVE_RIGHT: Grid<4> = Grid {
    tiles: [[0, 0, 0, 2], [0, 0, 0, 4], [2, 4, 8, 16], [16, 8, 4, 2]],
    score: 4,
};

#[test]
fn move_tiles_up() {
    let mut grid = GRID_BEFORE_MOVE.clone();
    grid.rotate_90_deg(1);
    grid.move_tiles(MoveDirection::Up);

    let mut result = GRID_AFTER_MOVE_RIGHT.clone();
    result.rotate_90_deg(1);

    assert_eq!(grid, result);
}

#[test]
fn move_tiles_down() {
    let mut grid = GRID_BEFORE_MOVE.clone();
    grid.rotate_90_deg(-1);
    grid.move_tiles(MoveDirection::Down);

    let mut result = GRID_AFTER_MOVE_RIGHT.clone();
    result.rotate_90_deg(-1);

    assert_eq!(grid, result);
}

#[test]
fn move_tiles_right() {
    let mut grid = GRID_BEFORE_MOVE.clone();
    grid.move_tiles(MoveDirection::Right);

    assert_eq!(grid, GRID_AFTER_MOVE_RIGHT);
}

#[test]
fn move_tiles_left() {
    let mut grid = GRID_BEFORE_MOVE.clone();
    grid.rotate_90_deg(2);
    grid.move_tiles(MoveDirection::Left);

    let mut result = GRID_AFTER_MOVE_RIGHT.clone();
    result.rotate_90_deg(2);

    assert_eq!(grid, result);
}

#[test]
fn can_move_down() {
    assert!(!Grid { tiles: [[0, 0], [0, 0]], ..Default::default() }.can_move(MoveDirection::Down));
    assert!(Grid { tiles: [[1, 0], [0, 0]], ..Default::default() }.can_move(MoveDirection::Down));
    assert!(Grid { tiles: [[0, 0, 0], [0, 0, 2], [0, 0, 2]], ..Default::default() }
        .can_move(MoveDirection::Down));
    assert!(!Grid { tiles: [[0, 2, 0], [0, 4, 0], [0, 8, 0]], ..Default::default() }
        .can_move(MoveDirection::Down));
}

#[test]
fn three_equal_tiles_merge_once() {
    let mut grid = board([[2, 2, 2, 0], [0, 0, 0, 0], [0, 0, 0, 0], [0, 0, 0, 0]]);
    assert!(grid.move_tiles(MoveDirection::Right));
    assert_eq!(grid.tiles[0], [0, 0, 2, 4]);
    assert_eq!(grid.score, 4);
}

#[test]
fn merged_tile_does_not_merge_again() {
    let mut grid = board([[4, 2, 2, 0], [2, 2, 2, 2], [0, 0, 0, 0], [0, 0, 0, 0]]);
    grid.move_tiles(MoveDirection::Right);
    assert_eq!(grid.tiles[0], [0, 0, 4, 4]);
    assert_eq!(grid.tiles[1], [0, 0, 4, 4]);
    assert_eq!(grid.score, 12);
}

#[test]
fn merges_pair_nearest_the_edge_first() {
    let mut grid = board([[2, 2, 2, 0], [0, 0, 0, 0], [0, 0, 0, 0], [0, 0, 0, 0]]);
    grid.move_tiles(MoveDirection::Left);
    assert_eq!(grid.tiles[0], [4, 2, 0, 0]);
    assert_eq!(grid.score, 4);
}

#[test]
fn score_counts_each_merged_tile() {
    let mut right = board([[2, 0, 0, 2], [0, 0, 0, 0], [0, 0, 0, 0], [0, 0, 0, 0]]);
    right.score = 10;
    right.move_tiles(MoveDirection::Right);
    assert_eq!(right.tiles[0], [0, 0, 0, 4]);
    assert_eq!(right.score, 14);

    let mut left = board([[2, 0, 0, 2], [0, 0, 0, 0], [0, 0, 0, 0], [0, 0, 0, 0]]);
    left.move_tiles(MoveDirection::Left);
    assert_eq!(left.tiles[0], [4, 0, 0, 0]);
    assert_eq!(left.score, 4);
}

#[test]
fn moves_up_and_down_along_columns() {
    let mut up = board([[2, 0, 4], [0, 8, 4], [2, 8, 0]]);
    assert!(up.move_tiles(MoveDirection::Up));
    assert_eq!(up.tiles, [[4, 16, 8], [0, 0, 0], [0, 0, 0]]);
    assert_eq!(up.score, 28);

    let mut down = board([[2, 0, 4], [0, 8, 4], [2, 8, 0]]);
    assert!(down.move_tiles(MoveDirection::Down));
    assert_eq!(down.tiles, [[0, 0, 0], [0, 0, 0], [4, 16, 8]]);
    assert_eq!(down.score, 28);
}

fn agrees_with_rotated_right_move<const N: usize>(start: Grid<N>) {
    let cases = [(MoveDirection::Right, 0), (MoveDirection::Down, 1), (MoveDirection::Left, 2), (MoveDirection::Up, 3)];
    for (direction, turns) in cases {
        let mut direct = start.clone();
        direct.move_tiles(direction);

        let mut turned = start.clone();
        turned.rotate_90_deg(turns);
        turned.move_tiles(MoveDirection::Right);
        turned.rotate_90_deg(-turns);

        assert_eq!(direct, turned);
    }
}

#[test]
fn every_direction_agrees_with_rotated_right_move() {
    agrees_with_rotated_right_move(board([[2, 2], [0, 2]]));
    agrees_with_rotated_right_move(board([[2, 2, 2], [4, 0, 4], [0, 8, 8]]));
    agrees_with_rotated_right_move(board([[2, 0, 0, 2], [4, 4, 8, 8], [2, 2, 2, 0], [16, 0, 16, 4]]));
    agrees_with_rotated_right_move(board([[2, 2, 0, 4, 4], [0, 8, 8, 8, 0], [2, 0, 2, 0, 2], [16, 0, 0, 0, 16], [4, 4, 4, 4, 2]]));
}

#[test]
fn left_move_on_a_four_by_four_board() {
    let mut grid = board([[2, 0, 0, 2], [4, 4, 8, 8], [2, 2, 2, 0], [16, 0, 16, 4]]);
    assert!(grid.move_tiles(MoveDirection::Left));
    assert_eq!(grid.tiles, [[4, 0, 0, 0], [8, 16, 0, 0], [4, 2, 0, 0], [32, 4, 0, 0]]);
    assert_eq!(grid.score, 4 + 8 + 16 + 4 + 32);
}

#[test]
fn stuck_board_is_unchanged_and_over() {
    let start = board([[2, 4], [4, 2]]);
    for direction in MoveDirection::iterator() {
        let mut grid = start.clone();
        assert!(!grid.can_move(direction));
        assert!(!grid.move_tiles(direction));
        assert_eq!(grid, start);
    }
    assert!(start.game_over());
}

#[test]
fn board_with_a_gap_is_not_over() {
    let grid = board([[2, 4, 8], [4, 8, 2], [8, 2, 0]]);
    assert!(!grid.game_over());
    assert!(grid.can_move(MoveDirection::Right));
    assert!(grid.can_move(MoveDirection::Down));
    assert!(!grid.can_move(MoveDirection::Left));
    assert!(!grid.can_move(MoveDirection::Up));
}

#[test]
fn locked_board_is_over() {
    let grid = board([[2, 4, 2], [4, 2, 4], [2, 4, 2]]);
    assert!(grid.is_full());
    assert!(grid.game_over());
}

#[test]
fn empty_board_has_no_move() {
    assert!(Grid::<4>::default().game_over());
    assert!(!Grid::<4>::default().is_full());
}

#[test]
fn full_board_with_merge_is_not_over() {
    let grid = board([[2, 2], [4, 8]]);
    assert!(grid.is_full());
    assert!(!grid.game_over());
    assert!(grid.can_move(MoveDirection::Left));
    assert!(grid.can_move(MoveDirection::Right));
}

#[test]
fn rotation_round_trip() {
    let start = board([[1, 2, 3, 4], [5, 6, 7, 8], [9, 10, 11, 12], [13, 14, 15, 16]]);
    let mut grid = start.clone();
    grid.rotate_90_deg(1);
    assert_ne!(grid, start);
    grid.rotate_90_deg(-1);
    assert_eq!(grid, start);
    grid.rotate_90_deg(4);
    assert_eq!(grid, start);
    grid.rotate_90_deg(-7);
    let mut once = start.clone();
    once.rotate_90_deg(1);
    assert_eq!(grid, once);
}

#[test]
fn spawn_adds_one_tile() {
    let mut grid = board([[2, 0, 4], [0, 8, 0], [16, 0, 32]]);
    grid.score = 7;
    let before = grid.clone();
    grid.random_spawn_tile().expect("a cell is empty");
    let mut added = 0;
    for i in 0..3 {
        for j in 0..3 {
            if before.tiles[i][j] != 0 {
                assert_eq!(grid.tiles[i][j], before.tiles[i][j]);
            } else if grid.tiles[i][j] != 0 {
                assert!(grid.tiles[i][j] == 2 || grid.tiles[i][j] == 4);
                added += 1;
            }
        }
    }
    assert_eq!(added, 1);
    assert_eq!(grid.score, 7);
}

#[test]
fn spawn_into_full_board_fails() {
    let mut grid = board([[2, 4], [8, 16]]);
    let before = grid.clone();
    assert_eq!(grid.random_spawn_tile(), Err(GridError::GridFull));
    assert_eq!(grid, before);
}

#[test]
fn place_tile_sets_the_cell() {
    let mut grid = Grid::<3>::default();
    grid.place_tile(1, 2, true);
    grid.place_tile(0, 0, false);
    assert_eq!(grid.tiles, [[4, 0, 0], [0, 0, 2], [0, 0, 0]]);
}

#[test]
fn empty_cells_lists_each_gap() {
    let grid = board([[2, 0], [0, 4]]);
    assert_eq!(grid.empty_cells(), vec![(0, 1), (1, 0)]);
    assert!(board([[2, 2], [2, 2]]).empty_cells().is_empty());
}

#[test]
fn accessors_and_coordinates() {
    let mut grid = board([[2, 2], [0, 0]]);
    grid.move_tiles(MoveDirection::Left);
    assert_eq!(*grid.tiles(), [[4, 0], [0, 0]]);
    assert_eq!(*grid.score(), 4);
    assert_eq!(grid_coord_iterator::<2>(), vec![(0, 0), (0, 1), (1, 0), (1, 1)]);
    assert_eq!(
        MoveDirection::iterator(),
        [MoveDirection::Up, MoveDirection::Down, MoveDirection::Left, MoveDirection::Right]
    );
}

#[test]
fn move_fits_guards_the_score() {
    assert!(board([[2, 2], [4, 4]]).move_fits());
    let mut near_limit = board([[2, 2], [0, 0]]);
    near_limit.score = u32::MAX - 5;
    assert!(!near_limit.move_fits());
}

#[test]
fn unchanged_move_reports_no_change() {
    let mut grid = board([[0, 0, 2], [0, 0, 4], [0, 0, 8]]);
    assert!(!grid.move_tiles(MoveDirection::Right));
    assert!(grid.move_tiles(MoveDirection::Left));
    assert_eq!(grid.tiles, [[2, 0, 0], [4, 0, 0], [8, 0, 0]]);
}
