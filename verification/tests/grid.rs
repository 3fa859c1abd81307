use mpi_util::error::ConfigError;
use mpi_util::grid::MPIinfo;

#[test]
fn four_processes_on_a_grid_of_eight() {
    for r in 0..4 {
        let mi = MPIinfo::new(r, 4, 8).unwrap();
        assert_eq!(mi.rank(), r);
        assert_eq!(mi.procs(), 4);
        assert_eq!((mi.gx(), mi.gy()), (2, 2));
        assert_eq!((mi.local_size_x(), mi.local_size_y()), (4, 4));
        assert_eq!((mi.local_grid_x(), mi.local_grid_y()), (r % 2, r / 2));
        assert_eq!(mi.global_size(), 8);
        assert_eq!(mi.tile_len(), 36);
    }
}

#[test]
fn uneven_process_grid() {
    let mi = MPIinfo::new(4, 6, 12).unwrap();
    assert_eq!((mi.gx(), mi.gy()), (3, 2));
    assert_eq!((mi.local_size_x(), mi.local_size_y()), (4, 6));
    assert_eq!((mi.local_grid_x(), mi.local_grid_y()), (1, 1));
    assert_eq!(mi.tile_origin(4), (4, 6));
    assert_eq!(mi.tile_origin(2), (8, 0));
    assert_eq!(mi.tile_len(), 6 * 8);
}

#[test]
fn rank_and_coordinate_determine_each_other() {
    for procs in [1, 2, 4, 6, 9, 12, 16] {
        let mi = MPIinfo::new(0, procs, 144).unwrap();
        for r in 0..procs {
            let (cx, cy) = mi.grid_coord(r);
            assert_eq!(cx + cy * mi.gx(), r);
            assert!(0 <= cx && cx < mi.gx());
            assert!(0 <= cy && cy < mi.gy());
        }
    }
}

#[test]
fn grid_that_does_not_divide_is_refused() {
    assert!(matches!(MPIinfo::new(0, 9, 8), Err(ConfigError::NotDivisible)));
    assert!(matches!(MPIinfo::new(0, 3, 8), Err(ConfigError::NotDivisible)));
    assert!(matches!(MPIinfo::new(0, 6, 8), Err(ConfigError::NotDivisible)));
    assert!(matches!(MPIinfo::new(1, 2, 7), Err(ConfigError::NotDivisible)));
    assert!(MPIinfo::new(0, 2, 8).is_ok());
    assert!(MPIinfo::new(0, 9, 9).is_ok());
}

#[test]
fn process_count_and_rank_are_checked() {
    assert!(matches!(MPIinfo::new(0, 0, 8), Err(ConfigError::BadProcessCount)));
    assert!(matches!(MPIinfo::new(0, -1, 8), Err(ConfigError::BadProcessCount)));
    assert!(matches!(MPIinfo::new(4, 4, 8), Err(ConfigError::BadProcessCount)));
    assert!(matches!(MPIinfo::new(-1, 4, 8), Err(ConfigError::BadProcessCount)));
    // the rank is looked at before the grid
    assert!(matches!(MPIinfo::new(9, 9, 8), Err(ConfigError::BadProcessCount)));
}

#[test]
fn empty_grid_is_a_grid() {
    let mi = MPIinfo::new(0, 4, 0).unwrap();
    assert_eq!((mi.local_size_x(), mi.local_size_y()), (0, 0));
    assert_eq!(mi.tile_len(), 4);
    assert!(!mi.is_inside(0, 0));
}

#[test]
fn neighbours_wrap_around() {
    // 3 columns, 2 rows:  0 1 2 / 3 4 5
    let mi = MPIinfo::new(0, 6, 12).unwrap();
    assert_eq!(mi.get_rank(-1, 0), 2);
    assert_eq!(mi.get_rank(1, 0), 1);
    assert_eq!(mi.get_rank(0, -1), 3);
    assert_eq!(mi.get_rank(0, 1), 3);
    assert_eq!(mi.get_rank(-1, -1), 5);
    assert_eq!(mi.get_rank(0, 0), 0);
    assert_eq!(mi.get_rank(3, 2), 0);
    assert_eq!(mi.get_rank(-7, 0), 2);
    assert_eq!(mi.get_rank(i32::MAX, i32::MIN), 1);
    let mi = MPIinfo::new(5, 6, 12).unwrap();
    assert_eq!(mi.get_rank(1, 0), 3);
    assert_eq!(mi.get_rank(-1, 0), 4);
    assert_eq!(mi.get_rank(0, 1), 2);
    assert_eq!(mi.get_rank(1, 1), 0);
}

#[test]
fn single_process_is_its_own_neighbour() {
    let mi = MPIinfo::new(0, 1, 8).unwrap();
    for dx in -3..=3 {
        for dy in -3..=3 {
            assert_eq!(mi.get_rank(dx, dy), 0);
        }
    }
}

#[test]
fn going_there_and_back_again() {
    for procs in [1, 2, 4, 6, 12] {
        for r in 0..procs {
            let mi = MPIinfo::new(r, procs, 24).unwrap();
            for dx in -4..=4 {
                for dy in -4..=4 {
                    let n = MPIinfo::new(mi.get_rank(dx, dy), procs, 24).unwrap();
                    assert_eq!(n.get_rank(-dx, -dy), r);
                }
            }
        }
    }
}

#[test]
fn tile_holds_its_cells_and_no_others() {
    let mi = MPIinfo::new(3, 4, 8).unwrap();
    assert_eq!(mi.tile_origin(3), (4, 4));
    for y in 0..10 {
        for x in 0..10 {
            let inside = (4..8).contains(&x) && (4..8).contains(&y);
            assert_eq!(mi.is_inside(x, y), inside);
        }
    }
    assert!(!mi.is_inside(usize::MAX, usize::MAX));
}

#[test]
fn global_cell_to_local_index() {
    let mi = MPIinfo::new(3, 4, 8).unwrap();
    assert_eq!(mi.g2i(4, 4), 1 + 6);
    assert_eq!(mi.g2i(7, 4), 4 + 6);
    assert_eq!(mi.g2i(4, 7), 1 + 4 * 6);
    assert_eq!(mi.g2i(7, 7), 4 + 4 * 6);
    assert_eq!(mi.g2i(5, 6), 2 + 3 * 6);
    let mi = MPIinfo::new(1, 2, 8).unwrap();
    // two columns of tiles, one row: rank 1 owns columns 4..8
    assert_eq!(mi.g2i(4, 0), 1 + 6);
    assert_eq!(mi.g2i(7, 7), 4 + 8 * 6);
}

#[test]
fn every_cell_has_one_owner() {
    for procs in [1, 2, 4, 6, 12] {
        let tiles: Vec<MPIinfo> = (0..procs).map(|r| MPIinfo::new(r, procs, 12).unwrap()).collect();
        for y in 0..12 {
            for x in 0..12 {
                let owners = tiles.iter().filter(|t| t.is_inside(x, y)).count();
                assert_eq!(owners, 1);
            }
        }
    }
}

#[test]
fn process_grid_chosen_by_the_caller() {
    let mi = MPIinfo::with_dims(4, 6, 2, 3, 12).unwrap();
    assert_eq!((mi.gx(), mi.gy()), (2, 3));
    assert_eq!((mi.local_size_x(), mi.local_size_y()), (6, 4));
    assert_eq!((mi.local_grid_x(), mi.local_grid_y()), (0, 2));
    assert_eq!(mi.tile_origin(4), (0, 8));
    assert_eq!(mi.get_rank(1, 0), 5);
    assert_eq!(mi.get_rank(0, 1), 0);
    let mi = MPIinfo::with_dims(2, 4, 1, 4, 8).unwrap();
    assert_eq!((mi.local_size_x(), mi.local_size_y()), (8, 2));
    assert_eq!(mi.get_rank(1, 0), 2);
    assert_eq!(mi.get_rank(0, -1), 1);
    // the balanced grid is what `new` chooses
    let a = MPIinfo::new(3, 6, 12).unwrap();
    let b = MPIinfo::with_dims(3, 6, 3, 2, 12).unwrap();
    assert_eq!((a.gx(), a.gy(), a.local_size_x(), a.local_size_y()), (b.gx(), b.gy(), b.local_size_x(), b.local_size_y()));
}

#[test]
fn process_grid_has_to_hold_the_processes() {
    assert!(matches!(MPIinfo::with_dims(0, 6, 2, 2, 12), Err(ConfigError::ShapeMismatch)));
    assert!(matches!(MPIinfo::with_dims(0, 6, 6, 0, 12), Err(ConfigError::ShapeMismatch)));
    assert!(matches!(MPIinfo::with_dims(0, 6, -2, -3, 12), Err(ConfigError::ShapeMismatch)));
    assert!(matches!(MPIinfo::with_dims(0, 6, 0, 6, 12), Err(ConfigError::ShapeMismatch)));
    assert!(matches!(MPIinfo::with_dims(0, 4, 65536, 65536, 12), Err(ConfigError::ShapeMismatch)));
    assert!(matches!(MPIinfo::with_dims(0, 1, i32::MAX, i32::MAX, 12), Err(ConfigError::ShapeMismatch)));
    assert!(matches!(MPIinfo::with_dims(0, 0, 0, 0, 12), Err(ConfigError::BadProcessCount)));
    assert!(matches!(MPIinfo::with_dims(6, 6, 2, 2, 12), Err(ConfigError::BadProcessCount)));
    assert!(matches!(MPIinfo::with_dims(0, 6, 1, 6, 8), Err(ConfigError::NotDivisible)));
    assert!(matches!(MPIinfo::with_dims(0, 6, 6, 1, 8), Err(ConfigError::NotDivisible)));
    assert!(MPIinfo::with_dims(0, 6, 1, 6, 12).is_ok());
}

#[test]
fn grid_too_large_to_count_is_refused() {
    assert!(matches!(MPIinfo::new(0, 1, usize::MAX), Err(ConfigError::TooLarge)));
    assert!(matches!(MPIinfo::new(0, 1, usize::MAX - 2), Err(ConfigError::TooLarge)));
    assert!(matches!(MPIinfo::new(0, 1, usize::MAX / 2), Err(ConfigError::TooLarge)));
    assert!(matches!(MPIinfo::with_dims(0, 1, 1, 1, usize::MAX), Err(ConfigError::TooLarge)));
    // the other checks come first
    assert!(matches!(MPIinfo::new(0, 0, usize::MAX), Err(ConfigError::BadProcessCount)));
    assert!(matches!(MPIinfo::new(0, 4, usize::MAX), Err(ConfigError::NotDivisible)));
    // the largest side whose square, with the halo, can be counted
    let mut side: usize = 1;
    while (side + 3).checked_mul(side + 3).is_some() {
        side = side * 2 + 2;
    }
    while (side + 2).checked_mul(side + 2).is_none() {
        side -= 1;
    }
    assert!(MPIinfo::new(0, 1, side).is_ok());
    assert!(matches!(MPIinfo::new(0, 1, side + 1), Err(ConfigError::TooLarge)));
}
