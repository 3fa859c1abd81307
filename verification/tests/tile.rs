use mpi_util::grid::MPIinfo;

#[test]
fn square_in_the_middle_is_shared_by_the_tiles() {
    let l = 8;
    let procs = 4;
    let mut count = 0;
    for r in 0..procs {
        let mi = MPIinfo::new(r, procs, l).unwrap();
        let mut tile = vec![0u8; mi.tile_len()];
        mi.fill_square(&mut tile, l / 2 - 1, l / 2 + 2, 7);
        let w = mi.local_size_x() + 2;
        for y in 0..l {
            for x in 0..l {
                if mi.is_inside(x, y) {
                    let inside = (3..6).contains(&x) && (3..6).contains(&y);
                    assert_eq!(tile[mi.g2i(x, y)], if inside { 7 } else { 0 });
                    if inside {
                        count += 1;
                    }
                }
            }
        }
        // the halo is not touched
        for k in 0..tile.len() {
            if k % w == 0 || k % w == w - 1 || k / w == 0 || k / w == mi.local_size_y() + 1 {
                assert_eq!(tile[k], 0);
            }
        }
    }
    assert_eq!(count, 9);
}

#[test]
fn square_of_one_tile() {
    let mi = MPIinfo::new(0, 4, 4).unwrap();
    let mut tile = vec!['.'; 16];
    mi.fill_square(&mut tile, 1, 3, '#');
    assert_eq!(tile.iter().collect::<String>(), "..........#.....");
    let mi = MPIinfo::new(3, 4, 4).unwrap();
    let mut tile = vec!['.'; 16];
    mi.fill_square(&mut tile, 1, 3, '#');
    assert_eq!(tile.iter().collect::<String>(), ".....#..........");
}

#[test]
fn empty_square_changes_nothing() {
    let mi = MPIinfo::new(0, 1, 4).unwrap();
    let mut tile = vec![1; 36];
    mi.fill_square(&mut tile, 3, 3, 9);
    mi.fill_square(&mut tile, 3, 1, 9);
    mi.fill_square(&mut tile, 4, 100, 9);
    assert_eq!(tile, vec![1; 36]);
    mi.fill_square(&mut tile, 0, usize::MAX, 9);
    assert_eq!(tile.iter().filter(|&&v| v == 9).count(), 16);
}
