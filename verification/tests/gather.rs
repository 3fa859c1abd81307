use mpi_util::gather::Gather;
use mpi_util::grid::MPIinfo;

/// What a gather at rank 0 hands to the coordinator: the contributions of
/// all ranks, one after the other.
fn gathered(infos: &[MPIinfo], tiles: &[Vec<i32>]) -> Vec<i32> {
    let mut recvbuf = Vec::new();
    let mut count = 0;
    for (r, (mi, tile)) in infos.iter().zip(tiles.iter()).enumerate() {
        match mi.gather(tile) {
            Gather::Root { sendbuf, count: c } => {
                assert_eq!(r, 0);
                count = c;
                recvbuf.extend(sendbuf);
            }
            Gather::Leaf { sendbuf, root } => {
                assert!(r > 0);
                assert_eq!(root, 0);
                recvbuf.extend(sendbuf);
            }
        }
    }
    assert_eq!(recvbuf.len(), count);
    recvbuf
}

fn scattered(procs: i32, l: usize, global: &[i32]) -> (Vec<MPIinfo>, Vec<Vec<i32>>) {
    let mut infos = Vec::new();
    let mut tiles = Vec::new();
    for r in 0..procs {
        let mi = MPIinfo::new(r, procs, l).unwrap();
        let mut tile = vec![-1; mi.tile_len()];
        for y in 0..l {
            for x in 0..l {
                if mi.is_inside(x, y) {
                    tile[mi.g2i(x, y)] = global[x + y * l];
                }
            }
        }
        infos.push(mi);
        tiles.push(tile);
    }
    (infos, tiles)
}

#[test]
fn gather_and_reorder_give_back_the_global_grid() {
    let l = 8;
    let global: Vec<i32> = (0..(l * l) as i32).collect();
    let (infos, tiles) = scattered(4, l, &global);
    assert_eq!((infos[0].gx(), infos[0].gy()), (2, 2));
    let mut v = gathered(&infos, &tiles);
    assert_ne!(v, global);
    infos[0].reordering(&mut v);
    assert_eq!(v, global);
}

#[test]
fn gather_and_reorder_on_other_grids() {
    for (procs, l) in [(1, 8), (2, 8), (6, 12), (9, 9), (12, 24), (16, 16), (5, 10), (4, 2)] {
        let global: Vec<i32> = (0..(l * l) as i32).map(|g| 3 * g + 1).collect();
        let (infos, tiles) = scattered(procs, l, &global);
        let mut v = gathered(&infos, &tiles);
        infos[0].reordering(&mut v);
        assert_eq!(v, global);
    }
}

#[test]
fn gathered_data_is_in_rank_order_before_reordering() {
    let l = 4;
    let global: Vec<i32> = (0..16).collect();
    let (infos, tiles) = scattered(4, l, &global);
    let v = gathered(&infos, &tiles);
    assert_eq!(v, vec![0, 1, 4, 5, 2, 3, 6, 7, 8, 9, 12, 13, 10, 11, 14, 15]);
}

#[test]
fn end_to_end_with_initialised_tiles() {
    let l = 8;
    let procs = 4;
    let mut infos = Vec::new();
    let mut tiles = Vec::new();
    for r in 0..procs {
        let mi = MPIinfo::new(r, procs, l).unwrap();
        let mut tile = vec![0; mi.tile_len()];
        mi.init(&mut tile);
        infos.push(mi);
        tiles.push(tile);
    }
    let mut v = gathered(&infos, &tiles);
    // before reordering the values count up
    assert_eq!(v, (0..64).collect::<Vec<i32>>());
    infos[0].reordering(&mut v);
    let mut want = vec![0; l * l];
    for r in 0..procs as usize {
        let (lx, ly) = (4, 4);
        let (sx, sy) = ((r % 2) * lx, (r / 2) * ly);
        let offset = lx * ly * r;
        for iy in 0..ly {
            for ix in 0..lx {
                want[(sx + ix) + (sy + iy) * l] = (ix + iy * lx + offset) as i32;
            }
        }
    }
    assert_eq!(v, want);
    assert_eq!(&v[0..8], &[0, 1, 2, 3, 16, 17, 18, 19]);
    assert_eq!(&v[32..40], &[32, 33, 34, 35, 48, 49, 50, 51]);
}

#[test]
fn init_marks_the_tile_and_leaves_the_halo() {
    let mi = MPIinfo::new(3, 4, 4).unwrap();
    let mut tile = vec![-7; 16];
    mi.init(&mut tile);
    assert_eq!(tile, vec![-7, -7, -7, -7, -7, 12, 13, -7, -7, 14, 15, -7, -7, -7, -7, -7]);
    let mi = MPIinfo::new(1, 2, 4).unwrap();
    // two columns of tiles: each tile is 2 wide and 4 high
    let mut tile = vec![0; 4 * 6];
    mi.init(&mut tile);
    assert_eq!(&tile[4..8], &[0, 8, 9, 0]);
    assert_eq!(&tile[16..20], &[0, 14, 15, 0]);
}

#[test]
fn only_rank_zero_receives() {
    let tile = vec![1; 36];
    for r in 0..4 {
        let mi = MPIinfo::new(r, 4, 8).unwrap();
        match mi.gather(&tile) {
            Gather::Root { sendbuf, count } => {
                assert_eq!(r, 0);
                assert_eq!(sendbuf.len(), 16);
                assert_eq!(count, 64);
            }
            Gather::Leaf { sendbuf, root } => {
                assert_ne!(r, 0);
                assert_eq!(sendbuf.len(), 16);
                assert_eq!(root, 0);
            }
        }
    }
}

#[test]
fn contribution_is_the_tile_without_its_halo() {
    let mi = MPIinfo::new(0, 2, 4).unwrap();
    let tile: Vec<i32> = (0..24).collect();
    match mi.gather(&tile) {
        Gather::Root { sendbuf, count } => {
            assert_eq!(sendbuf, vec![5, 6, 9, 10, 13, 14, 17, 18]);
            assert_eq!(count, 16);
        }
        Gather::Leaf { .. } => panic!("rank 0 coordinates"),
    }
}

#[test]
fn reordering_moves_values_of_any_copy_type() {
    let mi = MPIinfo::new(0, 4, 2).unwrap();
    let mut v = vec!['a', 'b', 'c', 'd'];
    mi.reordering(&mut v);
    assert_eq!(v, vec!['a', 'b', 'c', 'd']);
    let mi = MPIinfo::new(0, 2, 2).unwrap();
    let mut v = vec!['a', 'b', 'c', 'd'];
    mi.reordering(&mut v);
    assert_eq!(v, vec!['a', 'c', 'b', 'd']);
}
