use mpi_util::error::{CommunicationError, ConfigError};
use mpi_util::grid::MPIinfo;
use mpi_util::halo::{Halo, Pending, Phase, Plan};

/// The tiles of all ranks, every cell of a tile holding its place in the
/// global grid and every halo cell -1.
fn world(procs: i32, l: usize) -> (Vec<MPIinfo>, Vec<Vec<i32>>) {
    let gx = MPIinfo::new(0, procs, l).unwrap().gx();
    world_with(gx, procs / gx, l)
}

/// The same on a process grid of `gx` columns and `gy` rows.
fn world_with(gx: i32, gy: i32, l: usize) -> (Vec<MPIinfo>, Vec<Vec<i32>>) {
    let procs = gx * gy;
    let mut infos = Vec::new();
    let mut tiles = Vec::new();
    for r in 0..procs {
        let mi = MPIinfo::with_dims(r, procs, gx, gy, l).unwrap();
        let mut tile = vec![-1; mi.tile_len()];
        for y in 0..l {
            for x in 0..l {
                if mi.is_inside(x, y) {
                    tile[mi.g2i(x, y)] = (x + y * l) as i32;
                }
            }
        }
        infos.push(mi);
        tiles.push(tile);
    }
    (infos, tiles)
}

/// Makes the transfers that are pending on all ranks, as a message passing
/// runtime would: each rank gets what its source sends to it.
fn exchange(infos: &[MPIinfo], tiles: &mut [Vec<i32>], state: Vec<Halo<i32>>) -> Vec<Halo<i32>> {
    let pending: Vec<&Pending<i32>> = state
        .iter()
        .map(|h| match h {
            Halo::Exchange(p) => p,
            Halo::Done => panic!("a rank has finished before the others"),
        })
        .collect();
    let mut next = Vec::new();
    for (r, mi) in infos.iter().enumerate() {
        let p = pending[r];
        let from = pending[p.source as usize];
        assert_eq!(from.dest, r as i32);
        assert_eq!(from.phase, p.phase);
        next.push(mi.receive(&mut tiles[r], p.plan, p.phase, &from.sendbuf).unwrap());
    }
    next
}

fn refresh(infos: &[MPIinfo], tiles: &mut [Vec<i32>], plan: Plan) -> usize {
    let mut state: Vec<Halo<i32>> = infos
        .iter()
        .zip(tiles.iter())
        .map(|(mi, t)| match plan {
            Plan::X => mi.sendrecv_x(t),
            Plan::Y => mi.sendrecv_y(t),
            Plan::Both => mi.sendrecv(t),
        })
        .collect();
    let mut rounds = 0;
    while state.iter().any(|h| *h != Halo::Done) {
        state = exchange(infos, tiles, state);
        rounds += 1;
    }
    rounds
}

fn wrapped(a: usize, d: usize, l: usize) -> usize {
    (a + l + d - 1) % l
}

fn check_halo(procs: i32, l: usize) {
    check_halo_of(world(procs, l), l);
}

fn check_halo_of(world: (Vec<MPIinfo>, Vec<Vec<i32>>), l: usize) {
    let (infos, mut tiles) = world;
    assert_eq!(refresh(&infos, &mut tiles, Plan::X), 2);
    assert_eq!(refresh(&infos, &mut tiles, Plan::Y), 2);
    for (r, mi) in infos.iter().enumerate() {
        let (ox, oy) = mi.tile_origin(r as i32);
        let w = mi.local_size_x() + 2;
        for hy in 0..mi.local_size_y() + 2 {
            for hx in 0..w {
                let x = wrapped(ox, hx, l);
                let y = wrapped(oy, hy, l);
                assert_eq!(tiles[r][hx + hy * w], (x + y * l) as i32);
            }
        }
    }
}

#[test]
fn halo_holds_the_neighbouring_cells_one_process() {
    check_halo(1, 8);
}

#[test]
fn halo_holds_the_neighbouring_cells_four_processes() {
    check_halo(4, 8);
}

#[test]
fn nine_processes_cannot_share_a_grid_of_eight() {
    assert!(matches!(MPIinfo::new(0, 9, 8), Err(ConfigError::NotDivisible)));
}

#[test]
fn halo_holds_the_neighbouring_cells_nine_processes() {
    check_halo(9, 9);
    check_halo(9, 18);
}

#[test]
fn halo_holds_the_neighbouring_cells_uneven_grids() {
    check_halo(2, 8);
    check_halo(6, 12);
    check_halo(12, 12);
    check_halo(16, 16);
    check_halo(3, 3);
}

#[test]
fn whole_refresh_is_x_then_y() {
    let (infos, mut a) = world(6, 12);
    let mut b = a.clone();
    assert_eq!(refresh(&infos, &mut a, Plan::Both), 4);
    refresh(&infos, &mut b, Plan::X);
    refresh(&infos, &mut b, Plan::Y);
    assert_eq!(a, b);
}

#[test]
fn y_before_x_leaves_the_corners_stale() {
    let (infos, mut tiles) = world(4, 8);
    refresh(&infos, &mut tiles, Plan::Y);
    refresh(&infos, &mut tiles, Plan::X);
    let w = infos[0].local_size_x() + 2;
    let h = infos[0].local_size_y() + 2;
    for tile in &tiles {
        assert_eq!(tile[0], -1);
        assert_eq!(tile[w - 1], -1);
        assert_eq!(tile[(h - 1) * w], -1);
        assert_eq!(tile[h * w - 1], -1);
        // the edges are filled
        assert!(tile[1] >= 0 && tile[w] >= 0);
    }
}

#[test]
fn x_pass_fills_columns_only() {
    let (infos, mut tiles) = world(4, 8);
    refresh(&infos, &mut tiles, Plan::X);
    // rank 0 owns columns 0..4 and rows 0..4; its left neighbour is rank 1
    let t = &tiles[0];
    assert_eq!(t[0], -1);
    assert_eq!(t[1], -1);
    assert_eq!(t[6], 7);
    assert_eq!(t[6 + 5], 4);
    assert_eq!(t[4 * 6], 7 + 3 * 8);
    assert_eq!(t[4 * 6 + 5], 4 + 3 * 8);
    assert_eq!(t[5 * 6], -1);
}

#[test]
fn transfers_name_their_peers_and_buffers() {
    // 3 columns, 2 rows; rank 4 sits in the middle of the lower row
    let mi = MPIinfo::new(4, 6, 12).unwrap();
    let w = mi.local_size_x() + 2;
    let tile: Vec<i32> = (0..mi.tile_len() as i32).collect();
    let lx = mi.local_size_x();
    let ly = mi.local_size_y();
    assert_eq!((lx, ly), (4, 6));
    let column = |ix: usize| (1..=ly).map(|iy| (ix + iy * w) as i32).collect::<Vec<i32>>();
    let row = |iy: usize| (0..w).map(|ix| (ix + iy * w) as i32).collect::<Vec<i32>>();
    assert_eq!(
        mi.sendrecv_x(&tile),
        Halo::Exchange(Pending { plan: Plan::X, phase: Phase::Right, sendbuf: column(lx), dest: 5, source: 3 })
    );
    assert_eq!(
        mi.sendrecv(&tile),
        Halo::Exchange(Pending { plan: Plan::Both, phase: Phase::Right, sendbuf: column(lx), dest: 5, source: 3 })
    );
    assert_eq!(
        mi.sendrecv_y(&tile),
        Halo::Exchange(Pending { plan: Plan::Y, phase: Phase::Up, sendbuf: row(1), dest: 1, source: 1 })
    );
    let mut t = tile.clone();
    let zeros = vec![0; ly];
    assert_eq!(
        mi.receive(&mut t, Plan::X, Phase::Right, &zeros),
        Ok(Halo::Exchange(Pending { plan: Plan::X, phase: Phase::Left, sendbuf: column(1), dest: 3, source: 5 }))
    );
    for iy in 0..ly + 2 {
        for ix in 0..w {
            let k = ix + iy * w;
            let want = if ix == 0 && (1..=ly).contains(&iy) { 0 } else { k as i32 };
            assert_eq!(t[k], want);
        }
    }
    assert_eq!(mi.receive(&mut t, Plan::X, Phase::Left, &zeros), Ok(Halo::Done));
    let nines = vec![9; w];
    let mut t = tile.clone();
    let next = mi.receive(&mut t, Plan::Both, Phase::Up, &nines).unwrap();
    let mut last_row = row(ly);
    assert_eq!(
        next,
        Halo::Exchange(Pending { plan: Plan::Both, phase: Phase::Down, sendbuf: last_row.clone(), dest: 1, source: 1 })
    );
    last_row.clear();
    for k in 0..t.len() {
        let want = if k / w == ly + 1 { 9 } else { k as i32 };
        assert_eq!(t[k], want);
    }
    assert_eq!(mi.receive(&mut t, Plan::Both, Phase::Down, &nines), Ok(Halo::Done));
    for k in 0..w {
        assert_eq!(t[k], 9);
    }
}

#[test]
fn y_pass_sends_the_halo_columns_too() {
    let mi = MPIinfo::new(0, 1, 2).unwrap();
    let mut tile: Vec<i32> = (0..16).collect();
    let from_left = vec![70, 80];
    match mi.receive(&mut tile, Plan::Both, Phase::Right, &from_left).unwrap() {
        Halo::Exchange(p) => assert_eq!(p.sendbuf, vec![5, 9]),
        Halo::Done => panic!("the refresh is not over"),
    }
    let from_right = vec![71, 81];
    match mi.receive(&mut tile, Plan::Both, Phase::Left, &from_right).unwrap() {
        Halo::Exchange(p) => {
            assert_eq!(p.phase, Phase::Up);
            assert_eq!(p.sendbuf, vec![70, 5, 6, 71]);
        }
        Halo::Done => panic!("the refresh is not over"),
    }
}

#[test]
fn wrong_buffer_or_transfer_changes_nothing() {
    let mi = MPIinfo::new(0, 4, 8).unwrap();
    let tile: Vec<i32> = (0..36).collect();
    let mut t = tile.clone();
    assert_eq!(mi.receive(&mut t, Plan::X, Phase::Right, &vec![0; 3]), Err(CommunicationError::Desynchronized));
    assert_eq!(mi.receive(&mut t, Plan::X, Phase::Right, &vec![0; 6]), Err(CommunicationError::Desynchronized));
    assert_eq!(mi.receive(&mut t, Plan::Y, Phase::Up, &vec![0; 4]), Err(CommunicationError::Desynchronized));
    assert_eq!(mi.receive(&mut t, Plan::X, Phase::Up, &vec![0; 6]), Err(CommunicationError::Desynchronized));
    assert_eq!(mi.receive(&mut t, Plan::X, Phase::Down, &vec![0; 6]), Err(CommunicationError::Desynchronized));
    assert_eq!(mi.receive(&mut t, Plan::Y, Phase::Right, &vec![0; 4]), Err(CommunicationError::Desynchronized));
    assert_eq!(mi.receive(&mut t, Plan::Y, Phase::Left, &vec![0; 4]), Err(CommunicationError::Desynchronized));
    assert_eq!(t, tile);
}

#[test]
fn refresh_works_on_any_copy_type() {
    let mi = MPIinfo::new(0, 1, 2).unwrap();
    let mut tile: Vec<(u8, bool)> = (0..16).map(|k| (k as u8, k % 2 == 0)).collect();
    let mut state = mi.sendrecv(&tile);
    let mut rounds = 0;
    while let Halo::Exchange(p) = state {
        assert_eq!((p.dest, p.source), (0, 0));
        state = mi.receive(&mut tile, p.plan, p.phase, &p.sendbuf).unwrap();
        rounds += 1;
    }
    assert_eq!(rounds, 4);
    // the only tile is its own neighbour on every side
    let at = |ix: usize, iy: usize| tile[ix + iy * 4].0;
    assert_eq!((at(0, 1), at(3, 1)), (at(2, 1), at(1, 1)));
    assert_eq!((at(0, 0), at(3, 3)), (at(2, 2), at(1, 1)));
    assert_eq!((at(1, 0), at(1, 3)), (at(1, 2), at(1, 1)));
}

#[test]
fn halo_holds_the_neighbouring_cells_on_chosen_grids() {
    check_halo_of(world_with(1, 4, 8), 8);
    check_halo_of(world_with(4, 1, 8), 8);
    check_halo_of(world_with(2, 3, 6), 6);
    check_halo_of(world_with(1, 1, 1), 1);
    check_halo_of(world_with(2, 2, 2), 2);
}
