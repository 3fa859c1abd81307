use mpi_util::grid::MPIinfo;
use mpi_util::ring::{Ring, RingStep};
use mpi_util::stencil::Neighborhood;

#[test]
fn kernel_sees_the_four_neighbours() {
    let mi = MPIinfo::new(0, 1, 3).unwrap();
    let w = 5;
    let u: Vec<i64> = (0..25).collect();
    let v: Vec<i64> = (0..25).map(|k| 100 + k).collect();
    let mut u2 = vec![-1; 25];
    let mut v2 = vec![-2; 25];
    mi.calc(&u, &v, &mut u2, &mut v2, |a: Neighborhood<i64>, b: Neighborhood<i64>| {
        // the neighbours lie one column or one row away
        assert_eq!((a.left, a.right, a.up, a.down), (a.center - 1, a.center + 1, a.center - 5, a.center + 5));
        assert_eq!(b.center, a.center + 100);
        (a.left + 10 * a.right + 100 * a.up + 1000 * a.down, b.left + b.right + b.up + b.down - 4 * b.center)
    });
    for iy in 0..5 {
        for ix in 0..w {
            let k = ix + iy * w;
            if (1..=3).contains(&ix) && (1..=3).contains(&iy) {
                let c = k as i64;
                assert_eq!(u2[k], (c - 1) + 10 * (c + 1) + 100 * (c - 5) + 1000 * (c + 5));
                assert_eq!(v2[k], 0);
            } else {
                assert_eq!(u2[k], -1);
                assert_eq!(v2[k], -2);
            }
        }
    }
    // the current fields are read only
    assert_eq!(u, (0..25).collect::<Vec<i64>>());
}

#[test]
fn kernel_runs_once_for_every_cell() {
    let mi = MPIinfo::new(5, 6, 12).unwrap();
    let n = mi.tile_len();
    let u = vec![1u32; n];
    let v = vec![2u32; n];
    let mut u2 = vec![0u32; n];
    let mut v2 = vec![0u32; n];
    let calls = std::cell::Cell::new(0);
    mi.calc(&u, &v, &mut u2, &mut v2, |a: Neighborhood<u32>, b: Neighborhood<u32>| {
        calls.set(calls.get() + 1);
        (a.center + b.center, 7)
    });
    assert_eq!(calls.get(), 4 * 6);
    assert_eq!(u2.iter().filter(|&&x| x == 3).count(), 24);
    assert_eq!(v2.iter().filter(|&&x| x == 7).count(), 24);
    assert_eq!(u2.iter().filter(|&&x| x == 0).count(), n - 24);
}

#[test]
fn empty_tile_has_no_cell_to_compute() {
    let mi = MPIinfo::new(0, 1, 0).unwrap();
    let u = vec![1; 4];
    let mut u2 = vec![0; 4];
    let mut v2 = vec![0; 4];
    mi.calc(&u, &u, &mut u2, &mut v2, |_a: Neighborhood<i32>, _b: Neighborhood<i32>| panic!("no cell"));
    assert_eq!(u2, vec![0; 4]);
}

#[test]
fn line_kernel_sees_left_and_right() {
    let ring = Ring::new(0, 2, 8).unwrap();
    let orig = vec![10, 11, 12, 13, 14, 15];
    let mut lattice = vec![0; 6];
    ring.calc(&orig, &mut lattice, |l: i32, c: i32, r: i32| 100 * l + 10 * c + r);
    assert_eq!(lattice, vec![0, 1000 + 110 + 12, 1100 + 120 + 13, 1200 + 130 + 14, 1300 + 140 + 15, 0]);
}

/// The total of the squares of a field on a periodic line after each of
/// `steps` steps of explicit diffusion with `k`, the coefficient times the
/// time step.
fn energies(k: f64, steps: usize) -> Vec<f64> {
    let l = 64;
    let ring = Ring::new(0, 1, l).unwrap();
    let mut lattice = vec![0.0; ring.lattice_len()];
    for i in 0..l {
        lattice[i + 1] = if i % 2 == 0 { 1.0 } else { -0.5 } + (i as f64) / 64.0;
    }
    let mut orig = lattice.clone();
    let mut out = Vec::new();
    for _ in 0..steps {
        orig.copy_from_slice(&lattice);
        // the only process is its own neighbour on both sides
        let mut step = ring.sendrecv(&lattice);
        while let RingStep::Exchange { side, value, dest, source } = step {
            assert_eq!((dest, source), (0, 0));
            step = ring.receive(&lattice, &mut orig, side, value);
        }
        ring.calc(&orig, &mut lattice, |left: f64, center: f64, right: f64| {
            center + (left - 2.0 * center + right) * k
        });
        out.push(lattice[1..=l].iter().map(|x| x * x).sum());
    }
    out
}

#[test]
fn diffusion_is_stable_up_to_one_half() {
    for k in [0.1, 0.25, 0.5] {
        let e = energies(k, 1000);
        for pair in e.windows(2) {
            assert!(pair[1] <= pair[0] * (1.0 + 1e-12));
        }
        assert!(e[999].is_finite());
    }
}

#[test]
fn diffusion_diverges_above_one_half() {
    let e = energies(0.6, 1000);
    assert!(e[0] > 0.0);
    assert!(!(e[999] <= e[0] * 1e6));
    let e = energies(0.51, 1000);
    assert!(!(e[999] <= e[0] * 1e3));
}

#[test]
fn cells_can_be_computed_one_by_one() {
    let mi = MPIinfo::new(0, 1, 3).unwrap();
    let u: Vec<i64> = (0..25).map(|k| k * k).collect();
    let v: Vec<i64> = (0..25).map(|k| 7 - k).collect();
    let kernel = |a: Neighborhood<i64>, b: Neighborhood<i64>| (a.left - a.right + b.center, a.up * b.down);
    let mut u2 = vec![0; 25];
    let mut v2 = vec![0; 25];
    mi.calc(&u, &v, &mut u2, &mut v2, kernel);
    let mut cells = 0;
    for k in 0..mi.tile_len() {
        let (ix, iy) = mi.cell_coord(k);
        assert_eq!((ix, iy), (k % 5, k / 5));
        assert_eq!(mi.is_interior(ix, iy), (1..=3).contains(&ix) && (1..=3).contains(&iy));
        if mi.is_interior(ix, iy) {
            let a = mi.neighborhood(&u, ix, iy);
            assert_eq!(a.center, u[k]);
            assert_eq!((a.left, a.right, a.up, a.down), (u[k - 1], u[k + 1], u[k - 5], u[k + 5]));
            assert_eq!(kernel(a, mi.neighborhood(&v, ix, iy)), (u2[k], v2[k]));
            cells += 1;
        }
    }
    assert_eq!(cells, 9);
    assert!(!mi.is_interior(0, 0));
    assert!(!mi.is_interior(4, 1));
    assert!(!mi.is_interior(usize::MAX, usize::MAX));
}
