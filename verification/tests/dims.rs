use mpi_util::dims::{compute_dims, mpi_dims_create};
use mpi_util::error::ConfigError;

#[test]
fn two_factor_splits_are_balanced_and_ordered() {
    assert_eq!(compute_dims(1, 2), Ok(vec![1, 1]));
    assert_eq!(compute_dims(2, 2), Ok(vec![2, 1]));
    assert_eq!(compute_dims(4, 2), Ok(vec![2, 2]));
    assert_eq!(compute_dims(6, 2), Ok(vec![3, 2]));
    assert_eq!(compute_dims(7, 2), Ok(vec![7, 1]));
    assert_eq!(compute_dims(9, 2), Ok(vec![3, 3]));
    assert_eq!(compute_dims(12, 2), Ok(vec![4, 3]));
    assert_eq!(compute_dims(16, 2), Ok(vec![4, 4]));
    assert_eq!(compute_dims(48, 2), Ok(vec![8, 6]));
    assert_eq!(compute_dims(2147483647, 2), Ok(vec![2147483647, 1]));
    assert_eq!(compute_dims(2147395600, 2), Ok(vec![46340, 46340]));
}

#[test]
fn every_split_multiplies_to_the_process_count() {
    for p in 1..=2000 {
        let d = compute_dims(p, 2).unwrap();
        assert_eq!(d.len(), 2);
        assert_eq!(d[0] * d[1], p);
        assert!(d[0] >= d[1] && d[1] >= 1);
        // no other split is closer to a square
        for b in (d[1] + 1)..=d[0] {
            assert!(p % b != 0 || p / b < b);
        }
    }
}

#[test]
fn one_dimension_takes_all_processes() {
    assert_eq!(compute_dims(16, 1), Ok(vec![16]));
    assert_eq!(compute_dims(1, 1), Ok(vec![1]));
}

#[test]
fn grids_of_more_dimensions() {
    assert_eq!(compute_dims(16, 4), Ok(vec![2, 2, 2, 2]));
    assert_eq!(compute_dims(8, 3), Ok(vec![2, 2, 2]));
    assert_eq!(compute_dims(12, 3), Ok(vec![3, 2, 2]));
    assert_eq!(compute_dims(24, 3), Ok(vec![4, 3, 2]));
    assert_eq!(compute_dims(30, 3), Ok(vec![5, 3, 2]));
    assert_eq!(compute_dims(64, 3), Ok(vec![4, 4, 4]));
    assert_eq!(compute_dims(7, 3), Ok(vec![7, 1, 1]));
    assert_eq!(compute_dims(14, 3), Ok(vec![7, 2, 1]));
    assert_eq!(compute_dims(1, 5), Ok(vec![1, 1, 1, 1, 1]));
    assert_eq!(compute_dims(6, 4), Ok(vec![3, 2, 1, 1]));
    assert_eq!(compute_dims(1000, 3), Ok(vec![10, 10, 10]));
    assert_eq!(compute_dims(2, 40), Ok({
        let mut v = vec![1; 40];
        v[0] = 2;
        v
    }));
}

/// All grids of `n` sides in non-increasing order, none above `cap`, whose
/// product is `p`.
fn all_grids(p: i32, n: usize, cap: i32) -> Vec<Vec<i32>> {
    if n == 0 {
        return if p == 1 { vec![vec![]] } else { vec![] };
    }
    let mut out = Vec::new();
    for d in 1..=cap.min(p) {
        if p % d == 0 {
            for rest in all_grids(p / d, n - 1, d) {
                let mut g = vec![d];
                g.extend(rest);
                out.push(g);
            }
        }
    }
    out
}

#[test]
fn no_grid_is_closer_to_equal() {
    for n in 1..=4usize {
        for p in 1..=200 {
            let d = compute_dims(p, n as i32).unwrap();
            assert_eq!(d.len(), n);
            assert_eq!(d.iter().product::<i32>(), p);
            assert!(d.windows(2).all(|w| w[0] >= w[1]));
            assert!(d[n - 1] >= 1);
            for g in all_grids(p, n, p) {
                // the ratio of the longest side to the shortest is no larger
                assert!(d[0] * g[n - 1] <= g[0] * d[n - 1]);
            }
        }
    }
}

#[test]
fn bad_requests_are_refused() {
    assert_eq!(compute_dims(0, 2), Err(ConfigError::BadProcessCount));
    assert_eq!(compute_dims(-4, 2), Err(ConfigError::BadProcessCount));
    assert_eq!(compute_dims(0, 7), Err(ConfigError::BadProcessCount));
    assert_eq!(compute_dims(0, 0), Err(ConfigError::BadProcessCount));
    assert_eq!(compute_dims(16, 0), Err(ConfigError::UnsupportedShape));
    assert_eq!(compute_dims(16, -1), Err(ConfigError::UnsupportedShape));
}

#[test]
fn dims_create_fills_the_buffer() {
    let mut d2 = vec![0; 2];
    assert_eq!(mpi_dims_create(4, 2, &mut d2), Ok(()));
    assert_eq!(d2, vec![2, 2]);
    let mut d2 = vec![0; 2];
    assert_eq!(mpi_dims_create(6, 2, &mut d2), Ok(()));
    assert_eq!(d2, vec![3, 2]);
    let mut d1 = vec![0; 1];
    assert_eq!(mpi_dims_create(5, 1, &mut d1), Ok(()));
    assert_eq!(d1, vec![5]);
    let mut d4 = vec![0; 4];
    assert_eq!(mpi_dims_create(16, 4, &mut d4), Ok(()));
    assert_eq!(d4, vec![2, 2, 2, 2]);
    let mut d3 = vec![0; 3];
    assert_eq!(mpi_dims_create(6, 3, &mut d3), Ok(()));
    assert_eq!(d3, vec![3, 2, 1]);
}

#[test]
fn dims_create_keeps_the_sides_that_are_set() {
    let mut d = vec![2, 0];
    assert_eq!(mpi_dims_create(8, 2, &mut d), Ok(()));
    assert_eq!(d, vec![2, 4]);
    let mut d = vec![0, 4];
    assert_eq!(mpi_dims_create(8, 2, &mut d), Ok(()));
    assert_eq!(d, vec![2, 4]);
    let mut d = vec![0, 3, 0];
    assert_eq!(mpi_dims_create(6, 3, &mut d), Ok(()));
    assert_eq!(d, vec![2, 3, 1]);
    let mut d = vec![0, 1, 0, 5];
    assert_eq!(mpi_dims_create(60, 4, &mut d), Ok(()));
    assert_eq!(d, vec![4, 1, 3, 5]);
    let mut d = vec![4, 2];
    assert_eq!(mpi_dims_create(8, 2, &mut d), Ok(()));
    assert_eq!(d, vec![4, 2]);
    let mut d = vec![8, 0];
    assert_eq!(mpi_dims_create(8, 2, &mut d), Ok(()));
    assert_eq!(d, vec![8, 1]);
}

#[test]
fn dims_create_refuses_sides_that_do_not_fit() {
    let mut d = vec![0, 3, 0];
    assert_eq!(mpi_dims_create(7, 3, &mut d), Err(ConfigError::ShapeMismatch));
    assert_eq!(d, vec![0, 3, 0]);
    let mut d = vec![2, 2];
    assert_eq!(mpi_dims_create(8, 2, &mut d), Err(ConfigError::ShapeMismatch));
    assert_eq!(d, vec![2, 2]);
    let mut d = vec![16, 0];
    assert_eq!(mpi_dims_create(8, 2, &mut d), Err(ConfigError::ShapeMismatch));
    assert_eq!(d, vec![16, 0]);
    let mut d = vec![i32::MAX, i32::MAX, i32::MAX, 0];
    assert_eq!(mpi_dims_create(i32::MAX, 4, &mut d), Err(ConfigError::ShapeMismatch));
    assert_eq!(d, vec![i32::MAX, i32::MAX, i32::MAX, 0]);
    let mut d = vec![3, 0];
    assert_eq!(mpi_dims_create(8, 2, &mut d), Err(ConfigError::ShapeMismatch));
    assert_eq!(d, vec![3, 0]);
}

#[test]
fn dims_create_leaves_the_buffer_on_error() {
    let mut d = vec![0; 2];
    assert_eq!(mpi_dims_create(0, 2, &mut d), Err(ConfigError::BadProcessCount));
    assert_eq!(d, vec![0, 0]);
    let mut d = vec![0; 3];
    assert_eq!(mpi_dims_create(8, 2, &mut d), Err(ConfigError::UnsupportedShape));
    assert_eq!(d, vec![0, 0, 0]);
    let mut d = vec![0, 0];
    assert_eq!(mpi_dims_create(8, -2, &mut d), Err(ConfigError::UnsupportedShape));
    assert_eq!(d, vec![0, 0]);
    let mut d: Vec<i32> = vec![];
    assert_eq!(mpi_dims_create(8, 0, &mut d), Err(ConfigError::UnsupportedShape));
    let mut d = vec![0, -2];
    assert_eq!(mpi_dims_create(8, 2, &mut d), Err(ConfigError::UnsupportedShape));
    assert_eq!(d, vec![0, -2]);
    let mut d = vec![-1, -8];
    assert_eq!(mpi_dims_create(8, 2, &mut d), Err(ConfigError::UnsupportedShape));
    assert_eq!(d, vec![-1, -8]);
}

#[test]
fn names_at_the_root_of_the_crate() {
    let mut d2 = vec![0; 2];
    assert_eq!(mpi_util::mpi_dims_create(12, 2, &mut d2), Ok(()));
    assert_eq!(mpi_util::compute_dims(12, 2), Ok(d2));
    assert!(mpi_util::MPIinfo::new(0, 12, 12).is_ok());
}
