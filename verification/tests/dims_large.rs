use mpi_util::dims::compute_dims;

#[test]
fn many_dimensions_are_padded_with_ones() {
    let d = compute_dims(6, 100_000).unwrap();
    assert_eq!(d.len(), 100_000);
    assert_eq!(&d[0..3], &[3, 2, 1]);
}

#[test]
fn power_of_two_over_thirty_one_dimensions() {
    let d = compute_dims(1 << 30, 31).unwrap();
    let mut want = vec![2; 31];
    want[30] = 1;
    assert_eq!(d, want);
}

#[test]
fn power_of_two_over_ten_dimensions() {
    let d = compute_dims(1 << 30, 10).unwrap();
    assert_eq!(d, vec![8, 8, 8, 8, 8, 8, 8, 8, 8, 8]);
}

#[test]
fn composite_count_over_four_dimensions() {
    let d = compute_dims(720720, 4).unwrap();
    assert_eq!(d.iter().product::<i32>(), 720720);
    assert!(d.windows(2).all(|w| w[0] >= w[1]));
    assert_eq!(d, vec![33, 30, 28, 26]);
}

#[test]
fn large_prime_over_three_dimensions() {
    let d = compute_dims(2147483647, 3).unwrap();
    assert_eq!(d, vec![2147483647, 1, 1]);
}

#[test]
fn large_composite_over_three_dimensions() {
    let d = compute_dims(2147483646, 3).unwrap();
    assert_eq!(d.iter().map(|&x| x as i64).product::<i64>(), 2147483646);
}
