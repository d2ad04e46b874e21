use algorithms::misc::{
    calculate_collatz_flight_time_and_max_altitude, extract_unique_solutions,
    find_max_collatz_flight_time, find_primes, generate_symmetries_and_rotations,
    solve_8_queens_problem,
};

#[test]
fn collatz_fifteen_and_twenty_seven() {
    assert_eq!(calculate_collatz_flight_time_and_max_altitude(15), (17, 160));
    assert_eq!(calculate_collatz_flight_time_and_max_altitude(27), (111, 9232));
    assert_eq!(calculate_collatz_flight_time_and_max_altitude(1), (0, 1));
}

#[test]
fn collatz_longest_flight_below_hundred() {
    assert_eq!(find_max_collatz_flight_time(100), (118, 97));
    assert_eq!(find_max_collatz_flight_time(1), (0, 0));
}

#[test]
fn primes_in_ranges() {
    assert_eq!(find_primes(10, 20), vec![11, 13, 17, 19]);
    assert_eq!(find_primes(0, 10), vec![2, 3, 5, 7]);
    assert_eq!(find_primes(2, 3), vec![2]);
    assert_eq!(find_primes(24, 29), Vec::<usize>::new());
    assert_eq!(find_primes(20, 10), Vec::<usize>::new());
    assert_eq!(find_primes(0, 1000).len(), 168);
    assert_eq!(find_primes(25, 50), vec![29, 31, 37, 41, 43, 47]);
}

#[test]
fn queens_solutions() {
    let solutions = solve_8_queens_problem();
    assert_eq!(solutions.len(), 92);
    let unique = extract_unique_solutions(&solutions);
    assert_eq!(unique.len(), 12);
}

#[test]
fn queens_symmetries() {
    let board = [0usize, 4, 7, 5, 2, 6, 1, 3];
    let images = generate_symmetries_and_rotations(&board);
    assert_eq!(images.len(), 8);
    assert_eq!(images[0], board);
    assert_eq!(images[1], [7, 3, 0, 2, 5, 1, 6, 4]);
    assert_eq!(images[2], [3, 1, 6, 2, 5, 7, 4, 0]);
    assert_eq!(images[4], [0, 6, 4, 7, 1, 3, 5, 2]);
}

#[test]
fn queens_second_half_mirrors_first() {
    let solutions = solve_8_queens_problem();
    let half = solutions.len() / 2;
    assert_eq!(half, 46);
    for k in 0..half {
        assert!(solutions[k][0] <= 3);
        for i in 0..8 {
            assert_eq!(solutions[half + k][i], 7 - solutions[half - 1 - k][i]);
        }
    }
}
