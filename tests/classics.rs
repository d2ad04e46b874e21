use algorithms::classics;

#[test]
fn test_classics_factorial() {
    assert_eq!(classics::factorial(0), 1);
    assert_eq!(classics::factorial(1), 1);
    assert_eq!(classics::factorial(4), 24);
    assert_eq!(classics::factorial(5), 120);
}

#[test]
fn test_classics_gcd() {
    assert_eq!(classics::gcd(15, 18), 3);
    assert_eq!(classics::gcd(90, 28), 2);
}

#[test]
fn test_classics_iterative_fibonacci() {
    assert_eq!(classics::fibonacci_iterative(8), 21);
    assert_eq!(classics::fibonacci_iterative(15), 610);
}

#[test]
fn test_classics_recursive_fibonacci() {
    assert_eq!(classics::fibonacci_recursive(8), 21);
    assert_eq!(classics::fibonacci_recursive(15), 610);
}

#[test]
fn factorial_largest_that_fits() {
    assert_eq!(classics::factorial(20), 2432902008176640000);
}

#[test]
fn gcd_with_zero() {
    assert_eq!(classics::gcd(12, 0), 12);
    assert_eq!(classics::gcd(0, 7), 7);
}

#[test]
fn fibonacci_first_values() {
    assert_eq!(classics::fibonacci_iterative(0), 0);
    assert_eq!(classics::fibonacci_iterative(1), 1);
    assert_eq!(classics::fibonacci_recursive(0), 0);
    assert_eq!(classics::fibonacci_recursive(2), 1);
    assert_eq!(classics::fibonacci_iterative(93), 12200160415121876738);
}

#[test]
fn test_classics_linear_search() {
    let array: &[i32] = &[5, 10, 3, 7, 15];
    assert_eq!(classics::linear_search(array, 3), Some(2));
    assert_eq!(classics::linear_search(array, 7), Some(3));
    assert_eq!(classics::linear_search(array, 19), None);
}

#[test]
fn test_classics_generic_linear_search() {
    let array: &[i32] = &[5, 10, 3, 7, 15];
    assert_eq!(classics::generic_linear_search(array, 3), Some(2));
    assert_eq!(classics::generic_linear_search(array, 7), Some(3));
    assert_eq!(classics::generic_linear_search(array, 19), None);

    let string_array: &[String] = &[
        "aa".to_string(),
        "bb".to_string(),
        "cc".to_string(),
        "dd".to_string(),
    ];
    assert_eq!(
        classics::generic_linear_search(string_array, "cc".to_string()),
        Some(2)
    );
    assert_eq!(
        classics::generic_linear_search(string_array, "aa".to_string()),
        Some(0)
    );
    assert_eq!(
        classics::generic_linear_search(string_array, "ee".to_string()),
        None
    );
}

#[test]
fn test_classics_binary_search() {
    let array: &[i32] = &[5, 10, 17, 24, 29, 37, 50];
    assert_eq!(classics::binary_search(array, 17, None, None), Some(2));
    assert_eq!(classics::binary_search(array, 50, None, None), Some(6));
    assert_eq!(classics::binary_search(array, 13, None, None), None);
}

#[test]
fn binary_search_within_bounds() {
    let array: &[i32] = &[1, 3, 5, 7, 9];
    assert_eq!(classics::binary_search(array, 1, Some(1), Some(4)), None);
    assert_eq!(classics::binary_search(array, 9, Some(3), None), Some(4));
    assert_eq!(classics::binary_search(array, 5, Some(3), Some(2)), None);
}

#[test]
fn hanoi_moves_all_disks() {
    let game = classics::solve_tower_of_hanoi(4, false);
    let towers = game.towers();
    assert!(towers[0].is_empty());
    assert!(towers[1].is_empty());
    assert_eq!(towers[2], vec![4, 3, 2, 1]);
    assert_eq!(game.moves().len(), 15);
    assert!(!game.verbose());
}

#[test]
fn hanoi_new_and_move() {
    let mut game = classics::HanoiGame::new(3, true);
    assert_eq!(game.towers()[0], vec![3, 2, 1]);
    game.move_disk(1, 3);
    assert_eq!(game.towers()[0], vec![3, 2]);
    assert_eq!(game.towers()[2], vec![1]);
    assert_eq!(game.moves(), vec![(1, 3)]);
    assert_eq!(classics::top(&[4u32, 9]), Some(9));
    assert_eq!(classics::top::<u32>(&[]), None);
}
