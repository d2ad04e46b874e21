use algorithms::probabilities::{fisher_yates_shuffle, MinstdRng};

#[test]
fn minstd_first_values() {
    let mut rng = MinstdRng::new(1);
    assert_eq!(rng.gen(), 16807);
    assert_eq!(rng.gen(), 282475249);
    assert_eq!(rng.gen(), 1622650073);
}

#[test]
fn minstd_range_is_respected() {
    let mut rng = MinstdRng::new(42);
    for _ in 0..1000 {
        let v = rng.gen_range(3..10);
        assert!((3..10).contains(&v));
    }
    let mut one = MinstdRng::new(7);
    assert_eq!(one.gen_range(5..6), 5);
}

#[test]
fn minstd_range_maps_draw() {
    let mut rng = MinstdRng::new(1);
    assert_eq!(rng.gen_range(0..10), (16807 % 10) as u32);
}

#[test]
fn shuffle_keeps_elements() {
    let mut array: Vec<i32> = (0..13).collect();
    fisher_yates_shuffle(array.as_mut_slice(), 1234);
    let mut sorted = array.clone();
    sorted.sort();
    assert_eq!(sorted, (0..13).collect::<Vec<i32>>());
    let mut again: Vec<i32> = (0..13).collect();
    fisher_yates_shuffle(again.as_mut_slice(), 1234);
    assert_eq!(array, again);
}

#[test]
fn shuffle_empty_and_single() {
    let mut empty: Vec<i32> = vec![];
    fisher_yates_shuffle(empty.as_mut_slice(), 5);
    assert!(empty.is_empty());
    let mut single = vec![8];
    fisher_yates_shuffle(single.as_mut_slice(), 5);
    assert_eq!(single, vec![8]);
}
