use conllx_stream::RandomRemoveVec;
use rand::{Rng, SeedableRng};
use rand_xorshift::XorShiftRng;

#[test]
fn random_remove_vec() {
    let mut rng = XorShiftRng::seed_from_u64(42);
    let mut elems = RandomRemoveVec::with_capacity(3, XorShiftRng::seed_from_u64(42));
    elems.push(1);
    elems.push(2);
    elems.push(3);

    // Before: [1 2 3]
    assert_eq!(rng.gen_range(0, 4 as usize), 1);
    assert_eq!(elems.push_and_remove_random(4), 2);

    // Before: [1 4 3]
    assert_eq!(rng.gen_range(0, 4 as usize), 2);
    assert_eq!(elems.push_and_remove_random(5), 3);

    // Before: [1 4 5]
    assert_eq!(rng.gen_range(0, 4 as usize), 1);
    assert_eq!(elems.push_and_remove_random(6), 4);

    // Before: [1 6 5]
    assert_eq!(rng.gen_range(0, 3 as usize), 1);
    assert_eq!(elems.remove_random().unwrap(), 6);

    // Before: [1 5]
    assert_eq!(rng.gen_range(0, 2 as usize), 0);
    assert_eq!(elems.remove_random().unwrap(), 1);

    // Before: [5]
    assert_eq!(rng.gen_range(0, 1 as usize), 0);
    assert_eq!(elems.remove_random().unwrap(), 5);

    // Exhausted
    assert_eq!(elems.remove_random(), None);

    // The buffer is empty, so always return the next number
    assert_eq!(elems.push_and_remove_random(7), 7);
    assert_eq!(elems.push_and_remove_random(8), 8);
}

#[test]
fn random_remove_vec_len_tracks_contents() {
    let mut elems = RandomRemoveVec::with_capacity(2, XorShiftRng::seed_from_u64(7));
    assert!(elems.is_empty());
    assert_eq!(elems.len(), 0);
    elems.push(10);
    elems.push(20);
    assert_eq!(elems.len(), 2);
    let out = elems.push_and_remove_random(30);
    assert!(out == 10 || out == 20 || out == 30);
    assert_eq!(elems.len(), 2);
    let a = elems.remove_random().unwrap();
    let b = elems.remove_random().unwrap();
    let mut all = vec![out, a, b];
    all.sort();
    assert_eq!(all, vec![10, 20, 30]);
    assert!(elems.is_empty());
    assert_eq!(elems.remove_random(), None);
}
