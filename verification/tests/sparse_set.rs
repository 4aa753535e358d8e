use std::collections::HashSet;

use kecs::SparseSet;

use rand::seq::SliceRandom;

const VALUE_MAX: usize = u16::MAX as usize;
const ITERS_MAX: usize = 1000000;

#[test]
fn sparse_set_operations() {
    let mut sparse_set = SparseSet::<usize, ()>::new();
    let mut inserted_numbers: HashSet<usize> = Default::default();
    for _ in 0..rand::random::<usize>().max(1) % ITERS_MAX {
        let num: usize = rand::random::<usize>() % VALUE_MAX;
        if inserted_numbers.contains(&num) {
            continue;
        }
        inserted_numbers.insert(num);
        assert!(sparse_set.insert(num, ()));
    }

    for num in &inserted_numbers {
        assert!(sparse_set.contains(num));
    }

    let mut inserted = inserted_numbers.into_iter().collect::<Vec<_>>();
    inserted.shuffle(&mut rand::thread_rng());

    let mut removed_numbers = vec![];
    for _ in 0..rand::random::<usize>() % inserted.len() {
        let num = inserted.pop().unwrap();
        removed_numbers.push(num);
        assert!(sparse_set.remove(num));
    }

    for num in inserted {
        assert!(sparse_set.contains(&num));
    }

    for num in removed_numbers {
        assert!(!sparse_set.contains(&num));
    }

    sparse_set.clear();

    assert!(sparse_set.is_empty());
}

#[test]
fn insert_overwrites_value() {
    let mut set = SparseSet::<usize, u32>::new();
    assert!(set.insert(7, 10));
    assert!(!set.insert(7, 20));
    assert_eq!(set.len(), 1);
    assert_eq!(set.get(&7), Some(&20));
}

#[test]
fn iter_in_insertion_order() {
    let mut set = SparseSet::<usize, u32>::new();
    set.insert(5, 50);
    set.insert(2, 20);
    set.insert(9, 90);
    let items = set.iter();
    assert_eq!(items, vec![(5, 50), (2, 20), (9, 90)]);
}
