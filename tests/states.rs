use kahuna::bit_state::BitState;
use kahuna::hashset_state::HashsetState;
use kahuna::{SetState, State};

#[test]
fn bit_state_all_and_state() {
    let all = BitState::<5>::all();
    assert_eq!(all.entropy(), Some(4));
    assert!(BitState::<5>::state(3).subset_of(&all));
    assert!(!all.subset_of(&BitState::<5>::state(3)));
    assert_eq!(BitState::<64>::all().entropy(), Some(63));
}

#[test]
fn bit_state_clear_and_collect() {
    let mut s = BitState::<6>::all();
    s.clear_states(&BitState::<6>::state(1));
    s.clear_states(&BitState::<6>::state(4));
    let mut indices = vec![9];
    s.collect_final_states(&mut indices);
    assert_eq!(indices, vec![9, 0, 2, 3, 5]);
    let mut empty = BitState::<6>::state(2);
    empty.clear_states(&BitState::<6>::state(2));
    assert_eq!(empty.entropy(), None);
}

#[test]
fn hashset_state_construction() {
    let single = HashsetState::new_final(&70_000);
    assert_eq!(single.entropy(), Some(0));
    assert!(single.hashset.contains(&70_000));
    let many = HashsetState::new(&[3, 9, 3, 1_000_000_000_000]);
    assert_eq!(many.entropy(), Some(2));
    assert_eq!(HashsetState::new(&[]).entropy(), None);
}

#[test]
fn hashset_state_set_operations() {
    let mut a = HashsetState::new(&[1, 2, 3]);
    let b = HashsetState::new(&[3, 4]);
    assert!(a.has_any_of(&b));
    assert!(!a.has_any_of(&HashsetState::new(&[7])));
    a.set_states(&b);
    assert_eq!(a.entropy(), Some(3));
    a.clear_states(&HashsetState::new(&[1, 4, 8]));
    let mut left: Vec<u64> = a.hashset.iter().copied().collect();
    left.sort();
    assert_eq!(left, vec![2, 3]);
}

#[test]
fn hashset_state_collects_singletons() {
    let s = HashsetState::new(&[5, 8, 13]);
    let mut parts = Vec::new();
    s.collect_final_states(&mut parts);
    let mut values: Vec<u64> = parts
        .iter()
        .map(|p| {
            assert_eq!(p.entropy(), Some(0));
            *p.hashset.iter().next().unwrap()
        })
        .collect();
    values.sort();
    assert_eq!(values, vec![5, 8, 13]);
    let copy = s.copy_state();
    assert!(copy.hashset == s.hashset);
}
