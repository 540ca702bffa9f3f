use kahuna::bitset_state::BitsetState;
use kahuna::set_rule::{
    SetCollapseObserver, SetCollapseRuleBuilder, UniformSetCollapseObserver,
};
use kahuna::square_grid::SquareGrid;
use kahuna::{
    collapse, collapse_with, AllState, CollapseRule, InvertDelta, RandomSource, SeededRandom,
    SetState, Space, State, ThreadRandom,
};

type S2 = BitsetState<2>;
type S3 = BitsetState<3>;

const LEFT: (isize, isize) = (-1, 0);
const RIGHT: (isize, isize) = (1, 0);
const UP: (isize, isize) = (0, -1);
const DOWN: (isize, isize) = (0, 1);

#[test]
fn bitset_state_holds_one_value() {
    let s = S3::state(2);
    assert_eq!(s, S3::with_states(&[2]));
    assert_eq!(s.entropy(), Some(0));
    let mut values = Vec::new();
    s.collect_final_states(&mut values);
    assert_eq!(values, vec![S3::state(2)]);
}

#[test]
fn bitset_with_states_and_union() {
    let s = S3::with_states(&[0, 2, 0]);
    assert_eq!(s, S3::state(0) | S3::state(2));
    assert_eq!(s.entropy(), Some(1));
    assert_eq!(S3::with_states(&[]).entropy(), None);
}

#[test]
fn bitset_const_or_unions_all() {
    let s = S3::const_or(&[S3::state(0), S3::state(1), S3::state(2)]);
    assert_eq!(s, S3::all());
    assert_eq!(S3::const_or(&[]), S3::with_states(&[]));
    assert_eq!(S3::const_or(&[S3::state(1)]), S3::state(1));
}

#[test]
fn bitset_entropy_counts_minus_one() {
    assert_eq!(S3::all().entropy(), Some(2));
    assert_eq!(BitsetState::<11>::all().entropy(), Some(10));
    assert_eq!(BitsetState::<1>::all().entropy(), Some(0));
}

#[test]
fn bitset_empty_is_contradiction() {
    let mut s = S3::state(1);
    s.clear_states(&S3::state(1));
    assert_eq!(s.entropy(), None);
    assert!(!s.has_any_of(&S3::all()));
}

#[test]
fn bitset_all_of_full_width() {
    let all = BitsetState::<64>::all();
    assert_eq!(all.entropy(), Some(63));
    assert!(all.has_any_of(&BitsetState::<64>::state(63)));
    let mut values = Vec::new();
    all.collect_final_states(&mut values);
    assert_eq!(values.len(), 64);
    assert_eq!(values[63], BitsetState::<64>::state(63));
}

#[test]
fn bitset_set_operations() {
    let ab = S3::with_states(&[0, 1]);
    let bc = S3::with_states(&[1, 2]);
    assert_eq!(ab & bc, S3::state(1));
    assert_eq!(ab ^ bc, S3::with_states(&[0, 2]));
    assert!(ab.has_any_of(&bc));
    assert!(!S3::state(0).has_any_of(&S3::state(2)));
    let mut x = S3::state(0);
    x.set_states(&S3::state(2));
    assert_eq!(x, S3::with_states(&[0, 2]));
    x.clear_states(&ab);
    assert_eq!(x, S3::state(2));
}

#[test]
fn bitset_collect_final_states_in_order() {
    let mut values = vec![S3::state(1)];
    S3::with_states(&[2, 0]).collect_final_states(&mut values);
    assert_eq!(values, vec![S3::state(1), S3::state(0), S3::state(2)]);
}

#[test]
fn grid_coordinates_in_row_order() {
    let grid = SquareGrid::new(3, 2, |_, _| 0u8);
    assert_eq!(
        grid.coordinate_list(),
        vec![(0, 0), (1, 0), (2, 0), (0, 1), (1, 1), (2, 1)]
    );
}

#[test]
fn grid_init_fn_sees_coordinates() {
    let grid = SquareGrid::new(3, 2, |x, y| x * 10 + y);
    assert_eq!(*grid.get((2, 1)), 21);
    assert_eq!(*grid.cell(4), 11);
}

#[test]
fn negative_size_grid_is_empty() {
    let grid = SquareGrid::new(-3, 2, |_, _| 0u8);
    assert!(grid.coordinate_list().is_empty());
}

#[test]
fn grid_corner_neighbors() {
    let grid = SquareGrid::new(2, 2, |_, _| 0u8);
    let offsets = [LEFT, UP, RIGHT, DOWN, (isize::MIN, isize::MAX)];
    assert_eq!(grid.neighbors(0, &offsets), vec![None, None, Some(1), Some(2), None]);
    assert_eq!(grid.neighbors(3, &offsets), vec![Some(2), Some(1), None, None, None]);
}

#[test]
fn invert_delta_negates() {
    assert_eq!((3isize, -2isize).invert_delta(), (-3, 2));
    assert_eq!((isize::MIN, 0isize).invert_delta(), (isize::MIN, 0));
    assert!(LEFT.same_delta(&RIGHT.invert_delta()));
    assert!(!LEFT.same_delta(&UP));
}

#[test]
fn builder_deduplicates_offsets() {
    let rule = SetCollapseRuleBuilder::<S2, SquareGrid<S2>, _>::new(UniformSetCollapseObserver)
        .allow(&S2::state(0), &[(RIGHT, S2::state(1)), (RIGHT, S2::state(0))])
        .allow(&S2::state(1), &[(LEFT, S2::state(1))])
        .build();
    assert_eq!(rule.neighbor_offsets(), vec![RIGHT, LEFT]);
}

#[test]
fn symmetric_rule_both_directions() {
    let a = S2::state(0);
    let b = S2::state(1);
    let rule = SetCollapseRuleBuilder::<S2, SquareGrid<S2>, _>::new(UniformSetCollapseObserver)
        .allow(&a, &[(RIGHT, b)])
        .build();
    assert_eq!(rule.neighbor_offsets(), vec![RIGHT, LEFT]);
    // B to the right: only A allows B at RIGHT.
    let mut cell = S2::all();
    rule.collapse(&mut cell, &[Some(b), None]);
    assert_eq!(cell, a);
    // A to the left: only B allows A at LEFT, the mirror record.
    let mut cell = S2::all();
    rule.collapse(&mut cell, &[None, Some(a)]);
    assert_eq!(cell, b);
}

#[test]
fn undeclared_value_never_allowed() {
    let a = S3::state(0);
    let b = S3::state(1);
    let c = S3::state(2);
    let rule = SetCollapseRuleBuilder::<S3, SquareGrid<S3>, _>::new(UniformSetCollapseObserver)
        .allow(&a, &[(RIGHT, b)])
        .build();
    let mut cell = S3::all();
    rule.collapse(&mut cell, &[Some(c), None]);
    assert_eq!(cell.entropy(), None);
    let mut cell = S3::all();
    rule.collapse(&mut cell, &[Some(b | c), None]);
    assert_eq!(cell, a);
}

#[test]
fn missing_neighbors_block_nothing() {
    let a = S3::state(0);
    let rule = SetCollapseRuleBuilder::<S3, SquareGrid<S3>, _>::new(UniformSetCollapseObserver)
        .allow(&a, &[(RIGHT, a)])
        .build();
    let mut cell = S3::all();
    rule.collapse(&mut cell, &[None, None]);
    assert_eq!(cell, S3::all());
}

#[test]
fn open_edge_value_survives_at_corner() {
    // `j` may only touch the grid's edge or another `j`; a 1x1 grid has no
    // neighbour at all, so nothing blocks it.
    let j = S2::state(1);
    let rule = SetCollapseRuleBuilder::<S2, SquareGrid<S2>, _>::new(UniformSetCollapseObserver)
        .allow(&j, &[(LEFT, j), (RIGHT, j), (UP, j), (DOWN, j)])
        .build();
    let mut grid = SquareGrid::new(1, 1, |_, _| S2::all());
    assert!(collapse(&mut grid, &rule).is_ok());
    assert_eq!(grid.get((0, 0)).entropy(), Some(0));
}

#[test]
fn contradiction_reported() {
    let a = S3::state(0);
    let b = S3::state(1);
    let c = S3::state(2);
    let rule = SetCollapseRuleBuilder::<S3, SquareGrid<S3>, _>::new(UniformSetCollapseObserver)
        .allow(&a, &[(RIGHT, a)])
        .allow(&b, &[(RIGHT, b)])
        .build();
    let mut grid = SquareGrid::new(2, 1, |x, _| if x == 0 { a } else { b | c });
    match collapse(&mut grid, &rule) {
        Ok(()) => panic!("expected a contradiction"),
        Err(e) => assert_eq!(e.coordinate, (1, 0)),
    }
    assert_eq!(grid.get((1, 0)).entropy(), None);
}

#[test]
fn initial_empty_cell_reported() {
    let a = S2::state(0);
    let rule = SetCollapseRuleBuilder::<S2, SquareGrid<S2>, _>::new(UniformSetCollapseObserver)
        .allow(&a, &[(RIGHT, a)])
        .build();
    let mut grid = SquareGrid::new(3, 1, |x, _| if x == 2 { S2::with_states(&[]) } else { S2::all() });
    match collapse(&mut grid, &rule) {
        Ok(()) => panic!("expected a contradiction"),
        Err(e) => assert_eq!(e.coordinate, (2, 0)),
    }
}

fn alternating_rule() -> kahuna::set_rule::SetCollapseRule<S2, SquareGrid<S2>, UniformSetCollapseObserver> {
    let a = S2::state(0);
    let b = S2::state(1);
    SetCollapseRuleBuilder::<S2, SquareGrid<S2>, _>::new(UniformSetCollapseObserver)
        .allow(&a, &[(LEFT, b), (RIGHT, b)])
        .build()
}

#[test]
fn strip_alternates_for_every_seed() {
    let rule = alternating_rule();
    for seed in 0..50u64 {
        let mut grid = SquareGrid::new(10, 1, |_, _| S2::all());
        let mut rng = SeededRandom::new(seed);
        assert!(collapse_with(&mut grid, &rule, &mut rng).is_ok());
        for x in 0..9 {
            assert_eq!(grid.get((x, 0)).entropy(), Some(0));
            assert_ne!(grid.get((x, 0)), grid.get((x + 1, 0)));
        }
    }
}

#[test]
fn any_adjacency_resolves() {
    let ab = S2::all();
    let rule = SetCollapseRuleBuilder::<S2, SquareGrid<S2>, _>::new(UniformSetCollapseObserver)
        .allow(&ab, &[(LEFT, ab), (RIGHT, ab), (UP, ab), (DOWN, ab)])
        .build();
    for seed in 0..20u64 {
        let mut grid = SquareGrid::new(2, 2, |_, _| S2::all());
        assert!(collapse_with(&mut grid, &rule, &mut SeededRandom::new(seed)).is_ok());
        for i in 0..4 {
            let cell = *grid.cell(i);
            assert!(cell == S2::state(0) || cell == S2::state(1));
        }
    }
}

#[test]
fn same_seed_same_grid() {
    type S = BitsetState<3>;
    let (a, b, c) = (S::state(0), S::state(1), S::state(2));
    let rule = SetCollapseRuleBuilder::<S, SquareGrid<S>, _>::new(UniformSetCollapseObserver)
        .allow(&a, &[(LEFT, b | c), (RIGHT, b | c), (UP, a)])
        .allow(&b, &[(UP, c), (DOWN, c)])
        .build();
    let run = |seed: u64| {
        let mut grid = SquareGrid::new(20, 10, |_, _| S::all());
        let result = collapse_with(&mut grid, &rule, &mut SeededRandom::new(seed));
        let cells: Vec<S> = (0..200).map(|i| *grid.cell(i)).collect();
        (result.is_ok(), cells)
    };
    assert_eq!(run(7), run(7));
    assert_eq!(run(123), run(123));
}

#[test]
fn cells_only_narrow() {
    let rule = alternating_rule();
    let mut grid = SquareGrid::new(6, 1, |x, _| if x == 0 { S2::state(1) } else { S2::all() });
    assert!(collapse(&mut grid, &rule).is_ok());
    assert_eq!(*grid.get((0, 0)), S2::state(1));
    assert_eq!(*grid.get((1, 0)), S2::state(0));
    assert_eq!(*grid.get((5, 0)), S2::state(0));
}

#[test]
fn resolved_cells_hold_one_value() {
    let rule = alternating_rule();
    let mut grid = SquareGrid::new(7, 3, |_, _| S2::all());
    assert!(collapse(&mut grid, &rule).is_ok());
    for i in 0..21 {
        let mut values = Vec::new();
        grid.cell(i).collect_final_states(&mut values);
        assert_eq!(values.len(), 1);
        assert_eq!(grid.cell(i).entropy(), Some(0));
    }
}

#[test]
fn seeded_draws_below_bound() {
    let mut rng = SeededRandom::new(5);
    for bound in 1..40usize {
        assert!(rng.below(bound) < bound);
    }
    let mut again = SeededRandom::new(5);
    let mut first = SeededRandom::new(5);
    assert_eq!(again.below(1000), first.below(1000));
}

#[test]
fn thread_draws_below_bound() {
    let mut rng = ThreadRandom;
    for bound in 1..40usize {
        assert!(rng.below(bound) < bound);
    }
}

#[test]
fn uniform_observer_picks_held_value() {
    let mut seen = [false; 3];
    for seed in 0..40u64 {
        let mut cell = S3::with_states(&[0, 2]);
        UniformSetCollapseObserver.observe(&mut cell, &[], &mut SeededRandom::new(seed));
        assert!(cell == S3::state(0) || cell == S3::state(2));
        if cell == S3::state(0) {
            seen[0] = true;
        } else {
            seen[2] = true;
        }
    }
    assert!(seen[0] && seen[2]);
}

#[test]
fn grid_set_by_coordinate() {
    let mut grid = SquareGrid::new(4, 3, |_, _| 0u8);
    assert_eq!((grid.width(), grid.height()), (4, 3));
    grid.set((2, 1), 7);
    assert_eq!(*grid.get((2, 1)), 7);
    assert_eq!(*grid.cell(6), 7);
    assert_eq!(*grid.get((1, 2)), 0);
}

#[test]
fn built_rule_narrows_by_declarations() {
    // A allows B to its right: next to a B on the right, A|B keeps only A.
    let a = S2::state(0);
    let b = S2::state(1);
    let rule = SetCollapseRuleBuilder::<S2, SquareGrid<S2>, _>::new(UniformSetCollapseObserver)
        .allow(&a, &[(RIGHT, b)])
        .build();
    let mut cell = a | b;
    rule.collapse(&mut cell, &[Some(b), None]);
    assert_eq!(cell, a);
}

#[test]
fn undeclared_left_neighbour_is_contradiction() {
    let a = S2::state(0);
    let b = S2::state(1);
    let rule = SetCollapseRuleBuilder::<S2, SquareGrid<S2>, _>::new(UniformSetCollapseObserver)
        .allow(&b, &[(RIGHT, b)])
        .build();
    let mut grid = SquareGrid::new(2, 1, |x, _| if x == 0 { a } else { a | b });
    match collapse(&mut grid, &rule) {
        Ok(()) => panic!("expected a contradiction"),
        Err(e) => assert_eq!(e.coordinate, (1, 0)),
    }
}
