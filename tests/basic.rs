use kahuna::bitset_state::BitsetState;
use kahuna::collapse;
use kahuna::set_rule::{SetCollapseRuleBuilder, UniformSetCollapseObserver};
use kahuna::square_grid::SquareGrid;
use kahuna::{AllState, State};

type S = BitsetState<2>;
type TestGrid = SquareGrid<S>;

#[test]
fn test_basic() {
    let a = S::state(0);
    let b = S::state(1);
    let rule = SetCollapseRuleBuilder::<S, TestGrid, _>::new(UniformSetCollapseObserver)
        .allow(&a, &[((-1, 0), b), ((1, 0), b)])
        .allow(&b, &[((-1, 0), a), ((1, 0), a)])
        .build();
    let mut grid = SquareGrid::new(10, 10, |_, _| S::all());
    assert!(collapse(&mut grid, &rule).is_ok());
    for y in 0..10 {
        for x in 0..9 {
            assert_ne!(*grid.get((x, y)), S::all());
            assert_eq!(grid.get((x, y)).entropy(), Some(0));
        }
        for x in 0..9 {
            assert_ne!(grid.get((x, y)), grid.get((x + 1, y)));
        }
    }
}
