use sparse_forest::{
    IndexValuePairs, IndexValuePairsMut, OwnedIndexValuePairs, Real, Scalar,
};

#[derive(Clone, Copy, Debug, PartialEq)]
struct D(f64);

impl Scalar for D {
    fn zero_value() -> Self {
        D(0.0)
    }

    fn is_zero_spec(self) -> bool {
        self.0 == 0.0
    }

    fn plus_spec(self, rhs: Self) -> Self {
        D(self.0 + rhs.0)
    }

    fn times_spec(self, rhs: Self) -> Self {
        D(self.0 * rhs.0)
    }

    fn abs_spec(self) -> Self {
        D(self.0.abs())
    }

    fn le_spec(self, rhs: Self) -> bool {
        self.0 <= rhs.0
    }

    fn zero() -> Self {
        D(0.0)
    }

    fn is_zero(self) -> bool {
        self.0 == 0.0
    }

    fn plus(self, rhs: Self) -> Self {
        D(self.0 + rhs.0)
    }

    fn times(self, rhs: Self) -> Self {
        D(self.0 * rhs.0)
    }

    fn abs(self) -> Self {
        D(self.0.abs())
    }

    fn le(self, rhs: Self) -> bool {
        self.0 <= rhs.0
    }
}

impl Real for D {
    fn from_count_spec(n: usize) -> Self {
        D(n as f64)
    }

    fn nan_value() -> Self {
        D(f64::NAN)
    }

    fn div_spec(self, rhs: Self) -> Self {
        D(self.0 / rhs.0)
    }

    fn sqrt_spec(self) -> Self {
        D(self.0.sqrt())
    }

    fn exp_spec(self) -> Self {
        D(self.0.exp())
    }

    fn from_count(n: usize) -> Self {
        D(n as f64)
    }

    fn nan() -> Self {
        D(f64::NAN)
    }

    fn div(self, rhs: Self) -> Self {
        D(self.0 / rhs.0)
    }

    fn sqrt(self) -> Self {
        D(self.0.sqrt())
    }

    fn exp(self) -> Self {
        D(self.0.exp())
    }
}

fn reals(pairs: Vec<(u32, f64)>) -> Vec<(u32, D)> {
    pairs.into_iter().map(|(i, v)| (i, D(v))).collect()
}

#[test]
fn test_is_valid_sparse_vec() {
    assert!(Vec::<(usize, f64)>::new().is_valid_sparse_vec(0));
    assert!(Vec::<(usize, f64)>::new().is_valid_sparse_vec(123));

    assert!(vec![(123u32, 123.)].is_valid_sparse_vec(124));
    assert!(!vec![(123u32, 123.)].is_valid_sparse_vec(123));

    assert!(vec![(1u32, 0.), (3, 0.), (5, 0.)].is_valid_sparse_vec(6));
    assert!(!vec![(1u32, 0.), (3, 0.), (5, 0.)].is_valid_sparse_vec(5));
    assert!(!vec![(1u32, 0.), (5, 0.), (3, 0.)].is_valid_sparse_vec(6));
}

#[test]
fn test_sort_by_index() {
    let mut pairs = vec![(1u32, 123.), (3, 321.), (2, 213.), (4, 432.)];
    pairs.sort_by_index();
    assert_eq!(vec![(1u32, 123.), (2, 213.), (3, 321.), (4, 432.)], pairs);
}

#[test]
fn test_l2_normalize() {
    let mut pairs = reals(vec![(1, 1.), (5, 2.), (50, 4.), (100, 6.), (1000, 8.)]);
    pairs.l2_normalize();
    assert_eq!(
        reals(vec![
            (1, 1. / 11.),
            (5, 2. / 11.),
            (50, 4. / 11.),
            (100, 6. / 11.),
            (1000, 8. / 11.),
        ]),
        pairs
    );

    let mut pairs = reals(vec![(1, 0.), (5, 0.), (50, 0.), (100, 0.), (1000, 0.)]);
    pairs.l2_normalize();
    assert_eq!(
        reals(vec![(1, 0.), (5, 0.), (50, 0.), (100, 0.), (1000, 0.),]),
        pairs
    );
}

#[test]
fn test_prune_with_threshold() {
    let mut v = reals(vec![(1, 0.0001), (5, 0.001), (50, 0.01), (100, -0.1)]);
    v.prune_with_threshold(D(0.01));
    assert_eq!(reals(vec![(50, 0.01), (100, -0.1)]), v);
}

#[test]
fn test_valid_vector_with_indices_swapped_or_repeated_is_not_valid() {
    let valid = vec![(1u32, 1.), (4, 2.), (7, 3.)];
    assert!(valid.is_valid_sparse_vec(8));
    assert!(valid.is_valid_sparse_vec(1000));
    assert!(!vec![(4u32, 1.), (1, 2.), (7, 3.)].is_valid_sparse_vec(8));
    assert!(!vec![(1u32, 1.), (7, 2.), (4, 3.)].is_valid_sparse_vec(8));
    assert!(!vec![(1u32, 1.), (1, 2.), (7, 3.)].is_valid_sparse_vec(8));
    assert!(!vec![(1u32, 1.), (4, 2.), (4, 3.)].is_valid_sparse_vec(8));
    assert!(!vec![(1usize, 1.), (4, 2.), (4, 3.)].is_valid_sparse_vec(8));
    assert!(vec![(1usize, 1.), (4, 2.), (5, 3.)].is_valid_sparse_vec(6));
    assert!(!vec![(0u32, 1.)].is_valid_sparse_vec(0));
}

#[test]
fn test_prune_keeps_the_order_of_what_it_keeps() {
    let mut v = vec![(9u32, -5), (2, 1), (7, 3), (3, -3), (1, 0), (8, 4)];
    v.prune_with_threshold(3);
    assert_eq!(vec![(9u32, -5), (7, 3), (3, -3), (8, 4)], v);

    let mut all = vec![(1usize, 2i64), (2, -2)];
    all.prune_with_threshold(0);
    assert_eq!(vec![(1usize, 2i64), (2, -2)], all);
    all.prune_with_threshold(3);
    assert!(all.is_empty());
}

#[test]
fn test_prune_drops_values_that_cannot_be_compared() {
    let mut v = reals(vec![(1, f64::NAN), (2, 1.0), (3, -2.0)]);
    v.prune_with_threshold(D(1.0));
    assert_eq!(reals(vec![(2, 1.0), (3, -2.0)]), v);
}

#[test]
fn test_sort_by_index_of_unordered_pairs() {
    let mut pairs = vec![(9u32, 'a'), (0, 'b'), (4, 'c'), (2, 'd')];
    pairs.sort_by_index();
    assert_eq!(vec![(0u32, 'b'), (2, 'd'), (4, 'c'), (9, 'a')], pairs);
    assert!(pairs.is_valid_sparse_vec(10));
}

#[test]
fn test_sum_of_squares() {
    assert_eq!(
        D(1. + 4. + 16.),
        sparse_forest::pairs::sum_of_squares(&reals(vec![(0, 1.), (3, -2.), (5, 4.)]))
    );
    assert_eq!(0, sparse_forest::pairs::sum_of_squares(&Vec::<(u32, i32)>::new()));
}

#[test]
fn test_integer_scalars_wrap() {
    assert_eq!(i32::MIN, i32::MAX.plus(1));
    assert_eq!(-2, i32::MAX.times(2));
    assert_eq!(i32::MIN, i32::MIN.abs());
    assert_eq!(5, (-5i32).abs());
    assert_eq!(5i64, (-5i64).abs());
    assert!(3i64.le(3));
    assert!(!4i64.le(3));
    assert!(0i64.is_zero());
    assert!(!1i32.is_zero());
    assert_eq!(0, i32::zero());
    assert_eq!(i64::MIN, i64::MAX.plus(1));
    assert_eq!(6, 2i64.times(3));
}
