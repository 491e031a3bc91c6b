use sparse_forest::cs_mat::CsMat;
use sparse_forest::lil_mat::search_from;
use sparse_forest::{
    csrmat_from_index_value_pair_lists, csvec_dot_self, dense_add_assign_csvec,
    dense_add_assign_csvec_mul_scalar, dense_vec_l2_normalize, find_max, CsMatBaseTools,
    CsMatITools, DenseMat, LilMat, Real, Scalar, SparseVec, WeightMat,
};

#[derive(Clone, Copy, Debug, PartialEq)]
struct F(f32);

impl Scalar for F {
    fn zero_value() -> Self {
        F(0.0)
    }

    fn is_zero_spec(self) -> bool {
        self.0 == 0.0
    }

    fn plus_spec(self, rhs: Self) -> Self {
        F(self.0 + rhs.0)
    }

    fn times_spec(self, rhs: Self) -> Self {
        F(self.0 * rhs.0)
    }

    fn abs_spec(self) -> Self {
        F(self.0.abs())
    }

    fn le_spec(self, rhs: Self) -> bool {
        self.0 <= rhs.0
    }

    fn zero() -> Self {
        F(0.0)
    }

    fn is_zero(self) -> bool {
        self.0 == 0.0
    }

    fn plus(self, rhs: Self) -> Self {
        F(self.0 + rhs.0)
    }

    fn times(self, rhs: Self) -> Self {
        F(self.0 * rhs.0)
    }

    fn abs(self) -> Self {
        F(self.0.abs())
    }

    fn le(self, rhs: Self) -> bool {
        self.0 <= rhs.0
    }
}

impl Real for F {
    fn from_count_spec(n: usize) -> Self {
        F(n as f32)
    }

    fn nan_value() -> Self {
        F(f32::NAN)
    }

    fn div_spec(self, rhs: Self) -> Self {
        F(self.0 / rhs.0)
    }

    fn sqrt_spec(self) -> Self {
        F(self.0.sqrt())
    }

    fn exp_spec(self) -> Self {
        F(self.0.exp())
    }

    fn from_count(n: usize) -> Self {
        F(n as f32)
    }

    fn nan() -> Self {
        F(f32::NAN)
    }

    fn div(self, rhs: Self) -> Self {
        F(self.0 / rhs.0)
    }

    fn sqrt(self) -> Self {
        F(self.0.sqrt())
    }

    fn exp(self) -> Self {
        F(self.0.exp())
    }
}

#[derive(Clone, Copy, Debug, PartialEq)]
struct D(f64);

impl Scalar for D {
    fn zero_value() -> Self {
        D(0.0)
    }

    fn is_zero_spec(self) -> bool {
        self.0 == 0.0
    }

    fn plus_spec(self, rhs: Self) -> Self {
        D(self.0 + rhs.0)
    }

    fn times_spec(self, rhs: Self) -> Self {
        D(self.0 * rhs.0)
    }

    fn abs_spec(self) -> Self {
        D(self.0.abs())
    }

    fn le_spec(self, rhs: Self) -> bool {
        self.0 <= rhs.0
    }

    fn zero() -> Self {
        D(0.0)
    }

    fn is_zero(self) -> bool {
        self.0 == 0.0
    }

    fn plus(self, rhs: Self) -> Self {
        D(self.0 + rhs.0)
    }

    fn times(self, rhs: Self) -> Self {
        D(self.0 * rhs.0)
    }

    fn abs(self) -> Self {
        D(self.0.abs())
    }

    fn le(self, rhs: Self) -> bool {
        self.0 <= rhs.0
    }
}

impl Real for D {
    fn from_count_spec(n: usize) -> Self {
        D(n as f64)
    }

    fn nan_value() -> Self {
        D(f64::NAN)
    }

    fn div_spec(self, rhs: Self) -> Self {
        D(self.0 / rhs.0)
    }

    fn sqrt_spec(self) -> Self {
        D(self.0.sqrt())
    }

    fn exp_spec(self) -> Self {
        D(self.0.exp())
    }

    fn from_count(n: usize) -> Self {
        D(n as f64)
    }

    fn nan() -> Self {
        D(f64::NAN)
    }

    fn div(self, rhs: Self) -> Self {
        D(self.0 / rhs.0)
    }

    fn sqrt(self) -> Self {
        D(self.0.sqrt())
    }

    fn exp(self) -> Self {
        D(self.0.exp())
    }
}

fn fs(values: Vec<f32>) -> Vec<F> {
    values.into_iter().map(F).collect()
}

fn ds(values: Vec<f64>) -> Vec<D> {
    values.into_iter().map(D).collect()
}

fn dense(rows: usize, cols: usize, values: Vec<f32>) -> DenseMat<F> {
    DenseMat::from_vec(rows, cols, fs(values)).unwrap()
}

fn four_columns(dim: usize) -> Vec<SparseVec<F>> {
    vec![
        SparseVec::new(dim, vec![1, 3], fs(vec![1., 3.])),
        SparseVec::new(dim, vec![0], fs(vec![2.])),
        SparseVec::new(dim, vec![], fs(vec![])),
        SparseVec::new(dim, vec![2, 3], fs(vec![4., 5.])),
    ]
}

fn sample_csr() -> CsMat<i32> {
    CsMat::new(
        (3, 3),
        vec![0, 2, 4, 5],
        vec![0, 1, 0, 2, 2],
        vec![1, 2, 3, 4, 5],
    )
}

#[test]
fn test_csrmat_from_index_value_pair_lists() {
    let mat = vec![
        vec![(0u32, 1), (1, 2)],
        vec![(0, 3), (2, 4)],
        vec![(2, 5)],
    ];
    assert_eq!(
        CsMat::new(
            (3, 5),
            vec![0, 2, 4, 5],
            vec![0, 1, 0, 2, 2],
            vec![1, 2, 3, 4, 5],
        ),
        csrmat_from_index_value_pair_lists(mat, 5)
    );
}

#[test]
fn test_copy_outer_dims() {
    let mat = sample_csr();
    assert_eq!(
        CsMat::new(
            (4, 3),
            vec![0, 2, 3, 3, 5],
            vec![0, 1, 2, 0, 2],
            vec![1, 2, 5, 3, 4],
        ),
        mat.copy_outer_dims(&[0, 2, 3, 1])
    );
}

#[test]
fn test_copy_outer_dims_repeats_and_empty_selection() {
    let mat = sample_csr();
    assert_eq!(
        CsMat::new(
            (3, 3),
            vec![0, 2, 4, 6],
            vec![0, 2, 0, 2, 0, 1],
            vec![3, 4, 3, 4, 1, 2],
        ),
        mat.copy_outer_dims(&[1, 1, 0])
    );
    let none = mat.copy_outer_dims(&[]);
    assert_eq!(CsMat::new((0, 3), vec![0], vec![], vec![]), none);
    assert_eq!(0, none.nnz());
}

#[test]
fn test_copy_outer_dims_of_column_major_is_row_major() {
    let copied = sample_csr().transpose_into().copy_outer_dims(&[2]);
    assert!(copied.is_csr());
    assert_eq!(CsMat::new((1, 3), vec![0, 1], vec![2], vec![5]), copied);
}

#[test]
fn test_remap_inner_indices() {
    let mat = sample_csr();
    let expected_mat = CsMat::new(
        (3, 2000),
        vec![0, 2, 4, 5],
        vec![10, 100, 10, 1000, 1000],
        vec![1, 2, 3, 4, 5],
    );

    assert_eq!(
        expected_mat.clone(),
        mat.clone().remap_inner_indices(&vec![10, 100, 1000], 2000)
    );
    assert_eq!(
        expected_mat.transpose_into(),
        mat.transpose_into()
            .remap_inner_indices(&vec![10, 100, 1000], 2000)
    );
}

#[test]
fn test_shrink_inner_indices() {
    let mat = CsMat::new(
        (3, 2000),
        vec![0, 2, 4, 5],
        vec![10, 100, 10, 1000, 1000],
        vec![1, 2, 3, 4, 5],
    );
    let expected_mat = sample_csr();
    assert_eq!(
        (expected_mat.clone(), vec![10, 100, 1000]),
        mat.clone().shrink_inner_indices()
    );
    assert_eq!(
        (expected_mat.transpose_into(), vec![10, 100, 1000]),
        mat.transpose_into().shrink_inner_indices()
    );
}

#[test]
fn test_shrink_orders_indices_that_first_occur_out_of_order() {
    let mat = CsMat::new(
        (2, 2000),
        vec![0, 2, 4],
        vec![100, 1000, 10, 100],
        vec![1, 2, 3, 4],
    );
    let (small, new_to_old) = mat.shrink_inner_indices();
    assert_eq!(vec![10, 100, 1000], new_to_old);
    assert_eq!(
        CsMat::new((2, 3), vec![0, 2, 4], vec![1, 2, 0, 1], vec![1, 2, 3, 4]),
        small
    );
}

#[test]
fn test_shrink_then_remap_restores_both_orientations() {
    let mat = CsMat::new(
        (3, 2000),
        vec![0, 2, 4, 5],
        vec![10, 100, 10, 1000, 1000],
        vec![1, 2, 3, 4, 5],
    );
    let (small, new_to_old) = mat.clone().shrink_inner_indices();
    assert_eq!(mat, small.remap_inner_indices(&new_to_old, 2000));

    let flipped = mat.transpose_into();
    let (small, new_to_old) = flipped.clone().shrink_inner_indices();
    assert!(!small.is_csr());
    assert_eq!(3, small.inner_dims());
    assert_eq!(flipped, small.remap_inner_indices(&new_to_old, 2000));
}

#[test]
fn test_shrink_of_matrix_without_values() {
    let mat: CsMat<i32> = CsMat::new((2, 7), vec![0, 0, 0], vec![], vec![]);
    let (small, new_to_old) = mat.shrink_inner_indices();
    assert_eq!(Vec::<u32>::new(), new_to_old);
    assert_eq!(CsMat::new((2, 0), vec![0, 0, 0], vec![], vec![]), small);
}

#[test]
fn test_cs_mat_try_new_checks_the_layout() {
    assert!(CsMat::try_new((3, 3), vec![0, 2, 4, 5], vec![0, 1, 0, 2, 2], vec![1, 2, 3, 4, 5]).is_some());
    assert!(CsMat::try_new((3, 3), vec![0, 2, 4], vec![0, 1, 0, 2], vec![1, 2, 3, 4]).is_none());
    assert!(CsMat::try_new((2, 3), vec![0, 2, 4], vec![1, 0, 0, 2], vec![1, 2, 3, 4]).is_none());
    assert!(CsMat::try_new((2, 3), vec![0, 2, 4], vec![0, 0, 0, 2], vec![1, 2, 3, 4]).is_none());
    assert!(CsMat::try_new((2, 2), vec![0, 2, 4], vec![0, 1, 0, 2], vec![1, 2, 3, 4]).is_none());
    assert!(CsMat::try_new((2, 3), vec![0, 2, 4], vec![0, 1, 0, 2], vec![1, 2, 3]).is_none());
    assert!(CsMat::try_new((2, 3), vec![1, 2, 4], vec![0, 1, 0, 2], vec![1, 2, 3, 4]).is_none());
    assert!(CsMat::try_new((2, 3), vec![0, 3, 2], vec![0, 1], vec![1, 2]).is_none());
}

#[test]
fn test_cs_mat_shape_follows_orientation() {
    let mat = CsMat::new((2, 5), vec![0, 1, 2], vec![4, 0], vec![7, 8]);
    assert_eq!((2, 5), (mat.rows(), mat.cols()));
    assert_eq!((2, 5), (mat.outer_dims(), mat.inner_dims()));
    let flipped = mat.transpose_into();
    assert_eq!((5, 2), (flipped.rows(), flipped.cols()));
    assert_eq!((2, 5), (flipped.outer_dims(), flipped.inner_dims()));
    let (indptr, indices, data) = flipped.into_raw_storage();
    assert_eq!((vec![0, 1, 2], vec![4, 0], vec![7, 8]), (indptr, indices, data));
}

#[test]
fn test_dense_add_assign_csvec() {
    let mut dense = vec![1, 2, 3, 4, 5];
    let sparse = SparseVec::new(5, vec![1, 3], vec![6, 7]);
    dense_add_assign_csvec(&mut dense, &sparse);
    assert_eq!(vec![1, 2 + 6, 3, 4 + 7, 5], dense);
}

#[test]
fn test_dense_add_assign_csvec_mul_scalar() {
    let mut dense = vec![1, 2, 3, 4, 5];
    let sparse = SparseVec::new(5, vec![1, 3], vec![6, 7]);
    dense_add_assign_csvec_mul_scalar(&mut dense, &sparse, 2);
    assert_eq!(vec![1, 2 + 6 * 2, 3, 4 + 7 * 2, 5], dense);
}

#[test]
fn test_dense_vec_l2_normalize() {
    let mut v = ds(vec![1., 2., 4., 6., 8.]);
    dense_vec_l2_normalize(&mut v);
    assert_eq!(ds(vec![1. / 11., 2. / 11., 4. / 11., 6. / 11., 8. / 11.]), v);
}

#[test]
fn test_dense_vec_l2_normalize_of_tiny_vector_is_zero() {
    let mut v = ds(vec![0.000_001, 0.000_002]);
    dense_vec_l2_normalize(&mut v);
    assert_eq!(ds(vec![0., 0.]), v);

    let mut v = ds(vec![0., 0., 0.]);
    dense_vec_l2_normalize(&mut v);
    assert_eq!(ds(vec![0., 0., 0.]), v);
}

#[test]
fn test_find_max() {
    assert_eq!(Some((D(3.), 0)), find_max(&ds(vec![3.])));
    assert_eq!(
        Some((D(10.), 4)),
        find_max(&ds(vec![3., 5., 1., 5., 10., 0.]))
    );
    assert_eq!(None, find_max(&ds(vec![])));
}

#[test]
fn test_find_max_returns_last_of_equal_values() {
    assert_eq!(Some((7, 3)), find_max(&vec![7, 2, 7, 7, 1]));
    assert_eq!(Some((-1, 1)), find_max(&vec![-5i64, -1]));
}

#[test]
fn test_csvec_dot_self() {
    let v = SparseVec::new(9, vec![1, 4, 8], vec![2, -3, 4]);
    assert_eq!(4 + 9 + 16, csvec_dot_self(&v));
    assert_eq!(0, csvec_dot_self(&SparseVec::<i32>::new(9, vec![], vec![])));
}

#[test]
fn test_sparse_vec_try_new_and_views() {
    assert!(SparseVec::try_new(4, vec![0, 3], vec![1, 2]).is_some());
    assert!(SparseVec::try_new(4, vec![0, 4], vec![1, 2]).is_none());
    assert!(SparseVec::try_new(4, vec![3, 0], vec![1, 2]).is_none());
    assert!(SparseVec::try_new(4, vec![1, 1], vec![1, 2]).is_none());
    assert!(SparseVec::try_new(4, vec![1], vec![1, 2]).is_none());
    assert!(SparseVec::<i32>::try_new(0, vec![], vec![]).is_some());

    let v = SparseVec::new(5, vec![1, 3], vec![6, 7]);
    assert_eq!(5, v.dim());
    assert_eq!(2, v.nnz());
    assert_eq!(&vec![1, 3], v.indices());
    assert_eq!(&vec![6, 7], v.data());
    assert_eq!(vec![0, 6, 0, 7, 0], v.to_dense());
    assert_eq!(6 * 20 + 7 * 40, v.dot_dense(&vec![10, 20, 30, 40, 50]));
}

#[test]
fn test_search_from() {
    let inds = vec![2, 5, 9, 14];
    assert_eq!((1, true), search_from(&inds, 0, 5));
    assert_eq!((2, false), search_from(&inds, 0, 6));
    assert_eq!((0, false), search_from(&inds, 0, 1));
    assert_eq!((4, false), search_from(&inds, 0, 99));
    assert_eq!((2, false), search_from(&inds, 2, 5));
    assert_eq!((3, true), search_from(&inds, 3, 14));
    assert_eq!((4, false), search_from(&inds, 4, 14));
}

#[test]
fn test_lil_mat_density() {
    let mat = LilMat::from_columns(&four_columns(5));
    assert_eq!(D(5. / (4. * 5.)), mat.density::<D>())
}

#[test]
fn test_lil_mat_density_without_places_is_undefined() {
    let mat = LilMat::<F>::new((0, 0));
    assert!(mat.density::<D>().0.is_nan());
    let empty = LilMat::<F>::new((3, 2));
    assert_eq!(D(0.), empty.density::<D>());
}

#[test]
fn test_lil_mat_construction_and_to_dense() {
    let mut mat = LilMat::<F>::new((4, 5));
    let mut array = DenseMat::<F>::zeros(4, 5);

    {
        assert!(mat.to_dense().as_vec().iter().all(|v| v.0 == 0.0));
        mat.assign_to_dense(&mut array);
        assert!(array.as_vec().iter().all(|v| v.0 == 0.0));
    }

    {
        mat.append_value(0, 1, F(2.0));
        mat.append_value(1, 0, F(1.0));
        mat.append_value(2, 3, F(4.0));
        mat.append_value(3, 0, F(3.0));
        mat.append_value(3, 3, F(5.0));

        let expected_array = dense(
            4,
            5,
            vec![
                0., 2., 0., 0., 0., //
                1., 0., 0., 0., 0., //
                0., 0., 0., 4., 0., //
                3., 0., 0., 5., 0.,
            ],
        );

        assert_eq!(expected_array, mat.to_dense());

        mat.assign_to_dense(&mut array);
        assert_eq!(expected_array, array);

        let mut columns = four_columns(4);
        columns.push(SparseVec::new(4, vec![], fs(vec![])));
        assert_eq!(expected_array, LilMat::from_columns(&columns).to_dense());
    }
}

#[test]
fn test_lil_mat_t_dot_csvec() {
    let csvec = SparseVec::new(4, vec![0, 2, 3], fs(vec![1., 2., 3.]));
    let mut mat = LilMat::<F>::new((4, 5));
    assert_eq!(fs(vec![0., 0., 0., 0., 0.]), mat.t_dot_csvec(&csvec));

    mat.append_value(0, 1, F(1.));
    mat.append_value(0, 3, F(3.));
    mat.append_value(1, 0, F(2.));
    mat.append_value(3, 2, F(4.));
    mat.append_value(3, 3, F(5.));

    assert_eq!(
        fs(vec![0., 1., 3. * 4., 3. * 1. + 5. * 3., 0.]),
        mat.t_dot_csvec(&csvec)
    );
}

#[test]
fn test_append_value_drops_zeros() {
    let mut mat = LilMat::<F>::new((2, 2));
    mat.append_value(0, 0, F(0.0));
    mat.append_value(1, 1, F(-0.0));
    assert_eq!(0, mat.nnz());
    mat.append_value(0, 1, F(7.0));
    mat.append_value(0, 0, F(0.0));
    assert_eq!(1, mat.nnz());
    assert_eq!(vec![(0, 1, F(7.0))], mat.triplets());
    assert_eq!((2, 2), mat.shape());
    assert_eq!((2, 2), (mat.rows(), mat.cols()));
}

#[test]
fn test_from_columns_stores_rows_in_order_and_drops_zeros() {
    let columns = vec![
        SparseVec::new(3, vec![0, 2], vec![5, 0]),
        SparseVec::new(3, vec![0, 1, 2], vec![6, 7, 8]),
    ];
    let mat = LilMat::from_columns(&columns);
    assert_eq!((3, 2), mat.shape());
    assert_eq!(vec![(0, 0, 5), (0, 1, 6), (1, 1, 7), (2, 1, 8)], mat.triplets());
    assert!(mat.check());

    let none = LilMat::<i32>::from_columns(&vec![]);
    assert_eq!((0, 0), none.shape());
    assert_eq!(0, none.nnz());
}

#[test]
fn test_lil_mat_raw_parts() {
    let mat = LilMat::from_columns(&four_columns(4));
    let (indptr, outer, inner, data) = mat.clone().into_raw_parts();
    assert_eq!(vec![0, 1, 2, 3, 5], indptr);
    assert_eq!(vec![0, 1, 2, 3], outer);
    assert_eq!(vec![1, 0, 3, 0, 3], inner);
    assert_eq!(fs(vec![2., 1., 4., 3., 5.]), data);

    let again = LilMat::from_raw_parts((4, 4), indptr, outer, inner, data).unwrap();
    assert_eq!(mat.triplets(), again.triplets());

    assert!(LilMat::from_raw_parts((4, 4), vec![0, 1], vec![0], vec![4], vec![1]).is_none());
    assert!(LilMat::from_raw_parts((4, 4), vec![0, 1], vec![4], vec![0], vec![1]).is_none());
    assert!(LilMat::from_raw_parts((4, 4), vec![0, 1], vec![0], vec![0], vec![0]).is_none());
    assert!(LilMat::from_raw_parts((4, 4), vec![0, 2], vec![0], vec![1, 1], vec![1, 2]).is_none());
    assert!(LilMat::from_raw_parts((4, 4), vec![0, 1, 1], vec![0, 1], vec![1], vec![1]).is_none());
    assert!(LilMat::from_raw_parts((4, 4), vec![0, 1, 2], vec![1, 0], vec![1, 1], vec![1, 2]).is_none());
    assert!(LilMat::from_raw_parts((4, 4), vec![0, 1], vec![0, 1], vec![1], vec![1]).is_none());
    assert!(LilMat::<i32>::from_raw_parts((4, 4), vec![0], vec![], vec![], vec![]).is_some());
}

#[test]
fn test_lil_mat_mem_size() {
    let mat = LilMat::from_columns(&four_columns(4));
    let word = std::mem::size_of::<usize>();
    assert_eq!(5 * word + 4 * 4 + 5 * 4 + 5 * 4, mat.mem_size());
    assert_eq!(Some(mat.mem_size()), mat.mem_size_checked());
    assert_eq!(word, LilMat::<F>::with_capacity((9, 9), 3, 3).mem_size());
}

#[test]
fn test_dense_mat_places() {
    assert!(DenseMat::from_vec(2, 3, vec![1, 2, 3, 4, 5]).is_none());
    let mut m = DenseMat::from_vec(2, 3, vec![1, 2, 3, 4, 5, 6]).unwrap();
    assert_eq!((2, 3), m.shape());
    assert_eq!(6, m.get(1, 2));
    assert_eq!(4, m.get(1, 0));
    m.set(0, 2, 9);
    assert_eq!(vec![1, 2, 9, 4, 5, 6], m.into_vec());
}

#[test]
fn test_weight_mat_from_rows_picks_the_smaller_form() {
    let full = vec![
        SparseVec::new(2, vec![0, 1], fs(vec![1., 2.])),
        SparseVec::new(2, vec![0, 1], fs(vec![3., 4.])),
    ];
    let w = WeightMat::from_rows(&full);
    assert!(w.is_dense());
    assert_eq!((2, 2), w.shape());
    assert_eq!(F(1.), w.density::<F>());

    let thin = vec![
        SparseVec::new(1000, vec![7], fs(vec![1.])),
        SparseVec::new(1000, vec![], fs(vec![])),
    ];
    let w = WeightMat::from_rows(&thin);
    assert!(!w.is_dense());
    assert_eq!((1000, 2), w.shape());
    assert_eq!(F(1. / 2000.), w.density::<F>());
}

#[test]
fn test_weight_mat_densify_keeps_the_product() {
    let rows = vec![
        SparseVec::new(1000, vec![7, 9], fs(vec![1., 2.])),
        SparseVec::new(1000, vec![9], fs(vec![3.])),
    ];
    let vec = SparseVec::new(1000, vec![0, 9], fs(vec![5., 7.]));
    let mut w = WeightMat::from_rows(&rows);
    assert!(!w.is_dense());
    assert_eq!(fs(vec![14., 21.]), w.t_dot_vec(&vec));
    w.densify();
    assert!(w.is_dense());
    assert_eq!((1000, 2), w.shape());
    assert_eq!(fs(vec![14., 21.]), w.t_dot_vec(&vec));
    w.densify();
    assert!(w.is_dense());
    assert_eq!(fs(vec![14., 21.]), w.t_dot_vec(&vec));
    assert!(w.check());
}
