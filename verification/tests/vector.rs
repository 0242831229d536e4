use sparse_vec::SpVector;

fn vec_a() -> SpVector<f64> {
    SpVector::create_new_raw(vec![(1, 2.0), (3, 1.0)])
}

fn vec_b() -> SpVector<f64> {
    SpVector::create_new_raw(vec![(3, 4.0), (5, 1.0)])
}

#[test]
fn scalar_of_two_vectors_sharing_one_dimension() {
    let a = vec_a();
    let b = vec_b();
    assert_eq!(a.scalar(&b), 4.0);
    assert!(a.overlaps_with(&b));
    assert!(a.could_overlap(&b));
}

#[test]
fn disjoint_ranges_give_zero() {
    let a: SpVector<f64> = SpVector::create_new_raw(vec![(1, 1.0)]);
    let b: SpVector<f64> = SpVector::create_new_raw(vec![(2, 1.0)]);
    assert!(!a.could_overlap(&b));
    assert!(!a.overlaps_with(&b));
    assert_eq!(a.scalar(&b), 0.0);
    assert_eq!(a.cosine(&b), 0.0);
}

#[test]
fn empty_vector_overlaps_nothing() {
    let e: SpVector<f64> = SpVector::empty();
    let b = vec_b();
    assert!(e.is_empty());
    assert_eq!(e.dim_count(), 0);
    assert_eq!(e.get_length(), 0.0);
    assert!(!e.overlaps_with(&b));
    assert!(!b.overlaps_with(&e));
    assert!(!e.could_overlap(&b));
    assert_eq!(e.scalar(&b), 0.0);
    assert_eq!(b.scalar(&e), 0.0);
    assert_eq!(e.cosine(&b), 0.0);
    assert_eq!(e.get_dim(3), None);
    assert!(!e.has_dim(3));
    assert_eq!(e.first_dim(), None);
    assert_eq!(e.last_dim(), None);
    let e2: SpVector<f64> = SpVector::empty();
    assert!(!e.overlaps_with(&e2));
    assert_eq!(e.scalar(&e2), 0.0);
}

#[test]
fn default_is_the_empty_vector() {
    let d: SpVector<f64> = SpVector::default();
    assert!(d.is_empty());
    assert_eq!(d.get_length(), 0.0);
    assert!(d == SpVector::empty());
}

#[test]
fn delete_dim_keeps_the_entry_at_zero() {
    let mut a = vec_a();
    assert_eq!(a.dim_count(), 2);
    a.delete_dim(3);
    assert_eq!(a.dim_count(), 2);
    assert_eq!(a.get_dim(3), Some(0.0));
    assert!(a.has_dim(3));
    assert_eq!(a.get_dim(1), Some(2.0));
    assert_eq!(a.get_length(), 4.0);
    assert!(!a.is_empty());
}

#[test]
fn delete_dim_of_an_absent_dimension_adds_a_zero_entry() {
    let mut a = vec_a();
    a.delete_dim(2);
    assert_eq!(a.as_vec(), &vec![(1, 2.0), (2, 0.0), (3, 1.0)]);
    assert_eq!(a.get_length(), 5.0);
}

#[test]
fn create_new_raw_sorts_and_keeps_the_last_of_each_dimension() {
    let v: SpVector<f64> =
        SpVector::create_new_raw(vec![(7, 1.0), (2, 2.0), (7, 3.0), (0, 4.0), (2, 5.0), (9, 6.0)]);
    assert_eq!(v.as_vec(), &vec![(0, 4.0), (2, 5.0), (7, 3.0), (9, 6.0)]);
    assert_eq!(v.dim_count(), 4);
    assert!(v.dim_count() <= 6);
    let dims: Vec<u32> = v.as_vec().iter().map(|e| e.0).collect();
    assert!(dims.windows(2).all(|w| w[0] < w[1]));
    assert_eq!(v.get_length(), 16.0 + 25.0 + 9.0 + 36.0);
}

#[test]
fn create_new_raw_of_nothing_is_empty() {
    let v: SpVector<f64> = SpVector::create_new_raw(Vec::new());
    assert!(v.is_empty());
    assert_eq!(v.get_length(), 0.0);
}

#[test]
fn create_new_raw_of_descending_input() {
    let input: Vec<(u32, f32)> = (0..200u32).rev().map(|d| (d, d as f32)).collect();
    let v = SpVector::create_new_raw(input);
    assert_eq!(v.dim_count(), 200);
    let expected: Vec<(u32, f32)> = (0..200u32).map(|d| (d, d as f32)).collect();
    assert_eq!(v.as_vec(), &expected);
    assert_eq!(v.first_dim(), Some(0));
    assert_eq!(v.last_dim(), Some(199));
}

#[test]
fn length_is_the_sum_of_squares() {
    let v: SpVector<f64> = SpVector::create_new_raw(vec![(1, 3.0), (2, 4.0)]);
    assert_eq!(v.get_length(), 25.0);
    assert_eq!(v.calc_len(), 25.0);
}

#[test]
fn update_twice_is_update_once() {
    let mut v: SpVector<f64> = SpVector::new_raw(vec![(5, 1.5), (1, 2.0), (5, 0.5), (3, 1.0)], 0.0);
    v.update();
    let once = v.clone();
    v.update();
    assert_eq!(v.as_vec(), once.as_vec());
    assert_eq!(v.get_length(), once.get_length());
    assert_eq!(v.as_vec(), &vec![(1, 2.0), (3, 1.0), (5, 0.5)]);
    assert_eq!(v.get_length(), 4.0 + 1.0 + 0.25);
}

#[test]
fn sort_leaves_the_length_alone() {
    let mut v: SpVector<f64> = SpVector::new_raw(vec![(4, 1.0), (2, 2.0)], 9.0);
    v.sort();
    assert_eq!(v.as_vec(), &vec![(2, 2.0), (4, 1.0)]);
    assert_eq!(v.get_length(), 9.0);
}

#[test]
fn new_raw_takes_entries_and_length_as_given() {
    let v: SpVector<f64> = SpVector::new_raw(vec![(1, 2.0), (3, 1.0)], 42.0);
    assert_eq!(v.as_vec(), &vec![(1, 2.0), (3, 1.0)]);
    assert_eq!(v.get_length(), 42.0);
    assert_eq!(v.dim_count(), 2);
}

#[test]
fn as_vec_mut_then_update() {
    let mut v = vec_a();
    v.as_vec_mut().push((0, 3.0));
    v.as_vec_mut()[0].1 = 1.0;
    assert_eq!(v.get_length(), 5.0);
    v.update();
    assert_eq!(v.as_vec(), &vec![(0, 3.0), (1, 1.0), (3, 1.0)]);
    assert_eq!(v.get_length(), 11.0);
}

#[test]
fn get_after_set_returns_the_weight() {
    let mut v = vec_a();
    v.set_dim(2, 7.0);
    assert_eq!(v.get_dim(2), Some(7.0));
    assert_eq!(v.as_vec(), &vec![(1, 2.0), (2, 7.0), (3, 1.0)]);
    v.set_dim(3, 9.0);
    assert_eq!(v.get_dim(3), Some(9.0));
    assert_eq!(v.dim_count(), 3);
    v.set_dim(0, 1.0);
    assert_eq!(v.get_dim(0), Some(1.0));
    v.set_dim(100, 2.0);
    assert_eq!(v.get_dim(100), Some(2.0));
    assert_eq!(v.as_vec(), &vec![(0, 1.0), (1, 2.0), (2, 7.0), (3, 9.0), (100, 2.0)]);
    assert_eq!(v.get_length(), 1.0 + 4.0 + 49.0 + 81.0 + 4.0);
    assert_eq!(v.get_dim(50), None);
}

#[test]
fn set_dim_on_an_empty_vector() {
    let mut v: SpVector<f64> = SpVector::empty();
    v.set_dim(4, 2.0);
    assert_eq!(v.as_vec(), &vec![(4, 2.0)]);
    assert_eq!(v.get_length(), 4.0);
    assert_eq!(v.first_dim(), Some(4));
    assert_eq!(v.last_dim(), Some(4));
}

#[test]
fn set_dim_normalizes_an_unsorted_vector() {
    let mut v: SpVector<f64> = SpVector::new_raw(vec![(9, 1.0), (2, 2.0), (9, 3.0)], 0.0);
    v.set_dim(2, 5.0);
    assert_eq!(v.as_vec(), &vec![(2, 5.0), (9, 3.0)]);
    assert_eq!(v.get_length(), 34.0);
}

#[test]
fn dimensions_above_32_bits_count_by_their_low_bits() {
    if usize::BITS > 32 {
        let big = (1u64 << 32) as usize + 5;
        let mut v: SpVector<f64> = SpVector::empty();
        v.set_dim(big, 2.0);
        assert_eq!(v.as_vec(), &vec![(5, 2.0)]);
        assert_eq!(v.get_dim(5), Some(2.0));
        assert_eq!(v.get_dim(big), Some(2.0));
        assert!(v.has_dim(big));
        assert_eq!(v.dim_index(big), Some(0));
    }
}

#[test]
fn dim_index_finds_each_dimension() {
    let v: SpVector<f64> =
        SpVector::create_new_raw(vec![(2, 1.0), (4, 1.0), (6, 1.0), (8, 1.0), (10, 1.0)]);
    assert_eq!(v.dim_index(2), Some(0));
    assert_eq!(v.dim_index(4), Some(1));
    assert_eq!(v.dim_index(6), Some(2));
    assert_eq!(v.dim_index(8), Some(3));
    assert_eq!(v.dim_index(10), Some(4));
    assert_eq!(v.dim_index(0), None);
    assert_eq!(v.dim_index(5), None);
    assert_eq!(v.dim_index(11), None);
}

#[test]
fn first_and_last_dimension() {
    let v = vec_b();
    assert_eq!(v.first_dim(), Some(3));
    assert_eq!(v.last_dim(), Some(5));
}

#[test]
fn scalar_and_overlap_are_symmetric() {
    let a: SpVector<f64> =
        SpVector::create_new_raw(vec![(1, 0.5), (4, 2.0), (6, -3.0), (9, 1.25)]);
    let b: SpVector<f64> =
        SpVector::create_new_raw(vec![(0, 7.0), (4, 1.5), (5, 2.0), (6, 2.0), (12, 1.0)]);
    assert_eq!(a.scalar(&b), b.scalar(&a));
    assert_eq!(a.scalar(&b), 2.0 * 1.5 + -3.0 * 2.0);
    assert_eq!(a.overlaps_with(&b), b.overlaps_with(&a));
    assert_eq!(a.could_overlap(&b), b.could_overlap(&a));
    assert_eq!(a.cosine(&b), b.cosine(&a));
}

#[test]
fn scalar_equals_the_sum_over_all_dimensions() {
    let a: SpVector<f64> =
        SpVector::create_new_raw(vec![(3, 2.0), (0, 1.0), (17, 4.0), (8, 0.5), (11, 3.0)]);
    let b: SpVector<f64> =
        SpVector::create_new_raw(vec![(8, 6.0), (1, 9.0), (17, 0.25), (3, 1.0), (20, 2.0)]);
    let mut dense = 0.0;
    for d in 0..32usize {
        if let (Some(x), Some(y)) = (a.get_dim(d), b.get_dim(d)) {
            dense = dense + x * y;
        }
    }
    assert_eq!(a.scalar(&b), dense);
    assert_eq!(a.scalar(&b), 2.0 + 3.0 + 1.0);
}

#[test]
fn could_overlap_may_be_true_without_an_overlap() {
    let a: SpVector<f64> = SpVector::create_new_raw(vec![(1, 1.0), (5, 1.0)]);
    let b: SpVector<f64> = SpVector::create_new_raw(vec![(2, 1.0), (4, 1.0)]);
    assert!(a.could_overlap(&b));
    assert!(!a.overlaps_with(&b));
    assert_eq!(a.scalar(&b), 0.0);
    assert!(a.intersect_iter(&b).is_empty());
}

#[test]
fn could_overlap_holds_wherever_vectors_overlap() {
    let lists: Vec<Vec<(u32, f64)>> = vec![
        vec![],
        vec![(0, 1.0)],
        vec![(3, 1.0)],
        vec![(0, 1.0), (3, 1.0)],
        vec![(1, 1.0), (2, 1.0), (7, 1.0)],
        vec![(7, 1.0), (8, 1.0)],
        vec![(4, 1.0), (9, 1.0)],
    ];
    for x in &lists {
        for y in &lists {
            let a = SpVector::create_new_raw(x.clone());
            let b = SpVector::create_new_raw(y.clone());
            let shared = x.iter().any(|e| y.iter().any(|f| f.0 == e.0));
            assert_eq!(a.overlaps_with(&b), shared);
            if a.overlaps_with(&b) {
                assert!(a.could_overlap(&b));
            }
        }
    }
}

#[test]
fn could_overlap_at_the_ends_of_the_ranges() {
    let a: SpVector<f64> = SpVector::create_new_raw(vec![(1, 1.0), (5, 1.0)]);
    let b: SpVector<f64> = SpVector::create_new_raw(vec![(5, 1.0), (9, 1.0)]);
    let c: SpVector<f64> = SpVector::create_new_raw(vec![(6, 1.0), (9, 1.0)]);
    assert!(a.could_overlap(&b));
    assert!(b.could_overlap(&a));
    assert!(a.overlaps_with(&b));
    assert!(!a.could_overlap(&c));
    assert!(!c.could_overlap(&a));
}

#[test]
fn intersect_iter_yields_the_shared_dimensions_in_order() {
    let a: SpVector<f64> =
        SpVector::create_new_raw(vec![(1, 1.0), (2, 2.0), (5, 5.0), (8, 8.0), (9, 9.0)]);
    let b: SpVector<f64> =
        SpVector::create_new_raw(vec![(0, 0.5), (2, 20.0), (8, 80.0), (9, 90.0), (11, 1.0)]);
    assert_eq!(a.intersect_iter(&b), vec![(2, 2.0, 20.0), (8, 8.0, 80.0), (9, 9.0, 90.0)]);
    assert_eq!(b.intersect_iter(&a), vec![(2, 20.0, 2.0), (8, 80.0, 8.0), (9, 90.0, 9.0)]);
    assert_eq!(a.intersect_iter(&a).len(), 5);
}

#[test]
fn cosine_divides_by_the_product_of_the_lengths() {
    let a = vec_a();
    let b = vec_b();
    assert_eq!(a.get_length(), 5.0);
    assert_eq!(b.get_length(), 17.0);
    assert_eq!(a.cosine(&b), 4.0 / (5.0 * 17.0));
}

#[test]
fn cosine_of_a_vector_with_itself() {
    let a: SpVector<f64> = SpVector::create_new_raw(vec![(2, 2.0)]);
    assert_eq!(a.cosine(&a), 4.0 / 16.0);
}

#[test]
fn cosine_of_overlapping_zero_vectors_is_not_a_number() {
    let a: SpVector<f64> = SpVector::create_new_raw(vec![(1, 0.0), (2, 0.0)]);
    let b: SpVector<f64> = SpVector::create_new_raw(vec![(2, 0.0)]);
    assert!(a.could_overlap(&b));
    assert!(a.overlaps_with(&b));
    assert_eq!(a.scalar(&b), 0.0);
    assert!(a.cosine(&b).is_nan());
}

#[test]
fn add_assign_adds_place_by_place() {
    let mut a: SpVector<f64> = SpVector::create_new_raw(vec![(1, 2.0), (3, 1.0)]);
    let b: SpVector<f64> = SpVector::create_new_raw(vec![(1, 0.5), (3, 4.0)]);
    a.add_assign(&b);
    assert_eq!(a.as_vec(), &vec![(1, 2.5), (3, 5.0)]);
    assert_eq!(a.get_length(), 6.25 + 25.0);
}

#[test]
fn add_assign_goes_by_place_not_by_dimension() {
    let mut a: SpVector<f64> = SpVector::create_new_raw(vec![(1, 2.0), (3, 1.0)]);
    let b: SpVector<f64> = SpVector::create_new_raw(vec![(3, 4.0), (5, 1.0)]);
    a.add_assign(&b);
    assert_eq!(a.as_vec(), &vec![(1, 6.0), (3, 2.0)]);
    assert_eq!(a.get_length(), 40.0);
}

#[test]
fn equality_compares_the_entries_only() {
    let a: SpVector<f64> = SpVector::new_raw(vec![(1, 2.0), (3, 1.0)], 5.0);
    let b: SpVector<f64> = SpVector::new_raw(vec![(1, 2.0), (3, 1.0)], 0.0);
    let c: SpVector<f64> = SpVector::new_raw(vec![(1, 2.0), (3, 1.5)], 5.0);
    let d: SpVector<f64> = SpVector::new_raw(vec![(1, 2.0)], 5.0);
    let e: SpVector<f64> = SpVector::new_raw(vec![(1, 2.0), (4, 1.0)], 5.0);
    assert!(a == b);
    assert!(a != c);
    assert!(a != d);
    assert!(a != e);
}

#[test]
fn whole_number_weights() {
    let a: SpVector<u64> = SpVector::create_new_raw(vec![(3, 1), (1, 2)]);
    let b: SpVector<u64> = SpVector::create_new_raw(vec![(5, 1), (3, 4)]);
    assert_eq!(a.get_length(), 5);
    assert_eq!(b.get_length(), 17);
    assert_eq!(a.scalar(&b), 4);
    assert_eq!(a.cosine(&b), 0);
    assert!(a.overlaps_with(&b));
}

#[test]
fn single_precision_weights() {
    let a: SpVector<f32> = SpVector::create_new_raw(vec![(1, 2.0), (3, 1.0)]);
    let b: SpVector<f32> = SpVector::create_new_raw(vec![(3, 4.0), (5, 1.0)]);
    assert_eq!(a.scalar(&b), 4.0f32);
    assert_eq!(a.cosine(&b), 4.0f32 / 85.0f32);
}

#[test]
fn clone_keeps_entries_and_length() {
    let a = vec_a();
    let b = a.clone();
    assert_eq!(a.as_vec(), b.as_vec());
    assert_eq!(a.get_length(), b.get_length());
    assert!(a == b);
}

#[test]
fn overlap_of_large_vectors() {
    let evens: SpVector<f64> = SpVector::create_new_raw((0..1000u32).map(|d| (2 * d, 1.0)).collect());
    let odds: SpVector<f64> =
        SpVector::create_new_raw((0..1000u32).map(|d| (2 * d + 1, 1.0)).collect());
    let thirds: SpVector<f64> = SpVector::create_new_raw((0..700u32).map(|d| (3 * d, 2.0)).collect());
    assert!(evens.could_overlap(&odds));
    assert!(!evens.overlaps_with(&odds));
    assert_eq!(evens.scalar(&odds), 0.0);
    assert!(evens.overlaps_with(&thirds));
    assert_eq!(evens.scalar(&thirds), 2.0 * 334.0);
    assert_eq!(odds.scalar(&thirds), 2.0 * 333.0);
    assert_eq!(evens.get_length(), 1000.0);
    assert_eq!(thirds.get_length(), 2800.0);
}

#[test]
fn merge_of_lists_that_do_not_ascend() {
    let a: SpVector<f64> = SpVector::new_raw(vec![(5, 1.0), (1, 2.0)], 0.0);
    let b: SpVector<f64> = SpVector::new_raw(vec![(1, 3.0), (5, 4.0)], 0.0);
    assert_eq!(a.intersect_iter(&b), vec![(5, 1.0, 4.0)]);
    assert_eq!(b.intersect_iter(&a), vec![(5, 4.0, 1.0)]);
    assert_eq!(a.scalar(&b), 4.0);
    let c: SpVector<f64> = SpVector::new_raw(vec![(2, 1.0), (2, 2.0), (3, 1.0)], 0.0);
    let d: SpVector<f64> = SpVector::new_raw(vec![(2, 5.0), (3, 6.0), (2, 7.0)], 0.0);
    assert_eq!(c.intersect_iter(&d), vec![(2, 1.0, 5.0), (3, 1.0, 6.0)]);
    assert_eq!(d.intersect_iter(&c), vec![(2, 5.0, 1.0), (3, 6.0, 1.0)]);
}
