use sparse_vec::dim_iter::DimIter;
use sparse_vec::sp_vec::SpVector;
use sparse_vec::sparse_iter::SpVecIter;
use sparse_vec::weight_iter::WeightIter;

fn sample() -> SpVector<f64> {
    SpVector::create_new_raw(vec![(8, 0.5), (2, 1.5), (5, 0.0)])
}

#[test]
fn pairs_come_in_ascending_order() {
    let v = sample();
    let mut it = v.iter();
    assert_eq!(it.next(), Some((2, 1.5)));
    assert_eq!(it.next(), Some((5, 0.0)));
    assert_eq!(it.next(), Some((8, 0.5)));
    assert_eq!(it.next(), None);
    assert_eq!(it.next(), None);
}

#[test]
fn dimensions_are_the_first_halves() {
    let v = sample();
    let mut it = v.dimensions();
    assert_eq!(it.next(), Some(2));
    assert_eq!(it.next(), Some(5));
    assert_eq!(it.next(), Some(8));
    assert_eq!(it.next(), None);
}

#[test]
fn weights_are_the_second_halves() {
    let v = sample();
    let mut it = v.weights();
    assert_eq!(it.next(), Some(1.5));
    assert_eq!(it.next(), Some(0.0));
    assert_eq!(it.next(), Some(0.5));
    assert_eq!(it.next(), None);
}

#[test]
fn a_new_pass_begins_again() {
    let v = sample();
    let mut first = SpVecIter::new(&v);
    assert_eq!(first.next(), Some((2, 1.5)));
    let mut second = SpVecIter::new(&v);
    assert_eq!(second.next(), Some((2, 1.5)));
    assert_eq!(first.next(), Some((5, 0.0)));
    let mut dims = DimIter::new(&v);
    assert_eq!(dims.next(), Some(2));
    let mut weights = WeightIter::new(&v);
    assert_eq!(weights.next(), Some(1.5));
}

#[test]
fn a_pass_over_an_empty_vector_ends_at_once() {
    let v: SpVector<f64> = SpVector::empty();
    assert_eq!(v.iter().next(), None);
    assert_eq!(v.dimensions().next(), None);
    assert_eq!(v.weights().next(), None);
}
