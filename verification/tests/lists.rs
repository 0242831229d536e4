use sparse_vec::arith::{sum_products, sum_squares, zero_weight};
use sparse_vec::entries::{
    is_ascending, lower_bound_index, merge_later_wins, normalize, normalize_range, set_entry,
};

#[test]
fn is_ascending_wants_strictly_growing_dimensions() {
    let none: Vec<(u32, f64)> = vec![];
    assert!(is_ascending(&none));
    assert!(is_ascending(&vec![(4, 1.0)]));
    assert!(is_ascending(&vec![(1, 1.0), (2, 1.0), (9, 1.0)]));
    assert!(!is_ascending(&vec![(1, 1.0), (1, 2.0)]));
    assert!(!is_ascending(&vec![(1, 1.0), (3, 1.0), (2, 1.0)]));
}

#[test]
fn lower_bound_index_is_the_place_of_a_dimension() {
    let v: Vec<(u32, f64)> = vec![(2, 1.0), (4, 1.0), (6, 1.0)];
    assert_eq!(lower_bound_index(&v, 0), 0);
    assert_eq!(lower_bound_index(&v, 2), 0);
    assert_eq!(lower_bound_index(&v, 3), 1);
    assert_eq!(lower_bound_index(&v, 4), 1);
    assert_eq!(lower_bound_index(&v, 6), 2);
    assert_eq!(lower_bound_index(&v, 7), 3);
    let none: Vec<(u32, f64)> = vec![];
    assert_eq!(lower_bound_index(&none, 7), 0);
}

#[test]
fn set_entry_overwrites_or_puts_in() {
    let mut v: Vec<(u32, f64)> = vec![(2, 1.0), (6, 1.0)];
    set_entry(&mut v, 4, 3.0);
    assert_eq!(v, vec![(2, 1.0), (4, 3.0), (6, 1.0)]);
    set_entry(&mut v, 4, 5.0);
    assert_eq!(v, vec![(2, 1.0), (4, 5.0), (6, 1.0)]);
    set_entry(&mut v, 0, 7.0);
    set_entry(&mut v, 9, 8.0);
    assert_eq!(v, vec![(0, 7.0), (2, 1.0), (4, 5.0), (6, 1.0), (9, 8.0)]);
}

#[test]
fn normalize_sorts_and_keeps_the_last() {
    let v: Vec<(u32, f64)> = vec![(3, 1.0), (1, 2.0), (3, 4.0)];
    assert_eq!(normalize(&v), vec![(1, 2.0), (3, 4.0)]);
    let same: Vec<(u32, f64)> = vec![(6, 1.0), (6, 2.0), (6, 3.0)];
    assert_eq!(normalize(&same), vec![(6, 3.0)]);
}

#[test]
fn sums_start_at_zero() {
    let none: Vec<(u32, f64)> = vec![];
    assert_eq!(sum_squares(&none), 0.0);
    let no_pairs: Vec<(u32, f64, f64)> = vec![];
    assert_eq!(sum_products(&no_pairs), 0.0);
    assert_eq!(zero_weight::<f64>(), 0.0);
    assert_eq!(zero_weight::<u32>(), 0);
}

#[test]
fn sums_add_from_the_first_entry_on() {
    assert_eq!(sum_squares(&vec![(1, 1.0), (2, 2.0), (3, 3.0)]), 14.0);
    assert_eq!(sum_products(&vec![(1, 1.0, 2.0), (2, 3.0, 4.0)]), 14.0);
    let big = 1.0e16f64;
    assert_eq!(sum_squares(&vec![(1, 1.0e8), (2, 1.0), (3, 1.0)]), (big + 1.0) + 1.0);
}

#[test]
fn merge_later_wins_keeps_the_later_weight() {
    let earlier: Vec<(u32, f64)> = vec![(1, 1.0), (4, 1.0), (6, 1.0)];
    let later: Vec<(u32, f64)> = vec![(0, 2.0), (4, 2.0), (9, 2.0)];
    assert_eq!(
        merge_later_wins(&earlier, &later),
        vec![(0, 2.0), (1, 1.0), (4, 2.0), (6, 1.0), (9, 2.0)]
    );
    assert_eq!(
        merge_later_wins(&later, &earlier),
        vec![(0, 2.0), (1, 1.0), (4, 1.0), (6, 1.0), (9, 2.0)]
    );
    let none: Vec<(u32, f64)> = vec![];
    assert_eq!(merge_later_wins(&none, &later), later);
    assert_eq!(merge_later_wins(&earlier, &none), earlier);
}

#[test]
fn normalize_range_takes_the_entries_of_the_range_only() {
    let v: Vec<(u32, f64)> = vec![(9, 1.0), (3, 2.0), (7, 3.0), (3, 4.0), (1, 5.0)];
    assert_eq!(normalize_range(&v, 1, 4), vec![(3, 4.0), (7, 3.0)]);
    assert_eq!(normalize_range(&v, 2, 2), vec![]);
    assert_eq!(normalize_range(&v, 4, 5), vec![(1, 5.0)]);
    assert_eq!(normalize_range(&v, 0, 5), normalize(&v));
}

#[test]
fn normalize_agrees_with_setting_one_entry_after_the_other() {
    let mut state: u32 = 12345;
    let mut input: Vec<(u32, f64)> = Vec::new();
    for k in 0..500u32 {
        state = state.wrapping_mul(1103515245).wrapping_add(12345);
        input.push(((state >> 16) % 97, k as f64));
    }
    let mut one_by_one: Vec<(u32, f64)> = Vec::new();
    for e in &input {
        set_entry(&mut one_by_one, e.0, e.1);
    }
    let merged = normalize(&input);
    assert_eq!(merged, one_by_one);
    assert!(is_ascending(&merged));
    assert!(merged.len() <= 97);
    for e in &merged {
        let last = input.iter().rev().find(|f| f.0 == e.0).unwrap();
        assert_eq!(e.1, last.1);
    }
}
