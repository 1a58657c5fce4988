use std::cmp::Ordering;
use traffic_sim::util::insertion_sort;

#[test]
fn sorts_in_ascending_order() {
    let mut v = vec![5, 1, 4, 2, 3];
    insertion_sort(&mut v, |a: &i32, b: &i32| a.cmp(b));
    assert_eq!(v, vec![1, 2, 3, 4, 5]);
}

#[test]
fn leaves_short_vectors_alone() {
    let mut none: Vec<i32> = vec![];
    insertion_sort(&mut none, |a: &i32, b: &i32| a.cmp(b));
    assert_eq!(none, Vec::<i32>::new());
    let mut one = vec![7];
    insertion_sort(&mut one, |a: &i32, b: &i32| a.cmp(b));
    assert_eq!(one, vec![7]);
}

#[test]
fn sorts_a_reversed_vector() {
    let mut v: Vec<u32> = (0..50).rev().collect();
    insertion_sort(&mut v, |a: &u32, b: &u32| a.cmp(b));
    let want: Vec<u32> = (0..50).collect();
    assert_eq!(v, want);
}

#[test]
fn keeps_the_order_of_equal_elements() {
    let mut v = vec![(2, 'a'), (1, 'b'), (2, 'c'), (1, 'd'), (2, 'e'), (0, 'f')];
    insertion_sort(&mut v, |a: &(i32, char), b: &(i32, char)| a.0.cmp(&b.0));
    assert_eq!(v, vec![(0, 'f'), (1, 'b'), (1, 'd'), (2, 'a'), (2, 'c'), (2, 'e')]);
}

#[test]
fn follows_the_comparison_it_is_given() {
    let mut v = vec![1, 3, 2];
    insertion_sort(&mut v, |a: &i32, b: &i32| b.cmp(a));
    assert_eq!(v, vec![3, 2, 1]);
    let mut w = vec![3, 1, 2];
    insertion_sort(&mut w, |_a: &i32, _b: &i32| Ordering::Equal);
    assert_eq!(w, vec![3, 1, 2]);
}
