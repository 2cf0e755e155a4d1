use shortest_paths::graph::DirectedEdge;
use shortest_paths::graph::PathLength::{Reach, Unreach};
use std::cmp::Ordering;

#[test]
fn test_path_add_path() {
    assert_eq!(Reach(3).add(Reach(2)), Reach(5));
    assert_eq!(Reach(3).add(Unreach), Unreach);
    assert_eq!(Unreach.add(Reach(3)), Unreach);
    assert_eq!(Reach(-3).add(Reach(3)), Reach(0));
}

#[test]
fn test_path_cat_edge() {
    let de_minus_one = DirectedEdge { weight: -1, a: 0, b: 1 };
    let de_plus_one = DirectedEdge { weight: 1, a: 0, b: 1 };

    assert_eq!(Reach(3).cat(&de_minus_one), Reach(2));
    assert_eq!(Reach(3).cat(&de_plus_one), Reach(4));
    assert_eq!(Unreach.cat(&de_plus_one), Unreach);
}

#[test]
fn test_path_comparison() {
    assert_eq!(Reach(3).cmp(&Reach(4)), Ordering::Less);
    assert_eq!(Reach(5).cmp(&Reach(4)), Ordering::Greater);
    assert_eq!(Reach(3).cmp(&Reach(3)), Ordering::Equal);
    assert_eq!(Reach(3).cmp(&Unreach), Ordering::Less);
    assert_eq!(Unreach.cmp(&Reach(3)), Ordering::Greater);
    assert_eq!(Unreach.cmp(&Unreach), Ordering::Equal);
}

#[test]
fn test_path_length_length() {
    assert_eq!(Reach(5).length(), 5);
}

#[test]
#[should_panic]
fn test_path_length_unreach() {
    Unreach.length();
}

#[test]
fn test_path_subtraction() {
    assert_eq!(Reach(3).sub(Reach(5)), Reach(-2));
    assert_eq!(Reach(3).sub(Unreach), Unreach);
    assert_eq!(Unreach.sub(Reach(3)), Unreach);
}

#[test]
fn test_path_minimum() {
    assert_eq!(Reach(3).min(Reach(4)), Reach(3));
    assert_eq!(Reach(4).min(Reach(3)), Reach(3));
    assert_eq!(Unreach.min(Reach(7)), Reach(7));
    assert_eq!(Reach(7).min(Unreach), Reach(7));
    assert_eq!(Unreach.min(Unreach), Unreach);
}
