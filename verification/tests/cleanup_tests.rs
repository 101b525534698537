use vertex_cover::cleanup::{Cleanup, CleanupFn};

#[test]
fn deg2_undo_with_folded_vertex_in_solution() {
    let c = Cleanup::Deg2 { x: 5, n0: 1, n1: 2 };
    let mut s = vec![7, 5, 9];
    assert!(c.undo(&mut s));
    assert_eq!(s, vec![7, 9, 2]);
}

#[test]
fn deg2_undo_with_first_neighbour_in_solution() {
    let c = Cleanup::Deg2 { x: 5, n0: 1, n1: 2 };
    let mut s = vec![7, 1, 9];
    assert!(c.undo(&mut s));
    assert_eq!(s, vec![7, 5, 9]);
}

#[test]
fn deg2_undo_refuses_a_foreign_solution() {
    let c = Cleanup::Deg2 { x: 5, n0: 1, n1: 2 };
    let mut s = vec![7, 9];
    assert!(!c.undo(&mut s));
}

#[test]
fn deg3_undo_cases() {
    let c = Cleanup::Deg3 { v: 0, a: 1, b: 2, c: 3 };
    let mut s = vec![1, 2, 3];
    assert!(c.undo(&mut s));
    assert_eq!(s, vec![1, 2, 3]);
    let mut s = vec![1, 2];
    assert!(c.undo(&mut s));
    assert_eq!(s, vec![2, 0]);
    let mut s = vec![2, 3];
    assert!(c.undo(&mut s));
    assert_eq!(s, vec![3, 0]);
    let mut s = vec![3, 1];
    assert!(c.undo(&mut s));
    assert_eq!(s, vec![1, 0]);
    let mut s = vec![2];
    assert!(c.undo(&mut s));
    assert_eq!(s, vec![0]);
    let mut s = vec![1];
    assert!(!c.undo(&mut s));
}

#[test]
fn two_clique_undo_replaces_the_missed_vertex() {
    let c = Cleanup::TwoClique { x: 9, pairs: vec![(1, 4), (2, 5)] };
    let mut s = vec![1, 4, 5];
    assert!(c.call(&mut s));
    assert_eq!(s, vec![1, 4, 9]);
    let mut s = vec![1, 2, 4, 5];
    assert!(c.call(&mut s));
    assert_eq!(s, vec![1, 2, 4, 5]);
    let d = c.box_clone();
    let mut t = vec![2, 4, 5];
    assert!(d.call(&mut t));
    assert_eq!(t, vec![2, 5, 9]);
}
