use vertex_cover::graph::{Edge, Graph};
use vertex_cover::solve::get_vertex_cover;
use vertex_cover::branch::branch;
use vertex_cover::state::ExState;
use vertex_cover::ideas::{ideas, AnyIdea};

fn graph(n: usize, edges: &[(usize, usize)]) -> Graph {
    Graph::new(n, edges.to_vec())
}

fn is_cover(edges: &[Edge], cover: &[usize]) -> bool {
    edges.iter().all(|(u, v)| cover.contains(u) || cover.contains(v))
}

fn check_cover(n: usize, edges: &[(usize, usize)], optimum: usize) {
    let g = graph(n, edges);
    let c = get_vertex_cover(g).expect("a cover");
    assert!(is_cover(edges, &c), "not a cover: {:?}", c);
    let mut d = c.clone();
    d.sort();
    d.dedup();
    assert_eq!(d.len(), c.len(), "repeated vertex in {:?}", c);
    assert_eq!(c.len(), optimum, "cover {:?}", c);
}

#[test]
fn empty_graph_needs_nothing() {
    check_cover(3, &[], 0);
}

#[test]
fn single_edge_needs_one() {
    check_cover(2, &[(0, 1)], 1);
}

#[test]
fn path_of_five_needs_two() {
    check_cover(5, &[(0, 1), (1, 2), (2, 3), (3, 4)], 2);
}

#[test]
fn triangle_needs_two() {
    check_cover(3, &[(0, 1), (1, 2), (0, 2)], 2);
}

#[test]
fn star_needs_its_centre() {
    check_cover(5, &[(0, 1), (0, 2), (0, 3), (0, 4)], 1);
}

#[test]
fn odd_cycle_needs_half_rounded_up() {
    check_cover(7, &[(0, 1), (1, 2), (2, 3), (3, 4), (4, 5), (5, 6), (6, 0)], 4);
}

#[test]
fn even_cycle_needs_half() {
    check_cover(6, &[(0, 1), (1, 2), (2, 3), (3, 4), (4, 5), (5, 0)], 3);
}

#[test]
fn complete_graph_needs_all_but_one() {
    let mut e = Vec::new();
    for i in 0..5 {
        for j in (i + 1)..5 {
            e.push((i, j));
        }
    }
    check_cover(5, &e, 4);
}

#[test]
fn two_components_add_up() {
    check_cover(6, &[(0, 1), (1, 2), (0, 2), (3, 4), (4, 5)], 3);
}

#[test]
fn petersen_graph_needs_six() {
    let e = [
        (0, 1), (1, 2), (2, 3), (3, 4), (4, 0),
        (0, 5), (1, 6), (2, 7), (3, 8), (4, 9),
        (5, 7), (7, 9), (9, 6), (6, 8), (8, 5),
    ];
    check_cover(10, &e, 6);
}

#[test]
fn cube_graph_needs_four() {
    let e = [
        (0, 1), (1, 3), (3, 2), (2, 0),
        (4, 5), (5, 7), (7, 6), (6, 4),
        (0, 4), (1, 5), (2, 6), (3, 7),
    ];
    check_cover(8, &e, 4);
}

#[test]
fn grid_three_by_three_needs_four() {
    let mut e = Vec::new();
    for r in 0..3 {
        for c in 0..3 {
            let v = r * 3 + c;
            if c < 2 {
                e.push((v, v + 1));
            }
            if r < 2 {
                e.push((v, v + 3));
            }
        }
    }
    check_cover(9, &e, 4);
}

#[test]
fn isolated_ids_are_ignored() {
    check_cover(10, &[(2, 7)], 1);
}

#[test]
fn branching_on_a_star_keeps_only_the_centre_branch() {
    let ex = ExState::new(graph(4, &[(0, 1), (0, 2), (0, 3)]));
    let bs = branch(ex.state);
    // Taking the centre is open; taking its neighbours is not, as no
    // neighbour has a neighbour of its own outside the star.
    assert_eq!(bs.len(), 1);
    assert!(bs[0].graph.is_empty());
    assert_eq!(bs[0].solution, vec![0]);
}

#[test]
fn branching_on_a_path_keeps_both_branches() {
    let ex = ExState::new(graph(5, &[(0, 1), (1, 2), (2, 3), (3, 4)]));
    let bs = branch(ex.state);
    assert!(bs.len() >= 1 && bs.len() <= 2);
    for b in &bs {
        assert!(!b.solution.is_empty());
    }
}

#[test]
fn the_rules_come_in_their_order() {
    let r = ideas(&graph(3, &[(0, 1)]));
    assert_eq!(r.len(), 13);
    assert!(matches!(r[0], AnyIdea::NeighbourClique(_)));
    assert!(matches!(r[7], AnyIdea::Deg3(_)));
    assert!(matches!(r[12], AnyIdea::Flow(_)));
}

#[test]
fn branches_add_each_vertex_once() {
    let ex = ExState::new(graph(6, &[(0, 1), (0, 2), (1, 2), (2, 3), (3, 4), (4, 5), (5, 3)]));
    let bs = branch(ex.state);
    assert!(!bs.is_empty());
    for b in &bs {
        assert!(!b.solution.is_empty());
        let mut s = b.solution.clone();
        s.sort();
        s.dedup();
        assert_eq!(s.len(), b.solution.len());
    }
}

#[test]
fn start_state_has_every_rule_and_no_constraints() {
    let ex = ExState::new(graph(4, &[(0, 1), (2, 3)]));
    assert_eq!(ex.ideas.len(), 13);
    assert_eq!(ex.state.dirty.len(), 13);
    assert!(ex.state.constraints_vec.is_empty());
    assert!(ex.state.diff_vec.is_empty());
    assert_eq!(ex.state.fingertable.len(), 4);
    for f in &ex.state.fingertable {
        assert!(f.to_vec().is_empty());
    }
}

#[test]
fn substate_marks_the_vertices_outside_the_part() {
    let ex = ExState::new(graph(4, &[(0, 1), (2, 3)]));
    let sub = ex.substate(graph(4, &[(0, 1)]), 0);
    assert_eq!(sub.state.upper_bound, ex.state.upper_bound);
    assert!(sub.state.solution.is_empty());
    assert!(sub.state.constraints_vec.is_empty());
    assert_eq!(sub.state.dirty.len(), 13);
    for d in &sub.state.dirty {
        let mut v = d.to_vec();
        v.sort();
        assert_eq!(v, vec![2, 3]);
    }
    assert_eq!(sub.state.graph.vertices(), vec![0, 1]);
}

#[test]
fn substate_takes_a_graph_on_more_ids() {
    let ex = ExState::new(graph(4, &[(0, 1), (2, 3)]));
    let sub = ex.substate(graph(6, &[(0, 1)]), 0);
    assert_eq!(sub.state.graph.n(), 6);
    assert_eq!(sub.state.fingertable.len(), 6);
    assert_eq!(sub.state.graph.vertices(), vec![0, 1]);
    for d in &sub.state.dirty {
        let mut v = d.to_vec();
        v.sort();
        assert_eq!(v, vec![2, 3]);
    }
}

#[test]
fn branching_on_a_triangle_takes_one_vertex_on_the_left() {
    let ex = ExState::new(graph(3, &[(0, 1), (1, 2), (2, 0)]));
    let bs = branch(ex.state);
    assert!(!bs.is_empty());
    // The mirrors of a vertex of a triangle: none; the left branch takes
    // the vertex alone and leaves one edge.
    assert_eq!(bs[0].solution.len(), 1);
    assert_eq!(bs[0].graph.vertices().len(), 2);
}
