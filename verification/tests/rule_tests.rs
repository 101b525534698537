use vertex_cover::graph::Graph;
use vertex_cover::ideas::cliquelb::clique_bound;
use vertex_cover::ideas::cyclelb::cycle_bound;
use vertex_cover::ideas::unconfined::is_unconfined;
use vertex_cover::ideas::flow::hopcroftkarp::max_matching_bipartite;
use vertex_cover::ideas::flow::{build_digraph, matching_to_flow, undir_graph};
use vertex_cover::ideas::flow::digraph::Digraph;
use vertex_cover::idset::IdSet;
use vertex_cover::state::ExState;
use vertex_cover::idea::Idea;
use vertex_cover::ideas::ILPLB;
use vertex_cover::ideas::buss::Buss;
use vertex_cover::ideas::constraints::ConstraintReductions;
use vertex_cover::ideas::deg2::Deg2;
use vertex_cover::ideas::Flow;

fn cycle(n: usize) -> Graph {
    let mut e = Vec::new();
    for i in 0..n {
        e.push((i, (i + 1) % n));
    }
    Graph::new(n, e)
}

#[test]
fn cycle_bound_of_triangle_is_two() {
    assert_eq!(cycle_bound(&cycle(3)), 2);
}

#[test]
fn cycle_bound_of_path_counts_pendant_edges() {
    let g = Graph::new(4, vec![(0, 1), (1, 2), (2, 3)]);
    assert_eq!(cycle_bound(&g), 2);
}

#[test]
fn cycle_bound_of_empty_graph_is_zero() {
    assert_eq!(cycle_bound(&Graph::new(3, vec![])), 0);
}

#[test]
fn clique_bound_of_complete_graph() {
    let mut e = Vec::new();
    for i in 0..4 {
        for j in (i + 1)..4 {
            e.push((i, j));
        }
    }
    // The first vertex starts two cliques, so the bound is one short.
    assert_eq!(clique_bound(&Graph::new(4, e)), 2);
}

#[test]
fn clique_bound_of_single_edge_is_zero() {
    assert_eq!(clique_bound(&Graph::new(2, vec![(0, 1)])), 0);
}

#[test]
fn clique_bound_of_empty_graph_is_zero() {
    assert_eq!(clique_bound(&Graph::new(2, vec![])), 0);
}

#[test]
fn star_centre_is_unconfined_and_leaf_is_not() {
    let g = Graph::new(4, vec![(0, 1), (0, 2), (0, 3)]);
    assert!(is_unconfined(&g, 0));
    assert!(!is_unconfined(&g, 1));
}

#[test]
fn matching_of_a_bipartite_path() {
    // 0 - 3 - 1 - 4 - 2, left side {0, 1, 2}
    let g = Graph::new(5, vec![(0, 3), (3, 1), (1, 4), (4, 2)]);
    let l = IdSet::from_vec(&vec![0, 1, 2]);
    let m = max_matching_bipartite(&g, &l);
    assert_eq!(m.len(), 2);
    for (a, b) in &m {
        assert!(a < b);
        assert!(g.get_edge(*a, *b));
    }
}

#[test]
fn matching_of_a_complete_bipartite_graph() {
    let mut e = Vec::new();
    for a in 0..3 {
        for b in 3..6 {
            e.push((a, b));
        }
    }
    let g = Graph::new(6, e);
    let l = IdSet::from_vec(&vec![0, 1, 2]);
    assert_eq!(max_matching_bipartite(&g, &l).len(), 3);
}

#[test]
fn doubled_graph_has_two_copies_of_each_edge() {
    let g = Graph::new(3, vec![(0, 1), (1, 2)]);
    let (d, l) = undir_graph(&g);
    assert_eq!(d.n(), 6);
    assert!(d.get_edge(0, 4));
    assert!(d.get_edge(1, 3));
    assert!(d.get_edge(1, 5));
    assert!(d.get_edge(2, 4));
    assert!(!d.get_edge(0, 1));
    let mut left = l.to_vec();
    left.sort();
    assert_eq!(left, vec![0, 1, 2]);
}

#[test]
fn flow_network_arcs() {
    let g = Graph::new(2, vec![(0, 1)]);
    let d = build_digraph(&g);
    assert_eq!(d.n, 6);
    let mut arcs = d.edges();
    arcs.sort();
    assert_eq!(arcs, vec![(0, 3), (1, 2), (2, 5), (3, 5), (4, 0), (4, 1)]);
}

#[test]
fn flow_of_a_matching() {
    let g = Graph::new(2, vec![(0, 1)]);
    let d = build_digraph(&g);
    let m = vec![(0, 3)];
    let mut f = matching_to_flow(2, &d, &m);
    f.sort();
    assert_eq!(f, vec![(0, 3), (3, 5), (4, 0)]);
}

#[test]
fn digraph_reachability_and_residual() {
    let d = Digraph::new(4, vec![(0, 1), (1, 2), (3, 0)]);
    let mut r = d.reachable(0).to_vec();
    r.sort();
    assert_eq!(r, vec![0, 1, 2]);
    let mut p = d.pred(0);
    p.sort();
    assert_eq!(p, vec![3]);
    // With flow on 0 -> 1 and capacity one everywhere, that arc turns round.
    let res = d.residual(&vec![(0, 1)], |_e: (usize, usize)| 1);
    let mut arcs = res.edges();
    arcs.sort();
    assert_eq!(arcs, vec![(1, 0), (1, 2), (3, 0)]);
    assert_eq!(d.vertices(), vec![0, 1, 3]);
}

#[test]
fn start_state_has_the_greedy_bound() {
    let g = Graph::new(5, vec![(0, 1), (0, 2), (0, 3), (0, 4)]);
    let ex = ExState::new(g);
    assert_eq!(ex.state.upper_bound, 1);
    assert!(ex.state.solution.is_empty());
    assert!(ex.state.lb(1).is_some());
    assert!(ex.state.lb(2).is_none());
}

#[test]
fn ilp_bound_matches_the_double_cover() {
    let g = Graph::new(4, vec![(0, 1), (0, 2), (0, 3), (1, 2), (1, 3), (2, 3)]);
    let mut ilp = ILPLB::new(&g);
    assert_eq!(ilp.temp.n, 4);
    let mut ex = ExState::new(g);
    let dirty = IdSet::from_vec(&vec![0, 1, 2, 3]);
    assert_eq!(ilp.priority(&ex.state, &dirty), 2);
    ex.state.upper_bound = 2;
    assert!(ilp.apply(&mut ex.state, &dirty).is_some());
    // The double cover of K4 has a perfect matching: 4 pairs, bound 2.
    let matched = ilp.temp.pair_v.iter().filter(|p| p.is_some()).count();
    assert_eq!(matched, 4);
    for u in 0..4 {
        let v = ilp.temp.pair_u[u].expect("left vertex unmatched");
        assert!(v >= 4 && v < 8);
        assert!(ilp.bipartite_g.get_edge(u, v));
    }
    ex.state.upper_bound = 1;
    assert!(ilp.apply(&mut ex.state, &IdSet::from_vec(&vec![])).is_none());
    assert!(ex.state.solution.is_empty());
}

#[test]
fn ilp_bound_of_a_triangle_is_one() {
    let g = cycle(3);
    let mut ilp = ILPLB::new(&g);
    let mut ex = ExState::new(g);
    ex.state.upper_bound = 1;
    let dirty = IdSet::from_vec(&vec![0, 1, 2]);
    assert!(ilp.apply(&mut ex.state, &dirty).is_some());
    assert_eq!(ilp.temp.pair_v.iter().filter(|p| p.is_some()).count(), 3);
    ex.state.upper_bound = 0;
    assert!(ilp.apply(&mut ex.state, &dirty).is_none());
    let nothing = IdSet::from_vec(&vec![]);
    assert_eq!(ilp.priority(&ex.state, &nothing), 0);
}

fn petersen() -> Graph {
    let mut e = Vec::new();
    for i in 0..5 {
        e.push((i, (i + 1) % 5));
        e.push((i, i + 5));
        e.push((i + 5, (i + 2) % 5 + 5));
    }
    Graph::new(10, e)
}

#[test]
fn lower_bounds_stay_below_the_optimum() {
    // A minimum vertex cover of the Petersen graph has six vertices.
    let g = petersen();
    assert!(cycle_bound(&g) <= 6);
    assert!(clique_bound(&g) <= 6);
    // An odd cycle of five needs three, and the packing finds them all.
    assert_eq!(cycle_bound(&cycle(5)), 3);
    assert!(clique_bound(&cycle(5)) <= 3);
}

#[test]
fn end_of_a_path_is_not_unconfined() {
    let g = Graph::new(3, vec![(0, 1), (1, 2)]);
    assert!(!is_unconfined(&g, 0));
    assert!(is_unconfined(&g, 1));
}

#[test]
fn greedy_clique_cover_of_two_triangles_joined_by_an_edge() {
    let g = Graph::new(6, vec![(0, 1), (1, 2), (2, 0), (3, 4), (4, 5), (5, 3), (2, 3)]);
    // One clique per triangle, and the first vertex met starts a second
    // clique of its own: six vertices less three.
    assert_eq!(clique_bound(&g), 3);
}

#[test]
fn kernel_bound_refuses_five_disjoint_edges_with_room_for_two() {
    // Degrees are at most one, so a cover of two would leave at most two
    // edges; five edges cannot fit.
    let g = Graph::new(10, vec![(0, 1), (2, 3), (4, 5), (6, 7), (8, 9)]);
    let mut ex = ExState::new(g);
    let dirty = IdSet::from_vec(&vec![0]);
    let mut b = Buss::new(&ex.state.graph);
    ex.state.upper_bound = 2;
    assert!(b.apply(&mut ex.state, &dirty).is_none());
    ex.state.upper_bound = 5;
    assert!(b.apply(&mut ex.state, &dirty).is_some());
}

#[test]
fn exhausted_constraint_with_an_inner_edge_gives_up() {
    let g = Graph::new(3, vec![(1, 2)]);
    let mut ex = ExState::new(g);
    ex.state.upper_bound = 5;
    ex.state.constraints_vec = vec![IdSet::from_vec(&vec![1, 2])];
    ex.state.diff_vec = vec![0];
    ex.state.fingertable = vec![IdSet::from_vec(&vec![]), IdSet::from_vec(&vec![0]), IdSet::from_vec(&vec![0])];
    let mut cr = ConstraintReductions::new(&ex.state.graph);
    let dirty = IdSet::from_vec(&vec![1]);
    assert!(cr.apply(&mut ex.state, &dirty).is_none());
    assert!(ex.state.solution.is_empty());
}

#[test]
fn degree_two_fold_clears_the_finger_table_of_the_folded_vertices() {
    // 1 has the two neighbours 0 and 2, which are apart; the fold takes 0
    // into the solution and drops the constraint entries of 0, 1 and 2.
    let g = Graph::new(4, vec![(0, 1), (1, 2), (2, 3)]);
    let mut ex = ExState::new(g);
    ex.state.upper_bound = 5;
    ex.state.constraints_vec = vec![IdSet::from_vec(&vec![0, 2])];
    ex.state.diff_vec = vec![1];
    ex.state.fingertable = vec![
        IdSet::from_vec(&vec![0]),
        IdSet::from_vec(&vec![]),
        IdSet::from_vec(&vec![0]),
        IdSet::from_vec(&vec![]),
    ];
    let mut d = Deg2::new(&ex.state.graph);
    let dirty = IdSet::from_vec(&vec![1]);
    assert!(d.apply(&mut ex.state, &dirty).is_some());
    assert!(!ex.state.solution.is_empty());
    for v in 0..3 {
        assert!(ex.state.fingertable[v].to_vec().is_empty());
    }
}

#[test]
fn exhausted_constraint_without_an_inner_edge_takes_its_neighbours() {
    // {0, 2} may take no more vertices, so its neighbour 1 joins the
    // solution and 0 and 2 leave the graph.
    let g = Graph::new(3, vec![(0, 1), (1, 2)]);
    let mut ex = ExState::new(g);
    ex.state.upper_bound = 5;
    ex.state.constraints_vec = vec![IdSet::from_vec(&vec![0, 2])];
    ex.state.diff_vec = vec![0];
    ex.state.fingertable = vec![IdSet::from_vec(&vec![0]), IdSet::from_vec(&vec![]), IdSet::from_vec(&vec![0])];
    let mut cr = ConstraintReductions::new(&ex.state.graph);
    let dirty = IdSet::from_vec(&vec![1]);
    assert!(cr.apply(&mut ex.state, &dirty).is_some());
    assert_eq!(ex.state.solution, vec![1]);
    assert!(ex.state.graph.is_empty());
    assert_eq!(cr.0.to_vec(), vec![0]);
    assert_eq!(ex.state.constraints_vec.len(), 1);
    assert_eq!(ex.state.diff_vec, vec![0]);
}

#[test]
fn vertex_seeing_too_much_of_a_constraint_joins_the_solution() {
    // 0 sees all three vertices of {1, 2, 3}, which may take only one more
    // vertex, so 0 is taken, with a constraint on its neighbourhood.
    let g = Graph::new(4, vec![(0, 1), (0, 2), (0, 3)]);
    let mut ex = ExState::new(g);
    ex.state.upper_bound = 5;
    ex.state.constraints_vec = vec![IdSet::from_vec(&vec![1, 2, 3])];
    ex.state.diff_vec = vec![1];
    ex.state.fingertable = vec![
        IdSet::from_vec(&vec![]),
        IdSet::from_vec(&vec![0]),
        IdSet::from_vec(&vec![0]),
        IdSet::from_vec(&vec![0]),
    ];
    let mut cr = ConstraintReductions::new(&ex.state.graph);
    let dirty = IdSet::from_vec(&vec![1]);
    assert!(cr.apply(&mut ex.state, &dirty).is_some());
    assert_eq!(ex.state.solution, vec![0]);
    assert!(ex.state.graph.is_empty());
    assert_eq!(ex.state.constraints_vec.len(), 2);
    let mut second = ex.state.constraints_vec[1].to_vec();
    second.sort();
    assert_eq!(second, vec![1, 2, 3]);
    assert_eq!(ex.state.diff_vec, vec![1, 1]);
    assert!(cr.0.to_vec().is_empty());
}

#[test]
fn constraint_rule_without_open_constraints_changes_nothing() {
    let g = Graph::new(3, vec![(0, 1), (1, 2)]);
    let mut ex = ExState::new(g);
    let mut cr = ConstraintReductions::new(&ex.state.graph);
    let dirty = IdSet::from_vec(&vec![1]);
    assert!(cr.apply(&mut ex.state, &dirty).is_some());
    assert!(ex.state.solution.is_empty());
    assert!(!ex.state.graph.is_empty());
}

#[test]
fn flow_takes_the_centre_of_a_star() {
    let g = Graph::new(4, vec![(0, 1), (0, 2), (0, 3)]);
    let mut ex = ExState::new(g);
    ex.state.upper_bound = 3;
    let mut f = Flow::new(&ex.state.graph);
    let dirty = IdSet::from_vec(&vec![0]);
    assert!(f.apply(&mut ex.state, &dirty).is_some());
    assert_eq!(ex.state.solution, vec![0]);
    assert!(ex.state.graph.is_empty());
}

#[test]
fn flow_gives_up_a_triangle_with_no_room() {
    // The half-integral bound of a triangle is one and a half.
    let g = cycle(3);
    let mut ex = ExState::new(g);
    ex.state.upper_bound = 0;
    let mut f = Flow::new(&ex.state.graph);
    let dirty = IdSet::from_vec(&vec![0]);
    assert!(f.apply(&mut ex.state, &dirty).is_none());
}

#[test]
fn residual_keeps_an_arc_of_spare_capacity() {
    // The arc 0 -> 1 has room for more than its one unit of flow, so it
    // stays beside its reversal.
    let d = Digraph::new(3, vec![(0, 1), (1, 2)]);
    let res = d.residual(&vec![(0, 1)], |e: (usize, usize)| if e.0 == 0 { usize::MAX } else { 1 });
    let mut arcs = res.edges();
    arcs.sort();
    assert_eq!(arcs, vec![(0, 1), (1, 0), (1, 2)]);
}

#[test]
fn matching_ends_are_distinct_on_both_sides() {
    // A star with centre 3 on the right: only one of its leaves can be
    // matched to it.
    let g = Graph::new(5, vec![(0, 3), (1, 3), (2, 3), (2, 4)]);
    let l = IdSet::from_vec(&vec![0, 1, 2]);
    let m = max_matching_bipartite(&g, &l);
    assert_eq!(m.len(), 2);
    let mut rights: Vec<usize> = m.iter().map(|e| e.1).collect();
    rights.sort();
    rights.dedup();
    assert_eq!(rights.len(), 2);
}

#[test]
fn flow_leaves_an_odd_cycle_alone() {
    // Every vertex of a five-cycle sits at one half, so nothing is fixed.
    let g = cycle(5);
    let mut ex = ExState::new(g);
    ex.state.upper_bound = 5;
    let mut f = Flow::new(&ex.state.graph);
    let dirty = IdSet::from_vec(&vec![0]);
    assert!(f.apply(&mut ex.state, &dirty).is_some());
    assert!(ex.state.solution.is_empty());
    assert!(!ex.state.graph.is_empty());
}
