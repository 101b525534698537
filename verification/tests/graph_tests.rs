use vertex_cover::graph::Graph;

fn path(n: usize) -> Graph {
    let mut edges = Vec::new();
    for i in 0..n - 1 {
        edges.push((i, i + 1));
    }
    Graph::new(n, edges)
}

#[test]
fn new_graph_has_its_edges() {
    let g = Graph::new(4, vec![(0, 1), (1, 2)]);
    assert!(g.get_edge(0, 1));
    assert!(g.get_edge(1, 0));
    assert!(g.get_edge(2, 1));
    assert!(!g.get_edge(0, 2));
    assert!(!g.get_edge(3, 0));
    assert_eq!(g.get_degree(1), 2);
    assert_eq!(g.get_degree(3), 0);
    assert_eq!(g.vertices(), vec![0, 1, 2]);
    assert_eq!(g.n(), 4);
}

#[test]
fn rm_vertex_returns_neighbours_and_drops_isolated() {
    let mut g = path(3);
    let mut r = g.rm_vertex(1).to_vec();
    r.sort();
    assert_eq!(r, vec![0, 2]);
    assert!(g.is_empty());
    assert_eq!(g.get_degree(0), 0);
}

#[test]
fn components_are_the_connected_parts() {
    let g = Graph::new(6, vec![(0, 1), (1, 2), (3, 4)]);
    let mut comps: Vec<Vec<usize>> = g
        .get_components()
        .iter()
        .map(|c| {
            let mut v = c.to_vec();
            v.sort();
            v
        })
        .collect();
    comps.sort();
    assert_eq!(comps, vec![vec![0, 1, 2], vec![3, 4]]);
}

#[test]
fn a_connected_graph_is_one_component() {
    let g = path(5);
    let comps = g.get_components();
    assert_eq!(comps.len(), 1);
    let mut v = comps[0].to_vec();
    v.sort();
    assert_eq!(v, vec![0, 1, 2, 3, 4]);
}

#[test]
fn symmetric_edges_list_each_direction_once() {
    let g = Graph::new(4, vec![(0, 1), (1, 2), (2, 0), (2, 3)]);
    let mut es = g.edges_sym();
    assert_eq!(es.len(), 8);
    es.sort();
    assert_eq!(es, vec![(0, 1), (0, 2), (1, 0), (1, 2), (2, 0), (2, 1), (2, 3), (3, 2)]);
}
