use zagreb_lib::analysis::Traversal;
use zagreb_lib::theorems::{root_gap_floor, rounded_up_root};
use zagreb_lib::{Graph, GraphError};

fn path_graph(n: usize) -> Graph {
    let mut g = Graph::new(n);
    for i in 1..n {
        g.add_edge(i - 1, i).unwrap();
    }
    g
}

fn prism() -> Graph {
    let mut g = Graph::new(6);
    for (u, v) in [(0, 1), (1, 2), (2, 0), (3, 4), (4, 5), (5, 3), (0, 3), (1, 4), (2, 5)] {
        g.add_edge(u, v).unwrap();
    }
    g
}

fn sample_graphs() -> Vec<Graph> {
    let mut graphs = vec![
        Graph::new(0),
        Graph::new(1),
        Graph::new(4),
        prism(),
        Graph::create_petersen(),
        Graph::create_star(7),
        path_graph(9),
    ];
    for n in 0..9 {
        graphs.push(Graph::create_complete(n));
        if n != 1 {
            graphs.push(Graph::create_cycle(n).unwrap());
        }
    }
    graphs
}

#[test]
fn index_lies_between_its_bounds() {
    for g in sample_graphs() {
        let n = g.vertex_count();
        let e = g.edge_count();
        let z = g.first_zagreb_index();
        assert!(2 * e <= z);
        assert!(z <= 2 * e * g.max_degree());
        if n > 0 {
            assert!(z <= n * (n - 1) * (n - 1));
        }
        assert_eq!(g.checked_first_zagreb_index(), Some(z));
        assert!(g.min_degree() <= g.max_degree());
    }
}

#[test]
fn add_edge_twice_changes_nothing() {
    let mut g = Graph::new(4);
    assert_eq!(g.add_edge(1, 3), Ok(()));
    let edges = g.edge_count();
    let degrees: Vec<usize> = (0..4).map(|v| g.degree(v).unwrap()).collect();
    assert_eq!(g.add_edge(1, 3), Ok(()));
    assert_eq!(g.add_edge(3, 1), Ok(()));
    assert_eq!(g.edge_count(), edges);
    assert_eq!(edges, 1);
    let after: Vec<usize> = (0..4).map(|v| g.degree(v).unwrap()).collect();
    assert_eq!(degrees, after);
    assert_eq!(after, vec![0, 1, 0, 1]);
}

#[test]
fn add_edge_links_both_ends() {
    let mut g = Graph::new(5);
    g.add_edge(4, 2).unwrap();
    g.add_edge(2, 0).unwrap();
    assert_eq!(g.neighbors(4), Ok(vec![2]));
    assert_eq!(g.neighbors(2), Ok(vec![4, 0]));
    assert_eq!(g.neighbors(0), Ok(vec![2]));
    assert_eq!(g.neighbors(1), Ok(vec![]));
    assert_eq!(g.neighbors(5), Err(GraphError::InvalidVertex));
}

#[test]
fn add_edge_raises_the_index_by_the_degrees() {
    let mut g = path_graph(4);
    let before = g.first_zagreb_index();
    let du = g.degree(0).unwrap();
    let dv = g.degree(2).unwrap();
    g.add_edge(0, 2).unwrap();
    assert_eq!(g.first_zagreb_index(), before + 2 * du + 2 * dv + 2);
    assert_eq!(g.first_zagreb_index(), 18);
}

#[test]
fn refused_edges_change_nothing() {
    let mut g = Graph::new(3);
    g.add_edge(0, 1).unwrap();
    for u in 0..3 {
        assert_eq!(g.add_edge(u, u), Err(GraphError::SelfLoop));
    }
    assert_eq!(g.add_edge(0, 3), Err(GraphError::InvalidVertex));
    assert_eq!(g.add_edge(3, 0), Err(GraphError::InvalidVertex));
    assert_eq!(g.add_edge(9, 12), Err(GraphError::InvalidVertex));
    assert_eq!(g.add_edge(7, 7), Err(GraphError::InvalidVertex));
    assert_eq!(g.edge_count(), 1);
    assert_eq!(g.first_zagreb_index(), 2);
    assert_eq!(g.degree(3), Err(GraphError::InvalidVertex));
    assert_eq!(g.degree(2), Ok(0));
}

#[test]
fn error_messages() {
    assert_eq!(GraphError::InvalidVertex.message(), "Vertex index out of bounds");
    assert_eq!(GraphError::SelfLoop.message(), "Self-loops are not allowed");
}

#[test]
fn complete_graphs() {
    for n in 0..10usize {
        let g = Graph::create_complete(n);
        assert_eq!(g.vertex_count(), n);
        assert!(g.is_complete());
        if n > 0 {
            assert_eq!(g.first_zagreb_index(), n * (n - 1) * (n - 1));
            assert_eq!(g.edge_count(), n * (n - 1) / 2);
            assert_eq!(g.min_degree(), n - 1);
            assert_eq!(g.max_degree(), n - 1);
            assert_eq!(g.independence_number_approx(), 1);
        }
        for k in 0..12 {
            assert_eq!(g.is_k_connected(k, true), k < n);
            assert_eq!(g.is_k_connected(k, false), k < n);
        }
        assert_eq!(g.is_likely_hamiltonian(false), n >= 3);
        assert_eq!(g.is_likely_hamiltonian(true), n >= 3);
    }
    assert_eq!(Graph::create_complete(6).first_zagreb_index(), 150);
    assert_eq!(Graph::create_complete(5).first_zagreb_index(), 80);
}

#[test]
fn path_graphs() {
    for n in 2..12usize {
        let g = path_graph(n);
        assert!(g.is_path());
        assert_eq!(g.count_degree(1), 2);
        assert_eq!(g.count_degree(2), n - 2);
        assert_eq!(g.first_zagreb_index(), 2 + (n - 2) * 4);
        assert!(g.is_likely_traceable(false));
        assert!(g.is_likely_traceable(true));
        if n >= 3 {
            assert!(!g.is_likely_hamiltonian(false));
            assert!(!g.is_likely_hamiltonian(true));
        }
        assert_eq!(g.independence_number_approx(), (n + 1) / 2);
    }
    assert_eq!(path_graph(5).first_zagreb_index(), 14);
    assert_eq!(path_graph(5).independence_number_approx(), 3);
}

#[test]
fn cycle_graphs() {
    for n in 3..12usize {
        let g = Graph::create_cycle(n).unwrap();
        assert!(g.is_cycle());
        assert!(g.is_connected());
        assert_eq!(g.edge_count(), n);
        assert_eq!(g.first_zagreb_index(), 4 * n);
        assert!(g.is_k_connected_exact(1));
        assert!(g.is_k_connected_exact(2));
        assert!(!g.is_k_connected_exact(3));
        assert!(g.is_likely_hamiltonian(false));
        assert!(g.is_likely_hamiltonian(true));
        assert!(g.is_likely_traceable(false));
        assert_eq!(g.traversal(true), Traversal::Hamiltonian);
    }
    assert!(matches!(Graph::create_cycle(1), Err(GraphError::SelfLoop)));
    let pair = Graph::create_cycle(2).unwrap();
    assert_eq!(pair.edge_count(), 1);
    assert_eq!(Graph::create_cycle(0).unwrap().vertex_count(), 0);
}

#[test]
fn star_graphs() {
    for n in 4..12usize {
        let g = Graph::create_star(n);
        assert!(g.is_star());
        assert_eq!(g.edge_count(), n - 1);
        assert_eq!(g.max_degree(), n - 1);
        assert_eq!(g.min_degree(), 1);
        assert_eq!(g.first_zagreb_index(), (n - 1) * (n - 1) + (n - 1));
        assert!(!g.is_likely_hamiltonian(false));
        assert!(!g.is_likely_hamiltonian(true));
        assert!(g.is_likely_traceable(false));
        assert!(g.is_likely_traceable(true));
        assert_eq!(g.traversal(false), Traversal::Traceable);
        assert_eq!(g.independence_number_approx(), n - 1);
    }
    assert!(Graph::create_star(3).is_star());
    assert!(!Graph::create_star(2).is_star());
    assert_eq!(Graph::create_star(0).vertex_count(), 0);
}

#[test]
fn petersen_graph() {
    let g = Graph::create_petersen();
    assert_eq!(g.vertex_count(), 10);
    assert_eq!(g.edge_count(), 15);
    assert_eq!(g.first_zagreb_index(), 90);
    assert_eq!(g.neighbors(0), Ok(vec![1, 4, 5]));
    assert_eq!(g.neighbors(6), Ok(vec![1, 9, 8]));
    assert_eq!(g.neighbors(9), Ok(vec![4, 7, 6]));
    assert!(g.is_petersen());
    assert!(!g.has_triangle());
    assert!(!g.has_square());
    assert!(g.is_k_connected(3, true));
    assert!(g.is_k_connected(3, false));
    assert!(!g.is_k_connected(4, true));
    assert!(!g.is_likely_hamiltonian(false));
    assert!(!g.is_likely_hamiltonian(true));
    assert!(g.is_likely_traceable(false));
    assert!(g.is_likely_traceable(true));
    assert!(g.independence_number_approx() >= 4);
    assert_eq!(g.independence_number_approx(), 4);
}

#[test]
fn complete_graph_on_six_vertices() {
    let mut g = Graph::new(6);
    for i in 0..6 {
        for j in (i + 1)..6 {
            g.add_edge(i, j).unwrap();
        }
    }
    assert_eq!(g.edge_count(), 15);
    assert_eq!(g.min_degree(), 5);
    assert_eq!(g.max_degree(), 5);
    assert_eq!(g.first_zagreb_index(), 150);
    assert!(g.is_likely_hamiltonian(false));
}

#[test]
fn path_graph_on_five_vertices() {
    let mut g = Graph::new(5);
    g.add_edge(0, 1).unwrap();
    g.add_edge(1, 2).unwrap();
    g.add_edge(2, 3).unwrap();
    g.add_edge(3, 4).unwrap();
    assert!(g.is_path());
    assert!(!g.is_likely_hamiltonian(false));
    assert!(g.is_likely_traceable(false));
}

#[test]
fn graphs_without_vertices_or_edges() {
    let empty = Graph::new(0);
    assert_eq!(empty.vertex_count(), 0);
    assert_eq!(empty.edge_count(), 0);
    assert_eq!(empty.first_zagreb_index(), 0);
    assert_eq!(empty.min_degree(), 0);
    assert_eq!(empty.max_degree(), 0);
    assert_eq!(empty.independence_number_approx(), 0);
    assert!(empty.is_complete());
    assert!(empty.is_connected());
    assert!(!empty.is_cycle());
    assert!(!empty.is_path());
    assert!(!empty.is_star());
    assert!(!empty.is_petersen());
    assert!(!empty.is_k_connected(0, true));
    assert!(!empty.is_k_connected(0, false));
    assert!(!empty.is_k_connected_exact(0));
    assert!(!empty.is_k_connected_approx(1));
    assert!(!empty.is_likely_hamiltonian(false));
    assert!(!empty.is_likely_traceable(false));
    assert!(empty.low_connectivity_vertices().is_empty());
    assert!(!empty.average_degree_below(5));
    assert!(!empty.average_degree_above(0));

    let single = Graph::new(1);
    assert!(single.is_complete());
    assert!(single.is_connected());
    assert!(single.is_k_connected(0, true));
    assert!(!single.is_k_connected(1, true));
    assert_eq!(single.independence_number_approx(), 1);
    assert!(!single.is_likely_traceable(true));

    let scattered = Graph::new(4);
    assert!(!scattered.is_connected());
    assert!(!scattered.is_complete());
    assert_eq!(scattered.independence_number_approx(), 4);
    assert!(!scattered.is_k_connected_approx(0));
    assert!(scattered.is_k_connected_exact(0));
    assert!(!scattered.is_k_connected_exact(1));
}

#[test]
fn paths_are_found_breadth_first_in_list_order() {
    let ring = Graph::create_cycle(6).unwrap();
    assert_eq!(ring.find_path(0, 3), Some(vec![0, 1, 2, 3]));
    assert_eq!(ring.find_path(0, 4), Some(vec![0, 5, 4]));
    assert_eq!(ring.find_path(2, 2), Some(vec![2]));
    assert_eq!(ring.find_path(9, 9), Some(vec![9]));
    assert_eq!(ring.find_path(0, 9), None);
    assert!(ring.is_path_between(1, 4));

    let mut parts = Graph::new(5);
    parts.add_edge(0, 1).unwrap();
    parts.add_edge(3, 4).unwrap();
    assert_eq!(parts.find_path(0, 4), None);
    assert!(!parts.is_path_between(1, 3));
    assert_eq!(parts.find_path(4, 3), Some(vec![4, 3]));
    assert!(!parts.is_connected());

    let lists = vec![vec![1, 2], vec![3], vec![3], vec![]];
    assert_eq!(parts.find_path_in_subgraph(&lists, 0, 3), Some(vec![0, 1, 3]));
    assert_eq!(parts.find_path_in_subgraph(&lists, 3, 0), None);
}

#[test]
fn disjoint_paths_are_counted() {
    let g = prism();
    for s in 0..6 {
        for t in 0..6 {
            if s != t {
                assert_eq!(g.find_vertex_disjoint_paths(s, t), 3);
            }
        }
    }
    assert!(g.mengers_theorem_check(3));
    assert!(!g.mengers_theorem_check(4));
    assert!(g.mengers_theorem_check(2));

    // A bow tie: two triangles that share vertex 2.
    let mut bow = Graph::new(5);
    for (u, v) in [(0, 1), (1, 2), (2, 0), (2, 3), (3, 4), (4, 2)] {
        bow.add_edge(u, v).unwrap();
    }
    assert_eq!(bow.find_vertex_disjoint_paths(0, 4), 1);
    assert_eq!(bow.find_vertex_disjoint_paths(0, 1), 2);
    assert_eq!(bow.find_vertex_disjoint_paths(0, 2), 2);
    assert!(bow.is_k_connected_exact(1));
    assert!(!bow.is_k_connected_exact(2));
    assert!(bow.is_k_connected_approx(2));

    let line = path_graph(4);
    assert_eq!(line.find_vertex_disjoint_paths(0, 3), 1);
    assert_eq!(line.find_vertex_disjoint_paths(1, 2), 1);
    assert_eq!(line.find_vertex_disjoint_paths(0, 2), 1);

    let mut apart = Graph::new(4);
    apart.add_edge(0, 1).unwrap();
    assert_eq!(apart.find_vertex_disjoint_paths(0, 3), 0);
    assert_eq!(apart.find_vertex_disjoint_paths(0, 1), 1);
}

#[test]
fn heuristic_connectivity_goes_by_degree() {
    // Two triangles joined by one edge: least degree 2, but one vertex cut.
    let mut g = Graph::new(6);
    for (u, v) in [(0, 1), (1, 2), (2, 0), (3, 4), (4, 5), (5, 3), (2, 3)] {
        g.add_edge(u, v).unwrap();
    }
    assert!(g.is_k_connected_approx(1));
    assert!(g.is_k_connected_approx(2));
    assert!(!g.is_k_connected_approx(3));
    assert!(g.is_k_connected_exact(1));
    assert!(!g.is_k_connected_exact(2));
    assert_eq!(g.connectivity_level(5, false), 2);
    assert_eq!(g.connectivity_level(5, true), 1);
    assert_eq!(g.connectivity_level(1, false), 1);
    assert_eq!(g.connectivity_level(0, false), 0);
    assert_eq!(Graph::create_petersen().connectivity_level(5, false), 3);
    assert_eq!(Graph::new(3).connectivity_level(5, false), 0);
}

#[test]
fn dirac_condition_decides_dense_graphs() {
    // The complete bipartite graph on 3 + 3 vertices.
    let mut g = Graph::new(6);
    for u in 0..3 {
        for v in 3..6 {
            g.add_edge(u, v).unwrap();
        }
    }
    assert!(g.is_likely_hamiltonian(false));
    assert!(g.is_likely_hamiltonian(true));
    assert_eq!(g.traversal(false), Traversal::Hamiltonian);

    // A ring of six with one chord: 2-connected, least degree below n / 2,
    // index 34 against a threshold of 27 + 16 + 0.
    let mut chord = Graph::create_cycle(6).unwrap();
    chord.add_edge(0, 3).unwrap();
    assert_eq!(chord.first_zagreb_index(), 34);
    assert!(chord.is_k_connected(2, true));
    assert!(!chord.is_likely_hamiltonian(false));
    assert!(!chord.is_likely_hamiltonian(true));
    assert!(chord.is_likely_traceable(true));

    // The cube: 2-connected, cubic, eight vertices.
    let mut cube = Graph::new(8);
    for (u, v) in [(0, 1), (1, 2), (2, 3), (3, 0), (4, 5), (5, 6), (6, 7), (7, 4), (0, 4), (1, 5), (2, 6), (3, 7)] {
        cube.add_edge(u, v).unwrap();
    }
    assert!(!cube.is_likely_hamiltonian(false));
    assert!(!cube.is_likely_hamiltonian(true));
    assert!(cube.is_likely_traceable(false));

    // A long path with a fork: connected, least degree 1, ten vertices.
    let mut fork = path_graph(10);
    fork.add_edge(4, 9).unwrap();
    fork.add_edge(2, 7).unwrap();
    assert!(!fork.is_path());
    assert!(fork.is_connected());
    assert!(!fork.is_likely_traceable(false));
    assert_eq!(fork.traversal(false), Traversal::Neither);
}

#[test]
fn greedy_independent_set_prefers_low_numbers() {
    // A path 0 - 1 - 2: the ends tie with one neighbour each, 0 is taken
    // first and 1 leaves with it, then 2 is taken.
    assert_eq!(path_graph(3).independence_number_approx(), 2);
    // The prism: every choice removes four vertices.
    assert_eq!(prism().independence_number_approx(), 2);
    let ring = Graph::create_cycle(5).unwrap();
    assert_eq!(ring.independence_number_approx(), 2);
    let mut parts = Graph::new(6);
    parts.add_edge(0, 1).unwrap();
    parts.add_edge(2, 3).unwrap();
    assert_eq!(parts.independence_number_approx(), 4);
}

#[test]
fn square_roots_round_up() {
    assert_eq!(rounded_up_root(0), 0);
    assert_eq!(rounded_up_root(1), 1);
    assert_eq!(rounded_up_root(2), 2);
    assert_eq!(rounded_up_root(4), 2);
    assert_eq!(rounded_up_root(5), 3);
    assert_eq!(rounded_up_root(9), 3);
    assert_eq!(rounded_up_root(10), 4);
    assert_eq!(rounded_up_root(13500), 117);
    assert_eq!(rounded_up_root(1 << 32), 1 << 16);
    assert_eq!(rounded_up_root((1 << 32) + 1), (1 << 16) + 1);
    assert_eq!(rounded_up_root(u64::MAX as u128), 1 << 32);
    assert_eq!(rounded_up_root(18446744065119617025), 4294967295);
    assert_eq!(rounded_up_root(18446744065119617026), 4294967296);
    assert_eq!(rounded_up_root(1 << 126), 1 << 63);
    assert_eq!(rounded_up_root((1 << 126) + 1), (1 << 63) + 1);
    assert_eq!(rounded_up_root(u128::MAX), 1 << 64);
    assert_eq!(rounded_up_root(u128::MAX - (1 << 65) + 2), (1 << 64) - 1);
    assert_eq!(rounded_up_root(u128::MAX - (1 << 65) + 3), 1 << 64);
}

#[test]
fn root_gaps_are_exact() {
    // (sqrt 4 - sqrt 1)^2 * 3 = 3
    assert_eq!(root_gap_floor(4, 1, 3), 3);
    // (sqrt 2 - sqrt 8)^2 = 2
    assert_eq!(root_gap_floor(2, 8, 1), 2);
    assert_eq!(root_gap_floor(8, 2, 5), 10);
    // (sqrt 12 - sqrt 3)^2 = 3
    assert_eq!(root_gap_floor(12, 3, 23), 69);
    // (sqrt 5 - sqrt 3)^2 * 12 = 3.05...
    assert_eq!(root_gap_floor(5, 3, 12), 3);
    // (sqrt 3 - sqrt 2)^2 * 7 = 0.70...
    assert_eq!(root_gap_floor(3, 2, 7), 0);
    assert_eq!(root_gap_floor(7, 7, 100), 0);
    assert_eq!(root_gap_floor(0, 3, 4), 12);
    assert_eq!(root_gap_floor(9, 0, 2), 18);
    assert_eq!(root_gap_floor(0, 0, 0), 0);
    assert_eq!(root_gap_floor(4095, 1, 4095), 16249023);
    // 65535 + 1 - 2 sqrt 65535 = 65536 - 511.99..., times 4294967295
    assert_eq!(root_gap_floor(65535, 1, 4294967295), 279275970167359);
}

#[test]
fn thresholds_are_exact() {
    // The cube: 5 * 9 + 144 / 3 + floor((sqrt 5 - sqrt 3)^2 * 12) = 45 + 48 + 3.
    let mut cube = Graph::new(8);
    for (u, v) in [(0, 1), (1, 2), (2, 3), (3, 0), (4, 5), (5, 6), (6, 7), (7, 4), (0, 4), (1, 5), (2, 6), (3, 7)] {
        cube.add_edge(u, v).unwrap();
    }
    assert_eq!(cube.zagreb_threshold(2, 1), 96);
    assert_eq!(cube.zagreb_threshold(1, 2), 96);
    // A ring of six with one chord: 3 * 9 + 49 / 3 + floor((sqrt 3 - sqrt 2)^2 * 7).
    let mut chord = Graph::create_cycle(6).unwrap();
    chord.add_edge(0, 3).unwrap();
    assert_eq!(chord.zagreb_threshold(2, 1), 27 + 16 + 0);
    // Fifteen vertices, each linked to those at distance 1, 2 and 7 on a ring:
    // 12 * 36 + 2025 / 3 + floor((sqrt 12 - sqrt 6)^2 * 45).
    let mut ring = Graph::create_cycle(15).unwrap();
    for i in 0..15 {
        ring.add_edge(i, (i + 2) % 15).unwrap();
    }
    for v in 0..15 {
        ring.add_edge(v, (v + 7) % 15).unwrap();
    }
    let e = ring.edge_count() as u128;
    let top = ring.max_degree() as u128;
    let low = ring.min_degree() as u128;
    assert_eq!((e, top, low), (45, 6, 6));
    assert_eq!(ring.zagreb_threshold(2, 1), 432 + 675 + 46);
    assert_eq!(root_gap_floor(12, 6, 45), 46);
    assert_eq!(ring.first_zagreb_index(), 540);
    assert!(!ring.is_likely_hamiltonian(false));
    assert!(!ring.is_likely_traceable(false));
    // The Petersen graph: 7 * 9 + 225 / 3 + floor((sqrt 7 - sqrt 3)^2 * 15).
    assert_eq!(Graph::create_petersen().zagreb_threshold(2, 1), 63 + 75 + 12);
    assert_eq!(Graph::create_complete(4).zagreb_threshold(1, 1), 2 * 9 + 36 / 2 + 0);
}

#[test]
fn analysis_gathers_the_figures() {
    let g = Graph::create_star(5);
    let a = g.analyze();
    assert_eq!(a.vertex_count, 5);
    assert_eq!(a.edge_count, 4);
    assert_eq!(a.zagreb_index, 20);
    assert_eq!(a.min_degree, 1);
    assert_eq!(a.max_degree, 4);
    assert!(!a.is_likely_hamiltonian);
    assert!(a.is_likely_traceable);
    assert_eq!(a.independence_number, 4);
}

#[test]
fn vertices_with_few_neighbours() {
    assert_eq!(Graph::create_star(5).low_connectivity_vertices(), vec![1, 2, 3, 4]);
    assert_eq!(path_graph(4).low_connectivity_vertices(), vec![0, 1, 2, 3]);
    let mut g = Graph::create_complete(4);
    assert_eq!(g.low_connectivity_vertices(), vec![0, 1, 2, 3]);
    g = Graph::new(5);
    g.add_edge(0, 1).unwrap();
    g.add_edge(0, 2).unwrap();
    g.add_edge(0, 3).unwrap();
    g.add_edge(1, 2).unwrap();
    assert_eq!(g.low_connectivity_vertices(), vec![3, 4]);
}

#[test]
fn average_degree_against_a_bound() {
    let g = Graph::create_complete(6);
    assert!(!g.average_degree_below(5));
    assert!(g.average_degree_below(6));
    assert!(!g.average_degree_above(5));
    assert!(g.average_degree_above(4));
    let line = path_graph(4);
    // 2 e / n = 1.5
    assert!(line.average_degree_below(2));
    assert!(!line.average_degree_below(1));
    assert!(line.average_degree_above(1));
    assert!(!line.average_degree_above(2));
}

#[test]
fn shapes_are_told_apart() {
    assert!(Graph::create_complete(3).is_cycle());
    assert!(Graph::create_complete(3).is_complete());
    assert!(!Graph::create_complete(4).is_cycle());
    assert!(path_graph(3).is_star());
    assert!(path_graph(3).is_path());
    assert!(!path_graph(4).is_star());
    assert!(!Graph::create_star(5).is_path());
    assert!(Graph::create_complete(4).has_triangle());
    assert!(Graph::create_complete(4).has_square());
    assert!(!Graph::create_cycle(5).unwrap().has_triangle());
    assert!(!Graph::create_cycle(5).unwrap().has_square());
    assert!(Graph::create_cycle(4).unwrap().has_square());
    assert!(!Graph::create_cycle(4).unwrap().has_triangle());
    assert!(Graph::create_cycle(3).unwrap().has_triangle());
    assert!(!Graph::create_cycle(3).unwrap().has_square());
    // Two triangles side by side have the degrees and the edge count of a ring.
    let mut twins = Graph::new(6);
    for (u, v) in [(0, 1), (1, 2), (2, 0), (3, 4), (4, 5), (5, 3)] {
        twins.add_edge(u, v).unwrap();
    }
    assert!(twins.is_cycle());
    assert!(!twins.is_connected());
    assert!(twins.is_likely_hamiltonian(true));
    assert!(!twins.is_k_connected_exact(1));
}
