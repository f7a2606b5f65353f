use coreness::graph::Graph;
use coreness::state::compute_coreness;
use coreness::state::compute_coreness_queue;
use coreness::state::compute_index;
use coreness::state::Data;

fn build_graph(edges: &[(usize, usize)]) -> Graph {
    let mut g = Graph::new();
    for &(i, j) in edges {
        g.add_edge(i, j).unwrap();
    }
    g.no_duplicates();
    g
}

fn run_sweep(edges: &[(usize, usize)]) -> Vec<usize> {
    let mut d = Data::new(build_graph(edges));
    compute_coreness(&mut d);
    d.est
}

fn run_worklist(edges: &[(usize, usize)]) -> Vec<usize> {
    let mut d = Data::new(build_graph(edges));
    compute_coreness_queue(&mut d);
    d.est
}

#[test]
fn triangle_with_pendant() {
    let edges = [(0, 1), (1, 2), (2, 0), (2, 3)];
    assert_eq!(run_sweep(&edges), vec![2, 2, 2, 1]);
    assert_eq!(run_worklist(&edges), vec![2, 2, 2, 1]);
}

#[test]
fn complete_graph_on_four() {
    let edges = [(0, 1), (0, 2), (0, 3), (1, 2), (1, 3), (2, 3)];
    assert_eq!(run_sweep(&edges), vec![3, 3, 3, 3]);
    assert_eq!(run_worklist(&edges), vec![3, 3, 3, 3]);
}

#[test]
fn five_cycle() {
    let edges = [(0, 1), (1, 2), (2, 3), (3, 4), (4, 0)];
    assert_eq!(run_sweep(&edges), vec![2, 2, 2, 2, 2]);
    assert_eq!(run_worklist(&edges), vec![2, 2, 2, 2, 2]);
}

#[test]
fn isolated_vertex_and_disconnected_edge() {
    let edges = [(1, 2)];
    assert_eq!(run_sweep(&edges), vec![0, 1, 1]);
    assert_eq!(run_worklist(&edges), vec![0, 1, 1]);
}

#[test]
fn duplicate_edge_collapses_after_normalization() {
    let mut g = Graph::new();
    g.add_edge(0, 1).unwrap();
    g.add_edge(0, 1).unwrap();
    assert_eq!(g.inmap[0], vec![1, 1]);
    assert_eq!(g.inmap[1], vec![0, 0]);
    g.no_duplicates();
    assert_eq!(g.inmap[0], vec![1]);
    assert_eq!(g.inmap[1], vec![0]);
}

#[test]
fn star_graph_collapses_to_one() {
    let edges = [(0, 1), (0, 2), (0, 3), (0, 4), (0, 5)];
    assert_eq!(run_sweep(&edges), vec![1, 1, 1, 1, 1, 1]);
    assert_eq!(run_worklist(&edges), vec![1, 1, 1, 1, 1, 1]);
}

#[test]
fn normalization_is_idempotent() {
    let edges = [(3, 1), (1, 3), (2, 2), (0, 3), (1, 0), (1, 0)];
    let mut g = build_graph(&edges);
    let once = g.inmap.clone();
    g.no_duplicates();
    assert_eq!(g.inmap, once);
}

#[test]
fn normalization_sorts_and_dedups() {
    let mut g = Graph::new();
    g.add_edge(0, 3).unwrap();
    g.add_edge(0, 1).unwrap();
    g.add_edge(0, 2).unwrap();
    g.add_edge(0, 2).unwrap();
    g.no_duplicates();
    assert_eq!(g.inmap[0], vec![1, 2, 3]);
    assert_eq!(g.inmap[1], vec![0]);
    assert_eq!(g.inmap[2], vec![0]);
    assert_eq!(g.inmap[3], vec![0]);
}

#[test]
fn add_edge_grows_vertex_table() {
    let mut g = Graph::new();
    g.add_edge(4, 2).unwrap();
    assert_eq!(g.inmap.len(), 5);
    assert_eq!(g.inmap[0], Vec::<usize>::new());
    assert_eq!(g.inmap[4], vec![2]);
    assert_eq!(g.inmap[2], vec![4]);
}

#[test]
fn self_loop_counts_once_after_normalization() {
    let mut g = Graph::new();
    g.add_edge(0, 0).unwrap();
    assert_eq!(g.inmap[0], vec![0, 0]);
    g.no_duplicates();
    assert_eq!(g.inmap[0], vec![0]);
    let mut d = Data::new(g);
    compute_coreness(&mut d);
    assert_eq!(d.est, vec![1]);
}

#[test]
fn initial_estimates_are_degrees() {
    let g = build_graph(&[(0, 1), (1, 2), (2, 0), (2, 3)]);
    let d = Data::new(g);
    assert_eq!(d.est, vec![2, 2, 3, 1]);
    assert!(d.changed.iter().all(|&c| !c));
}

#[test]
fn estimates_never_exceed_degrees() {
    let edges = [(0, 1), (0, 2), (0, 3), (0, 4), (1, 2), (5, 6)];
    let g = build_graph(&edges);
    let degrees: Vec<usize> = g.inmap.iter().map(|row| row.len()).collect();
    let mut d = Data::new(g);
    compute_coreness_queue(&mut d);
    for v in 0..d.est.len() {
        assert!(d.est[v] <= degrees[v]);
    }
}

#[test]
fn isolated_vertex_stays_zero() {
    let edges = [(1, 2), (2, 3), (3, 1)];
    let mut g = Graph::new();
    for &(i, j) in &edges {
        g.add_edge(i, j).unwrap();
    }
    g.add_edge(5, 4).unwrap();
    g.no_duplicates();
    let mut d = Data::new(g);
    assert_eq!(d.est[0], 0);
    compute_coreness(&mut d);
    assert_eq!(d.est[0], 0);
}

#[test]
fn local_index_is_idempotent_at_fixed_point() {
    let edges = [(0, 1), (1, 2), (2, 0), (2, 3), (3, 4), (4, 0)];
    let mut d = Data::new(build_graph(&edges));
    compute_coreness(&mut d);
    for u in 0..d.est.len() {
        let before = d.est[u];
        let again = compute_index(&mut d, u);
        assert_eq!(again, before);
    }
}

#[test]
fn drivers_agree_on_final_estimates() {
    let edges = [
        (0, 1),
        (1, 2),
        (2, 0),
        (2, 3),
        (3, 4),
        (4, 5),
        (5, 3),
        (5, 6),
        (6, 7),
        (8, 8),
        (1, 4),
    ];
    assert_eq!(run_sweep(&edges), run_worklist(&edges));
}

#[test]
fn two_triangles_sharing_a_vertex() {
    let edges = [(0, 1), (1, 2), (2, 0), (2, 3), (3, 4), (4, 2)];
    assert_eq!(run_sweep(&edges), vec![2, 2, 2, 2, 2]);
    assert_eq!(run_worklist(&edges), vec![2, 2, 2, 2, 2]);
}

#[test]
fn empty_graph_runs_to_completion() {
    assert_eq!(run_sweep(&[]), Vec::<usize>::new());
    assert_eq!(run_worklist(&[]), Vec::<usize>::new());
}
