//! The 2-opt driver over the five-vertex weight table, in all three scoring
//! variants, plus the reversal round trip.

use ddg::graph::Graph;
use ddg::tsp::{Tsp, ScoreCalcTypeTSP};

fn testing_table() -> Vec<Vec<i32>> {
    vec![
        vec![0, 1, 7, 6, 1],
        vec![1, 0, 1, 4, 9],
        vec![7, 1, 0, 1, 8],
        vec![6, 4, 1, 0, 1],
        vec![1, 9, 8, 1, 0],
    ]
}

#[test]
fn test_tsp_slow() {
    let size = 5;
    let al = testing_table();
    let graph = Graph::from_adjacency(size, al);
    let path = vec![4, 3, 0, 2, 1];
    let mut tsp = Tsp::new(graph, ScoreCalcTypeTSP::Slow);
    tsp.set_starting_path(path);

    let length = tsp.tsp().unwrap();
    assert_eq!(length, 5);

    let path = tsp.get_path();
    assert_eq!(path, &vec![4, 0, 1, 2, 3]);
}

#[test]
fn test_tsp_fast() {
    let size = 5;
    let al = testing_table();
    let graph = Graph::from_adjacency(size, al);
    let path = vec![4, 3, 0, 2, 1];
    let mut tsp = Tsp::new(graph, ScoreCalcTypeTSP::Fast);
    tsp.set_starting_path(path);

    let length = tsp.tsp().unwrap();
    assert_eq!(length, 5);

    let path = tsp.get_path();
    assert_eq!(path, &vec![4, 0, 1, 2, 3]);
}

#[test]
fn test_tsp_incremental() {
    let size = 5;
    let al = testing_table();
    let graph = Graph::from_adjacency(size, al);
    let path = vec![4, 3, 0, 2, 1];
    let mut tsp = Tsp::new(graph, ScoreCalcTypeTSP::Incremental);
    tsp.set_starting_path(path);

    let length = tsp.tsp().unwrap();
    assert_eq!(length, 5);
}

#[test]
fn test_swap_edges() {
    let size = 5;
    let al = testing_table();
    let graph = Graph::from_adjacency(size, al);
    let path = vec![4, 3, 0, 2, 1];
    let mut tsp = Tsp::new(graph, ScoreCalcTypeTSP::Slow);
    tsp.set_starting_path(path);

    let length = tsp.tsp().unwrap();
    assert_eq!(length, 5);

    tsp.swap_edges(1, 3);
    tsp.swap_edges(1, 3);
    let length2 = tsp.calculate_path_length();
    assert_eq!(length, length2);

    tsp.swap_edges(0, 4);
    tsp.swap_edges(0, 4);
    let length3 = tsp.calculate_path_length();
    assert_eq!(length, length3);
}

#[test]
fn starting_tour_and_initial_length() {
    // the given tour sums its five legs: 1 + 6 + 7 + 1 + 9
    let size = 5;
    let al = testing_table();
    let graph = Graph::from_adjacency(size, al);
    let mut tsp = Tsp::new(graph, ScoreCalcTypeTSP::Slow);
    tsp.set_starting_path(vec![4, 3, 0, 2, 1]);
    assert_eq!(tsp.calculate_path_length(), 24);
}

#[test]
fn history_lengths_strictly_decrease() {
    let size = 5;
    let al = testing_table();
    let graph = Graph::from_adjacency(size, al);
    let mut tsp = Tsp::new(graph, ScoreCalcTypeTSP::Slow);
    tsp.set_starting_path(vec![4, 3, 0, 2, 1]);
    let _ = tsp.tsp().unwrap();
    let hist = tsp.get_history().clone();
    let al = testing_table();
    let mut prev: Option<i32> = None;
    for p in hist {
        let mut len = 0;
        for k in 0..p.len() {
            let u = p[k] as usize;
            let v = p[(k + 1) % p.len()] as usize;
            len += al[u][v];
        }
        if let Some(pl) = prev {
            assert!(len < pl);
        }
        prev = Some(len);
    }
}

#[test]
fn seeded_starting_path_is_deterministic() {
    let size = 5;
    let graph = Graph::from_adjacency(size, testing_table());
    let graph2 = Graph::from_adjacency(size, testing_table());
    let mut a = Tsp::new(graph, ScoreCalcTypeTSP::Slow);
    let mut b = Tsp::new(graph2, ScoreCalcTypeTSP::Slow);
    let pa = a.generate_starting_path(42);
    let pb = b.generate_starting_path(42);
    assert_eq!(pa, pb);
    // a tour: every vertex exactly once
    let mut seen = vec![false; size];
    for v in &pa {
        assert!(!seen[*v as usize]);
        seen[*v as usize] = true;
    }
}
