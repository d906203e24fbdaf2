//! The coloring driver on the five-vertex graph: the cost formula at every
//! step of a known recoloring sequence, and the full search in all three
//! scoring variants.

use ddg::graph::Graph;
use ddg::graph_coloring::{Color, GraphColoring, ScoreCalcTypeGraphColoring};

fn create_testing_graph() -> Graph {
    let mut graph = Graph::new();
    graph.add_nodes(5);
    graph.add_2d_edge(0, 1);
    graph.add_2d_edge(0, 4);
    graph.add_2d_edge(1, 3);
    graph.add_2d_edge(1, 2);
    graph.add_2d_edge(2, 4);
    graph.add_2d_edge(2, 3);
    graph.add_2d_edge(3, 4);
    graph
}

#[test]
fn test_calculate_score_naive() {
    let graph = create_testing_graph();
    let mut graph_coloring = GraphColoring::new(graph, ScoreCalcTypeGraphColoring::Fast);
    let score = graph_coloring.calculate_score_naive();
    assert_eq!(score, 45, "Calucalte Score Naive: Score is incorrect, should be 45");

    graph_coloring.coloring[0] = Color(1);
    graph_coloring.number_of_colors += 1;
    let score = graph_coloring.calculate_score_naive();
    assert_eq!(score, 23, "Calucalte Score Naive: Score is incorrect, should be 23");

    graph_coloring.coloring[1] = Color(2);
    graph_coloring.number_of_colors += 1;
    let score = graph_coloring.calculate_score_naive();
    assert_eq!(score, 7, "Calucalte Score Naive: Score is incorrect, should be 7");

    graph_coloring.coloring[2] = Color(1);
    let score = graph_coloring.calculate_score_naive();
    assert_eq!(score, -5, "Calucalte Score Naive: Score is incorrect, should be -5");

    graph_coloring.coloring[4] = Color(2);
    let score = graph_coloring.calculate_score_naive();
    assert_eq!(score, -9, "Calucalte Score Naive: Score is incorrect, should be -9");
}

#[test]
fn test_calculate_score_slow() {
    let graph = create_testing_graph();
    let mut graph_coloring = GraphColoring::new(graph, ScoreCalcTypeGraphColoring::Slow);
    let score = graph_coloring.calculate_score_slow();
    assert_eq!(score, 45, "Calucalte Score Naive: Score is incorrect, should be 45");

    graph_coloring.coloring[0] = Color(1);
    graph_coloring.number_of_colors += 1;
    let score = graph_coloring.calculate_score_slow();
    assert_eq!(score, 23, "Calucalte Score Naive: Score is incorrect, should be 23");

    graph_coloring.coloring[1] = Color(2);
    graph_coloring.number_of_colors += 1;
    let score = graph_coloring.calculate_score_slow();
    assert_eq!(score, 7, "Calucalte Score Naive: Score is incorrect, should be 7");

    graph_coloring.coloring[2] = Color(1);
    let score = graph_coloring.calculate_score_slow();
    assert_eq!(score, -5, "Calucalte Score Naive: Score is incorrect, should be -5");

    graph_coloring.coloring[4] = Color(2);
    let score = graph_coloring.calculate_score_slow();
    assert_eq!(score, -9, "Calucalte Score Naive: Score is incorrect, should be -9");
}

#[test]
fn test_graph_coloring_fast() {
    let graph = create_testing_graph();
    let mut graph_coloring = GraphColoring::new(graph, ScoreCalcTypeGraphColoring::Fast);
    let score = graph_coloring.graph_coloring();
    let coloring = graph_coloring.coloring;

    assert_eq!(coloring, vec![Color(1), Color(2), Color(1), Color(3), Color(2)], "Fast: coloring is incorrect");
    assert_eq!(score, -9, "Fast: score is incorrect");
}

#[test]
fn test_graph_coloring_slow() {
    let graph = create_testing_graph();
    let mut graph_coloring = GraphColoring::new(graph, ScoreCalcTypeGraphColoring::Slow);
    let score = graph_coloring.graph_coloring();
    let coloring = graph_coloring.coloring;

    assert_eq!(coloring, vec![Color(1), Color(2), Color(1), Color(3), Color(2)], "Slow: coloring is incorrect");
    assert_eq!(score, -9, "Slow: score is incorrect");
}

#[test]
fn test_graph_coloring_incremental() {
    let graph = create_testing_graph();
    let mut graph_coloring = GraphColoring::new(graph, ScoreCalcTypeGraphColoring::Incremental);
    let score = graph_coloring.graph_coloring();
    let coloring = graph_coloring.coloring;

    assert_eq!(coloring, vec![Color(1), Color(2), Color(1), Color(3), Color(2)], "Incremental: coloring is incorrect");
    assert_eq!(score, -9, "Incremental: score is incorrect");
}

#[test]
fn all_variants_agree_on_the_search() {
    let ga = create_testing_graph();
    let gb = create_testing_graph();
    let gc = create_testing_graph();
    let mut a = GraphColoring::new(ga, ScoreCalcTypeGraphColoring::Fast);
    let mut b = GraphColoring::new(gb, ScoreCalcTypeGraphColoring::Slow);
    let mut c = GraphColoring::new(gc, ScoreCalcTypeGraphColoring::Incremental);
    let sa = a.graph_coloring();
    let sb = b.graph_coloring();
    let sc = c.graph_coloring();
    assert_eq!(sa, sb);
    assert_eq!(sb, sc);
    assert_eq!(a.coloring, b.coloring);
    assert_eq!(b.coloring, c.coloring);
    assert_eq!(a.history.len(), b.history.len());
    assert_eq!(b.history.len(), c.history.len());
}

#[test]
fn history_scores_strictly_decrease() {
    let graph = create_testing_graph();
    let mut driver = GraphColoring::new(graph, ScoreCalcTypeGraphColoring::Slow);
    let _ = driver.graph_coloring();
    let mut prev: Option<i32> = None;
    for snapshot in driver.history.clone() {
        let mut probe = GraphColoring::new(create_testing_graph(),
            ScoreCalcTypeGraphColoring::Slow);
        probe.coloring = snapshot;
        probe.number_of_colors = driver.number_of_colors;
        let s = probe.calculate_score_slow();
        if let Some(p) = prev {
            assert!(s < p);
        }
        prev = Some(s);
    }
}
