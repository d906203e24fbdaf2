//! The coloring computation graph itself: guards, counting nodes, node
//! budgets under each flag, dynamic branch growth, and flag equivalence.

use ddg::engine::Val;
use ddg::graph::Graph;
use ddg::graph_coloring_comp::{GraphColoringComp, GraphColouringFlags, Guards};

fn four_node_graph() -> Graph {
    let mut graph = Graph::new();
    graph.add_nodes(4);
    graph.add_2d_edge(0, 2);
    graph.add_2d_edge(0, 3);
    graph.add_2d_edge(1, 2);
    graph.add_2d_edge(1, 3);
    graph
}

fn five_node_graph() -> Graph {
    let mut graph = Graph::new();
    graph.add_nodes(5);
    graph.add_2d_edge(0, 1);
    graph.add_2d_edge(0, 4);
    graph.add_2d_edge(1, 3);
    graph.add_2d_edge(1, 2);
    graph.add_2d_edge(2, 4);
    graph.add_2d_edge(2, 3);
    graph.add_2d_edge(3, 4);
    graph
}

fn isolated_graph(n: usize) -> Graph {
    let mut graph = Graph::new();
    graph.add_nodes(n);
    graph
}

fn make_result_tests(flags: GraphColouringFlags) -> GraphColoringComp {
    let graph = four_node_graph();
    let mut graph_coloring_comp = GraphColoringComp::new(&graph, 4, flags);
    graph_coloring_comp.create_computation_graph();

    let result = graph_coloring_comp.get_result();
    // 2 * 4 * 4 - 16 = 16
    assert_eq!(result, Some(16), "Result should be 16");
    assert_eq!(graph_coloring_comp.used_colours, 1, "Used colours should be 1");

    graph_coloring_comp.update_input_node(0, 1).unwrap();
    let result = graph_coloring_comp.get_result();
    // 0: -9 + 2 * 3 * 2 = 3 and 1: -1
    assert_eq!(result, Some(2), "Result should be 2");
    assert_eq!(graph_coloring_comp.used_colours, 2, "Used colours should be 2");

    graph_coloring_comp.update_input_node(1, 1).unwrap();
    let result = graph_coloring_comp.get_result();
    // 0: -4 and 1: -4
    assert_eq!(result, Some(-8), "Result should be -8");

    graph_coloring_comp
}

#[test]
fn test_guards_layer() {
    let n = 3;
    let graph = isolated_graph(n);
    let mut graph_coloring_comp = GraphColoringComp::new(&graph, n, GraphColouringFlags::default());

    let guards_layer_zero = graph_coloring_comp.create_guards_layer(0);
    let guards_layer_one = graph_coloring_comp.create_guards_layer(1);
    let guards_layer_two = graph_coloring_comp.create_guards_layer(2);

    assert!(guards_layer_zero.len() == 3, "Guards layer should have 3 guards");
    assert!(guards_layer_one.len() == 3, "Guards layer should have 3 guards");
    assert!(guards_layer_two.len() == 3, "Guards layer should have 3 guards");

    for i in 0..n {
        if let Guards::Normal(guards) = &guards_layer_zero {
            assert_eq!(graph_coloring_comp.eng.get(guards[i]), Ok(Val::B(true)));
        }
        if let Guards::Normal(guards) = &guards_layer_one {
            assert_eq!(graph_coloring_comp.eng.get(guards[i]), Ok(Val::B(false)));
        }
        if let Guards::Normal(guards) = &guards_layer_two {
            assert_eq!(graph_coloring_comp.eng.get(guards[i]), Ok(Val::B(false)));
        }
    }

    graph_coloring_comp.update_input_node(1, 1).unwrap();
    graph_coloring_comp.update_input_node(2, 2).unwrap();

    for i in 0..n {
        if let Guards::Normal(guards) = &guards_layer_zero {
            assert_eq!(graph_coloring_comp.eng.get(guards[i]), Ok(Val::B(i == 0)));
        }
        if let Guards::Normal(guards) = &guards_layer_one {
            assert_eq!(graph_coloring_comp.eng.get(guards[i]), Ok(Val::B(i == 1)));
        }
        if let Guards::Normal(guards) = &guards_layer_two {
            assert_eq!(graph_coloring_comp.eng.get(guards[i]), Ok(Val::B(i == 2)));
        }
    }
}

#[test]
fn test_diagnostics() {
    let graph = isolated_graph(3);
    let mut graph_coloring_comp = GraphColoringComp::new(&graph, 3, GraphColouringFlags::default());
    let guards_layer = graph_coloring_comp.create_guards_layer(0);
    assert!(guards_layer.len() == 3, "Guards layer should have 3 guards");

    if let Guards::Normal(guards) = &guards_layer {
        let _ = graph_coloring_comp.eng.get(guards[0]);
        let _ = graph_coloring_comp.eng.get(guards[1]);
        let _ = graph_coloring_comp.eng.get(guards[2]);
    }
    graph_coloring_comp.update_input_node(0, 1).unwrap();
    if let Guards::Normal(guards) = &guards_layer {
        let _ = graph_coloring_comp.eng.get(guards[0]);
        let _ = graph_coloring_comp.eng.get(guards[1]);
        let _ = graph_coloring_comp.eng.get(guards[2]);
    }
    graph_coloring_comp.seal().unwrap();
    let diagnostics = graph_coloring_comp.diagnostics;

    if let Some(diag) = diagnostics {
        assert!(diag.cells_count == 3, "Cells count should be 3");
        assert!(diag.thunks_count == 3, "Thunks count should be 12");
    }
}

#[test]
fn test_computation_graph_default_flags() {
    let mut graph_coloring_comp = make_result_tests(GraphColouringFlags::default());

    graph_coloring_comp.seal().unwrap();
    if let Some(diag) = graph_coloring_comp.diagnostics {
        assert_eq!(diag.cells_count, 4, "Cells count should be 4");
        // guards: 16, member counts: 4, illegal-edge counts: 4, branch
        // scores: 4, root: 1
        assert_eq!(diag.thunks_count, 29, "Thunks count should be 29");
    }
}

#[test]
fn test_computation_graph_merge_layers_flag() {
    let mut graph_coloring_comp = make_result_tests(GraphColouringFlags::new(false, false, true));

    graph_coloring_comp.seal().unwrap();
    if let Some(diag) = graph_coloring_comp.diagnostics {
        assert_eq!(diag.cells_count, 4, "Cells count should be 4");
        // guards: 16, merged branches: 4, root: 1
        assert_eq!(diag.thunks_count, 21, "Thunks count should be 21");
    }
}

#[test]
fn test_computation_graph_dynamic_branches_flag() {
    let mut graph_coloring_comp = make_result_tests(GraphColouringFlags::new(false, true, false));

    graph_coloring_comp.seal().unwrap();
    if let Some(diag) = graph_coloring_comp.diagnostics {
        assert_eq!(diag.cells_count, 4, "Cells count should be 4");
        // two branches of 7 nodes each, and one root per construction; the
        // superseded root stays allocated
        assert_eq!(diag.thunks_count, 16, "Thunks count should be 16");
    }
}

#[test]
fn test_computation_graph_enable_firewall_flag() {
    make_result_tests(GraphColouringFlags::new(true, false, false));
}

#[test]
fn test_computation_graph_enable_firewall_and_dynamic_branches_flag() {
    make_result_tests(GraphColouringFlags::new(true, true, false));
}

#[test]
fn test_computation_graph_enable_firewall_and_merge_computations_flag() {
    make_result_tests(GraphColouringFlags::new(true, false, true));
}

#[test]
fn test_computation_graph_enable_dynamic_branches_and_merge_computations_flag() {
    make_result_tests(GraphColouringFlags::new(false, true, true));
}

#[test]
fn test_computation_graph_enable_all_flags() {
    make_result_tests(GraphColouringFlags::new(true, true, true));
}

#[test]
fn test_invalid_edges_layer() {
    let graph = four_node_graph();
    let mut graph_coloring_comp = GraphColoringComp::new(&graph, 4, GraphColouringFlags::default());

    let guards_layer_zero = graph_coloring_comp.create_guards_layer(0);
    let guards_layer_one = graph_coloring_comp.create_guards_layer(1);
    let guards_layer_two = graph_coloring_comp.create_guards_layer(2);
    let guards_layer_three = graph_coloring_comp.create_guards_layer(3);

    let invalid_edges_node_zero = graph_coloring_comp.create_invalid_edges_node(&guards_layer_zero);
    let invalid_edges_node_one = graph_coloring_comp.create_invalid_edges_node(&guards_layer_one);
    let invalid_edges_node_two = graph_coloring_comp.create_invalid_edges_node(&guards_layer_two);
    let invalid_edges_node_three = graph_coloring_comp.create_invalid_edges_node(
        &guards_layer_three,
    );

    let invalid_edges = vec![
        graph_coloring_comp.eng.get(invalid_edges_node_zero).unwrap(),
        graph_coloring_comp.eng.get(invalid_edges_node_one).unwrap(),
        graph_coloring_comp.eng.get(invalid_edges_node_two).unwrap(),
        graph_coloring_comp.eng.get(invalid_edges_node_three).unwrap(),
    ];
    assert_eq!(
        invalid_edges,
        vec![Val::I(4), Val::I(0), Val::I(0), Val::I(0)],
        "Invalid edges should be [4, 0, 0, 0]"
    );

    graph_coloring_comp.update_input_node(0, 1).unwrap();

    let invalid_edges = vec![
        graph_coloring_comp.eng.get(invalid_edges_node_zero).unwrap(),
        graph_coloring_comp.eng.get(invalid_edges_node_one).unwrap(),
        graph_coloring_comp.eng.get(invalid_edges_node_two).unwrap(),
        graph_coloring_comp.eng.get(invalid_edges_node_three).unwrap(),
    ];
    assert_eq!(
        invalid_edges,
        vec![Val::I(2), Val::I(0), Val::I(0), Val::I(0)],
        "Invalid edges should be [2, 0, 0, 0]"
    );

    graph_coloring_comp.update_input_node(1, 1).unwrap();

    let invalid_edges = vec![
        graph_coloring_comp.eng.get(invalid_edges_node_zero).unwrap(),
        graph_coloring_comp.eng.get(invalid_edges_node_one).unwrap(),
        graph_coloring_comp.eng.get(invalid_edges_node_two).unwrap(),
        graph_coloring_comp.eng.get(invalid_edges_node_three).unwrap(),
    ];
    assert_eq!(
        invalid_edges,
        vec![Val::I(0), Val::I(0), Val::I(0), Val::I(0)],
        "Invalid edges should be [0, 0, 0, 0]"
    );
}

#[test]
fn test_new_color() {
    let graph = five_node_graph();
    let mut graph_coloring_comp = GraphColoringComp::new(&graph, 5, GraphColouringFlags::default());
    graph_coloring_comp.create_computation_graph();
    let result = graph_coloring_comp.get_result();
    assert_eq!(result, Some(45), "Result should be 45");

    graph_coloring_comp.update_input_node(0, 1).unwrap();
    let result = graph_coloring_comp.get_result();
    assert_eq!(result, Some(23), "Result should be 23");

    graph_coloring_comp.update_input_node(1, 2).unwrap();
    let result = graph_coloring_comp.get_result();
    assert_eq!(result, Some(7), "Result should be 7");

    graph_coloring_comp.update_input_node(2, 1).unwrap();
    let result = graph_coloring_comp.get_result();
    assert_eq!(result, Some(-5), "Result should be -5");

    graph_coloring_comp.update_input_node(4, 2).unwrap();
    let result = graph_coloring_comp.get_result();
    assert_eq!(result, Some(-9), "Result should be -9");
}

#[test]
fn flag_combinations_agree_at_every_step() {
    // the same recoloring sequence under all eight flag combinations
    let steps: Vec<(usize, i32)> = vec![(0, 1), (1, 2), (2, 1), (4, 2)];
    let mut scores: Vec<Vec<i32>> = Vec::new();
    for mask in 0..8u32 {
        let flags = GraphColouringFlags::new(mask & 1 != 0, mask & 2 != 0, mask & 4 != 0);
        let graph = five_node_graph();
        let mut comp = GraphColoringComp::new(&graph, 5, flags);
        comp.create_computation_graph();
        let mut row = vec![comp.get_result().unwrap()];
        for (v, c) in steps.clone() {
            comp.update_input_node(v, c).unwrap();
            row.push(comp.get_result().unwrap());
        }
        scores.push(row);
    }
    for row in &scores {
        assert_eq!(row, &scores[0]);
    }
    assert_eq!(scores[0], vec![45, 23, 7, -5, -9]);
}

#[test]
fn bipartite_graph_under_all_flags() {
    for mask in 0..8u32 {
        let flags = GraphColouringFlags::new(mask & 1 != 0, mask & 2 != 0, mask & 4 != 0);
        let graph = four_node_graph();
        let mut comp = GraphColoringComp::new(&graph, 4, flags);
        comp.create_computation_graph();
        assert_eq!(comp.get_result(), Some(16));
        comp.update_input_node(0, 1).unwrap();
        assert_eq!(comp.get_result(), Some(2));
        comp.update_input_node(1, 1).unwrap();
        assert_eq!(comp.get_result(), Some(-8));
    }
}

#[test]
fn dynamic_growth_matches_static_construction() {
    // with dynamic branches only, assigning the next unused color grows the
    // branch list and the root agrees with the static construction
    let dynamic = GraphColouringFlags::new(false, true, false);
    let static_flags = GraphColouringFlags::default();
    let ga = five_node_graph();
    let gb = five_node_graph();
    let mut a = GraphColoringComp::new(&ga, 5, dynamic);
    let mut b = GraphColoringComp::new(&gb, 5, static_flags);
    a.create_computation_graph();
    b.create_computation_graph();
    let steps: Vec<(usize, i32)> = vec![(0, 1), (1, 2), (3, 1), (2, 2), (4, 1)];
    assert_eq!(a.get_result(), b.get_result());
    for (v, c) in steps {
        a.update_input_node(v, c).unwrap();
        b.update_input_node(v, c).unwrap();
        assert_eq!(a.get_result(), b.get_result());
    }
}

#[test]
fn update_errors_are_reported() {
    let graph = four_node_graph();
    let mut comp = GraphColoringComp::new(&graph, 4, GraphColouringFlags::default());
    comp.create_computation_graph();
    assert!(comp.update_input_node(9, 0).is_err());
    assert!(comp.update_input_node(0, 4).is_err());
    assert!(comp.update_input_node(0, -1).is_err());
    // with dynamic branches a color beyond the next unused one is refused
    let graph2 = four_node_graph();
    let mut dyn_comp = GraphColoringComp::new(&graph2, 4, GraphColouringFlags::new(
        false, true, false,
    ));
    dyn_comp.create_computation_graph();
    assert!(dyn_comp.update_input_node(0, 2).is_err());
    assert!(dyn_comp.update_input_node(0, 1).is_ok());
    comp.seal().unwrap();
    assert!(comp.update_input_node(0, 1).is_err());
    assert!(comp.seal().is_err());
}
