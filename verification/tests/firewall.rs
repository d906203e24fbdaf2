//! The firewall pattern end to end: a thunk that rebinds an output cell acts
//! as a change barrier, and a no-op set re-executes nothing at all.

use ddg::engine::{Engine, Body, Val, Trace, EngineError};
use ddg::diagnostics::Diagnostics;

fn reruns_of(traces: &Vec<Trace>) -> Vec<usize> {
    let mut out = Vec::new();
    for t in traces {
        if let Trace::ForceRerun { id } = t {
            out.push(*id);
        }
    }
    out
}

#[test]
fn naive_firewall() {
    // cell(a) -> firewall thunk(t) -> cell(b) -> thunk(h)
    let mut eng = Engine::new();
    eng.trace_begin();
    let a = eng.cell(2);
    let t = eng.thunk(Body::FwSquare { c: a });
    let h = eng.thunk(Body::Read { x: t, fw: true });
    let res = eng.get(h);
    println!("Result: {:?}", res);
    assert_eq!(res, Ok(Val::I(4)));
    eng.set(a, -2);
    let res = eng.get(h);
    println!("Result: {:?}", res);
    assert_eq!(res, Ok(Val::I(4)));
    let traces = eng.trace_end();
    let diagnostics = Diagnostics::new(traces).analyse();
    println!("Traces: {:?}", diagnostics.trace_count);
    // the square of -2 equals the square of 2, so the barrier held: h never
    // ran a second time
    assert_eq!(diagnostics.cells_count, 2);
    assert_eq!(diagnostics.thunks_count, 2);
}

#[test]
fn firewall_testing() {
    let mut eng = Engine::new();
    let a = eng.cell(2);
    let b = eng.cell(3);
    let c = eng.cell(4);
    let d = eng.cell(5);
    let t1 = eng.thunk(Body::FwSquare { c: a });
    let t2 = eng.thunk(Body::FwSquare { c: b });
    let t3 = eng.thunk(Body::FwSquare { c: c });
    let t4 = eng.thunk(Body::FwSquare { c: d });
    let h = eng.thunk(Body::Sum { xs: vec![t1, t2, t3, t4], fw: true });
    let res = eng.get(h);
    println!("Result: {:?}", res);
    assert_eq!(res, Ok(Val::I(4 + 9 + 16 + 25)));
    eng.set(a, -2);
    eng.set(b, -3);
    eng.set(c, -4);
    eng.set(d, -5);
    eng.trace_begin();
    let res = eng.get(h);
    println!("Result: {:?}", res);
    assert_eq!(res, Ok(Val::I(54)));
    // the squares did not change, so only the firewall thunks re-ran
    let traces = eng.trace_end();
    let rr = reruns_of(&traces);
    assert!(!rr.contains(&h));
    eng.set(a, 4);
    eng.set(b, 6);
    eng.set(c, 8);
    eng.set(d, 10);
    let res = eng.get(h);
    println!("Result: {:?}", res);
    assert_eq!(res, Ok(Val::I(16 + 36 + 64 + 100)));
}

#[test]
fn firewall_chain_oscillating_input() {
    // input -> square -> reader -> total, length 10, classic and firewall
    let n = 10usize;
    // firewall variant
    let mut eng = Engine::new();
    let mut inputs = Vec::new();
    for _ in 0..n {
        inputs.push(eng.cell(0));
    }
    let mut longs = Vec::new();
    for k in 0..n {
        let sq = eng.thunk(Body::FwSquare { c: inputs[k] });
        longs.push(eng.thunk(Body::Read { x: sq, fw: true }));
    }
    let root = eng.thunk(Body::Sum { xs: longs.clone(), fw: false });
    assert_eq!(eng.get(root), Ok(Val::I(0)));
    eng.set(inputs[0], 1);
    assert_eq!(eng.get(root), Ok(Val::I(1)));
    // oscillate: the square stays 1, so no downstream thunk re-executes
    let seq = [-1i32, 1, -1, 1, -1];
    for v in seq {
        eng.trace_begin();
        eng.set(inputs[0], v);
        assert_eq!(eng.get(root), Ok(Val::I(1)));
        let traces = eng.trace_end();
        let rr = reruns_of(&traces);
        for lg in &longs {
            assert!(!rr.contains(lg));
        }
        assert!(!rr.contains(&root));
    }
}

#[test]
fn noop_set_reexecutes_nothing() {
    let mut eng = Engine::new();
    let a = eng.cell(7);
    let sq = eng.thunk(Body::Square { c: a });
    let root = eng.thunk(Body::Read { x: sq, fw: false });
    assert_eq!(eng.get(root), Ok(Val::I(49)));
    eng.trace_begin();
    eng.set(a, 7);
    assert_eq!(eng.get(root), Ok(Val::I(49)));
    let traces = eng.trace_end();
    assert_eq!(reruns_of(&traces).len(), 0);
    assert!(traces.contains(&Trace::SetNoChange { id: a }));
}

#[test]
fn cyclic_dependency_is_detected() {
    let mut eng = Engine::new();
    let me = eng.node_count();
    let t = eng.thunk(Body::Read { x: me, fw: false });
    assert_eq!(t, me);
    assert_eq!(eng.get(t), Err(EngineError::CyclicDependency));
    // no partial cached value: a second demand fails the same way
    assert_eq!(eng.get(t), Err(EngineError::CyclicDependency));
}

#[test]
fn unknown_location_is_refused() {
    let mut eng = Engine::new();
    assert_eq!(eng.get(3), Err(EngineError::UnknownLocation));
}

#[test]
fn body_fault_rolls_back() {
    let mut eng = Engine::new();
    let a = eng.cell(99);
    // a leg whose index is far outside its table
    let leg = eng.thunk(Body::Leg { a, b: a, w: vec![vec![0, 1], vec![1, 0]] });
    assert_eq!(eng.get(leg), Err(EngineError::BodyPanic));
    // after the cell returns to range, the thunk runs fine
    eng.set(a, 1);
    assert_eq!(eng.get(leg), Ok(Val::I(0)));
}
