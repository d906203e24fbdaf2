//! The tour-length dependency graph alone: from the zero tour through two
//! batches of updates, and agreement with direct summation on every
//! permutation of five vertices.

use ddg::tsp_comp::TspComp;

fn testing_table() -> Vec<Vec<i32>> {
    vec![
        vec![0, 1, 7, 6, 1],
        vec![1, 0, 1, 4, 9],
        vec![7, 1, 0, 1, 8],
        vec![6, 4, 1, 0, 1],
        vec![1, 9, 8, 1, 0],
    ]
}

#[test]
fn test() {
    let size = 5;
    let al = testing_table();
    let mut tsp_comp = TspComp::new(al, size);
    assert_eq!(tsp_comp.get_result(), 0);

    let updates = vec![(0, 4), (1, 3), (2, 0), (3, 2), (4, 1)];
    tsp_comp.update_input_nodes(updates).unwrap();
    assert_eq!(tsp_comp.get_result(), 24);

    let updates = vec![(0, 0), (1, 1), (2, 2), (3, 3), (4, 4)];
    tsp_comp.update_input_nodes(updates).unwrap();
    assert_eq!(tsp_comp.get_result(), 5);
    tsp_comp.seal().unwrap();
}

#[test]
fn sealed_graph_refuses_updates() {
    let mut tsp_comp = TspComp::new(testing_table(), 5);
    tsp_comp.seal().unwrap();
    assert!(tsp_comp.update_input_nodes(vec![(0, 1)]).is_err());
    assert!(tsp_comp.seal().is_err());
}

fn naive_len(al: &Vec<Vec<i32>>, p: &Vec<i32>) -> i32 {
    let mut len = 0;
    for k in 0..p.len() {
        let u = p[k] as usize;
        let v = p[(k + 1) % p.len()] as usize;
        len += al[u][v];
    }
    len
}

fn permutations(items: Vec<i32>) -> Vec<Vec<i32>> {
    if items.len() <= 1 {
        return vec![items];
    }
    let mut out = Vec::new();
    for k in 0..items.len() {
        let mut rest = items.clone();
        let head = rest.remove(k);
        for mut tail in permutations(rest) {
            let mut perm = vec![head];
            perm.append(&mut tail);
            out.push(perm);
        }
    }
    out
}

#[test]
fn incremental_equals_naive_on_all_permutations() {
    let size = 5;
    let al = testing_table();
    let mut tsp_comp = TspComp::new(testing_table(), size);
    let perms = permutations(vec![0, 1, 2, 3, 4]);
    assert_eq!(perms.len(), 120);
    for p in perms {
        let updates: Vec<(usize, i32)> = p.iter().enumerate().map(|(i, v)| (i, *v)).collect();
        tsp_comp.update_input_nodes(updates).unwrap();
        assert_eq!(tsp_comp.get_result(), naive_len(&al, &p));
    }
}
