use bril_midend::cfg::rev_graph;
use bril_midend::dom::{dom_frontier, find_dominators, form_dom_tree, postorder};

fn doms_of(succ: &Vec<Vec<usize>>) -> Vec<Vec<usize>> {
    let pred = rev_graph(succ);
    find_dominators(&pred, succ)
}

// Entry -> {A, B} -> Join
fn diamond() -> Vec<Vec<usize>> {
    vec![vec![1, 2], vec![3], vec![3], vec![]]
}

// 0 -> 1 (header) -> {2 (body), 3 (exit)}, 2 -> 1
fn loop_graph() -> Vec<Vec<usize>> {
    vec![vec![1], vec![2, 3], vec![1], vec![]]
}

// an irregular graph with a cycle, a join, and an unreachable node
fn tangle() -> Vec<Vec<usize>> {
    vec![
        vec![1, 2],
        vec![3],
        vec![3, 4],
        vec![5],
        vec![5, 2],
        vec![1],
        vec![0], // unreachable from the entry
    ]
}

#[test]
fn every_block_dominates_itself_and_entry_dominates_all() {
    for g in [diamond(), loop_graph(), tangle()] {
        let doms = doms_of(&g);
        for (b, set) in doms.iter().enumerate() {
            assert!(set.contains(&b), "block {} missing from its own set", b);
            assert!(set.contains(&0), "entry missing from dominators of {}", b);
        }
    }
}

#[test]
fn entry_is_dominated_by_itself_alone() {
    for g in [diamond(), loop_graph(), tangle()] {
        let doms = doms_of(&g);
        assert_eq!(doms[0], vec![0]);
    }
}

#[test]
fn dominator_inclusion_is_transitive() {
    for g in [diamond(), loop_graph(), tangle()] {
        let doms = doms_of(&g);
        let n = doms.len();
        for a in 0..n {
            for b in 0..n {
                for c in 0..n {
                    if doms[b].contains(&a) && doms[c].contains(&b) {
                        assert!(
                            doms[c].contains(&a),
                            "{} dominates {} and {} dominates {}, but {} is not in doms({})",
                            a, b, b, c, a, c
                        );
                    }
                }
            }
        }
    }
}

#[test]
fn single_predecessor_adds_itself_to_its_predecessors_set() {
    for g in [diamond(), loop_graph(), tangle()] {
        let pred = rev_graph(&g);
        let doms = find_dominators(&pred, &g);
        let order = postorder(&g);
        for b in 1..g.len() {
            if pred[b].len() == 1 && order.contains(&b) {
                let p = pred[b][0];
                let mut expected = doms[p].clone();
                if !expected.contains(&b) {
                    expected.push(b);
                    expected.sort();
                }
                assert_eq!(doms[b], expected, "block {}", b);
            }
        }
    }
}

#[test]
fn diamond_dominators_and_frontier() {
    let g = diamond();
    let pred = rev_graph(&g);
    let doms = find_dominators(&pred, &g);
    assert_eq!(doms[3], vec![0, 3]);
    assert_eq!(doms[1], vec![0, 1]);
    assert_eq!(doms[2], vec![0, 2]);
    let df = dom_frontier(&doms, &pred);
    assert_eq!(df[1], vec![3]);
    assert_eq!(df[2], vec![3]);
    assert_eq!(df[3], Vec::<usize>::new());
}

#[test]
fn loop_header_frontier_contains_itself() {
    let g = loop_graph();
    let pred = rev_graph(&g);
    let doms = find_dominators(&pred, &g);
    assert_eq!(doms[1], vec![0, 1]);
    assert_eq!(doms[2], vec![0, 1, 2]);
    assert_eq!(doms[3], vec![0, 1, 3]);
    let df = dom_frontier(&doms, &pred);
    // the back edge 2 -> 1 puts the header in its own frontier and the body's
    assert_eq!(df[1], vec![1]);
    assert_eq!(df[2], vec![1]);
}

#[test]
fn unreachable_block_keeps_the_full_set() {
    let g = tangle();
    let doms = doms_of(&g);
    assert_eq!(doms[6], vec![0, 1, 2, 3, 4, 5, 6]);
}

#[test]
fn dominator_tree_of_diamond() {
    let g = diamond();
    let doms = doms_of(&g);
    let tree = form_dom_tree(&doms);
    assert_eq!(tree, vec![vec![1, 2, 3], vec![], vec![], vec![]]);
}

#[test]
fn dominator_tree_of_loop() {
    let g = loop_graph();
    let doms = doms_of(&g);
    let tree = form_dom_tree(&doms);
    assert_eq!(tree, vec![vec![1], vec![2, 3], vec![], vec![]]);
}

#[test]
fn postorder_visits_exactly_the_reachable_blocks() {
    let g = tangle();
    let order = postorder(&g);
    let mut sorted = order.clone();
    sorted.sort();
    assert_eq!(sorted, vec![0, 1, 2, 3, 4, 5]);
    assert_eq!(*order.last().unwrap(), 0);
}
