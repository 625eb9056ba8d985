use bril_midend::block::get_basic_blocks;
use bril_midend::cfg::{form_cfg, rev_graph};
use bril_midend::df::find;
use bril_midend::dom::{dom_frontier, find_dominators};
use bril_midend::ir::{Code, EffectOp, Function, Instruction, Literal, Type};
use bril_midend::reaching::ReachingDefs;
use bril_midend::ssa::{get_defs, place_phi_nodes};

fn label(name: &str) -> Code {
    Code::Label { label: name.to_string() }
}

fn constant(dest: &str, value: i64) -> Code {
    Code::Instruction(Instruction::Constant {
        dest: dest.to_string(),
        const_type: Type::Int,
        value: Literal::Int(value),
    })
}

fn flag(dest: &str, value: bool) -> Code {
    Code::Instruction(Instruction::Constant {
        dest: dest.to_string(),
        const_type: Type::Bool,
        value: Literal::Bool(value),
    })
}

fn jump(target: &str) -> Code {
    Code::Instruction(Instruction::Effect {
        op: EffectOp::Jump,
        args: vec![],
        labels: vec![target.to_string()],
    })
}

fn branch(cond: &str, then_: &str, else_: &str) -> Code {
    Code::Instruction(Instruction::Effect {
        op: EffectOp::Branch,
        args: vec![cond.to_string()],
        labels: vec![then_.to_string(), else_.to_string()],
    })
}

fn ret() -> Code {
    Code::Instruction(Instruction::Effect { op: EffectOp::Return, args: vec![], labels: vec![] })
}

fn func(instrs: Vec<Code>) -> Function {
    Function { name: "main".to_string(), instrs }
}

fn lookup(state: &Vec<(String, Vec<usize>)>, var: &str) -> Option<Vec<usize>> {
    for (k, ids) in state {
        if k == var {
            let mut s = ids.clone();
            s.sort();
            s.dedup();
            return Some(s);
        }
    }
    None
}

// Entry -> {A, B} -> Join, with `a` defined differently in A and B
fn diamond_function() -> Function {
    func(vec![
        flag("c", true),
        branch("c", "then_", "else_"),
        label("then_"),
        constant("a", 1),
        jump("join"),
        label("else_"),
        constant("a", 2),
        jump("join"),
        label("join"),
        ret(),
    ])
}

#[test]
fn definition_table_lists_every_defining_block() {
    let f = diamond_function();
    let blocks = get_basic_blocks(&f);
    let defs = get_defs(&blocks);
    assert_eq!(lookup(&defs, "a"), Some(vec![1, 2]));
    assert_eq!(lookup(&defs, "c"), Some(vec![0]));
    assert_eq!(lookup(&defs, "missing"), None);
}

#[test]
fn diamond_needs_exactly_one_phi_at_the_join() {
    let f = diamond_function();
    let blocks = get_basic_blocks(&f);
    let succ = form_cfg(&blocks).unwrap();
    let pred = rev_graph(&succ);
    let doms = find_dominators(&pred, &succ);
    let df = dom_frontier(&doms, &pred);
    let defs = get_defs(&blocks);
    let (reaching_in, _) = find::<ReachingDefs>(&blocks, &pred, &succ, 10_000).unwrap();
    let phis = place_phi_nodes(&defs, &df, &reaching_in).unwrap();
    // one phi for `a`, at the join block, selecting between blocks 1 and 2
    assert_eq!(phis.len(), 4);
    assert_eq!(lookup(&phis[3], "a"), Some(vec![1, 2]));
    assert_eq!(phis[3].len(), 1);
    assert!(phis[0].is_empty());
    assert!(phis[1].is_empty());
    assert!(phis[2].is_empty());
}

#[test]
fn loop_carried_variable_gets_a_phi_at_the_header() {
    // block 0: x = 1; c = true; jmp .header
    // block 1 (.header): br c .body .exit
    // block 2 (.body): x = 2; jmp .header
    // block 3 (.exit): ret
    let f = func(vec![
        constant("x", 1),
        flag("c", true),
        jump("header"),
        label("header"),
        branch("c", "body", "exit"),
        label("body"),
        constant("x", 2),
        jump("header"),
        label("exit"),
        ret(),
    ]);
    let blocks = get_basic_blocks(&f);
    let succ = form_cfg(&blocks).unwrap();
    let pred = rev_graph(&succ);
    let doms = find_dominators(&pred, &succ);
    let df = dom_frontier(&doms, &pred);
    let defs = get_defs(&blocks);
    let (reaching_in, _) = find::<ReachingDefs>(&blocks, &pred, &succ, 10_000).unwrap();
    let phis = place_phi_nodes(&defs, &df, &reaching_in).unwrap();
    // x needs a phi at the loop header, fed by the entry and the body
    assert_eq!(lookup(&phis[1], "x"), Some(vec![0, 2]));
    // c is defined only in the entry, which dominates everything: no phi
    assert_eq!(lookup(&phis[1], "c"), None);
    assert!(phis[0].is_empty());
    assert!(phis[2].is_empty());
    assert!(phis[3].is_empty());
}

#[test]
fn straight_line_code_needs_no_phis() {
    let f = func(vec![constant("x", 1), jump("next"), label("next"), constant("x", 2), ret()]);
    let blocks = get_basic_blocks(&f);
    let succ = form_cfg(&blocks).unwrap();
    let pred = rev_graph(&succ);
    let doms = find_dominators(&pred, &succ);
    let df = dom_frontier(&doms, &pred);
    let defs = get_defs(&blocks);
    let (reaching_in, _) = find::<ReachingDefs>(&blocks, &pred, &succ, 10_000).unwrap();
    let phis = place_phi_nodes(&defs, &df, &reaching_in).unwrap();
    for row in &phis {
        assert!(row.is_empty());
    }
}

#[test]
fn phi_without_a_reaching_definition_is_an_internal_inconsistency() {
    // block 0: jmp .f — block 1 (.f) is reachable
    // block 2 (.p): jmp .f — unreachable, yet a predecessor of .f
    // block 3 (.d): x = 1; ret — unreachable, the only definition of x
    // The unreachable predecessor keeps the trivial full dominator set, so
    // .f lands in the frontier of .d and wants a phi for x, but no
    // definition of x reaches .f.
    let f = func(vec![
        jump("f"),
        label("f"),
        ret(),
        label("p"),
        jump("f"),
        label("d"),
        constant("x", 1),
        ret(),
    ]);
    let blocks = get_basic_blocks(&f);
    let succ = form_cfg(&blocks).unwrap();
    let pred = rev_graph(&succ);
    let doms = find_dominators(&pred, &succ);
    let df = dom_frontier(&doms, &pred);
    assert!(df[3].contains(&1));
    let defs = get_defs(&blocks);
    let (reaching_in, _) = find::<ReachingDefs>(&blocks, &pred, &succ, 10_000).unwrap();
    match place_phi_nodes(&defs, &df, &reaching_in) {
        Err(bril_midend::error::AnalysisError::MissingReachingDef { variable }) => {
            assert_eq!(variable, "x");
        }
        other => panic!("expected a missing-reaching-definition error, got {:?}", other),
    }
}
