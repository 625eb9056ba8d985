use bril_midend::block::get_basic_blocks;
use bril_midend::cfg::{form_cfg, rev_graph};
use bril_midend::error::AnalysisError;
use bril_midend::ir::{Code, EffectOp, Function, Instruction, Literal, Type};

fn label(name: &str) -> Code {
    Code::Label { label: name.to_string() }
}

fn constant(dest: &str, value: i64) -> Code {
    Code::Instruction(Instruction::Constant {
        dest: dest.to_string(),
        const_type: Type::Int,
        value: Literal::Int(value),
    })
}

fn jump(target: &str) -> Code {
    Code::Instruction(Instruction::Effect {
        op: EffectOp::Jump,
        args: vec![],
        labels: vec![target.to_string()],
    })
}

fn branch(cond: &str, then_: &str, else_: &str) -> Code {
    Code::Instruction(Instruction::Effect {
        op: EffectOp::Branch,
        args: vec![cond.to_string()],
        labels: vec![then_.to_string(), else_.to_string()],
    })
}

fn ret() -> Code {
    Code::Instruction(Instruction::Effect { op: EffectOp::Return, args: vec![], labels: vec![] })
}

fn func(instrs: Vec<Code>) -> Function {
    Function { name: "main".to_string(), instrs }
}

#[test]
fn branch_edges_come_in_label_declaration_order() {
    // block 0 branches to .b then .a, declared in that order
    let f = func(vec![
        constant("c", 1),
        branch("c", "b", "a"),
        label("a"),
        ret(),
        label("b"),
        ret(),
    ]);
    let blocks = get_basic_blocks(&f);
    let succ = form_cfg(&blocks).unwrap();
    assert_eq!(succ, vec![vec![2, 1], vec![], vec![]]);
}

#[test]
fn fall_through_and_return_edges() {
    let f = func(vec![
        constant("a", 1),
        label("mid"),
        constant("b", 2),
        label("end"),
        ret(),
    ]);
    let blocks = get_basic_blocks(&f);
    let succ = form_cfg(&blocks).unwrap();
    // block 0 falls through to 1, 1 falls through to 2, 2 returns
    assert_eq!(succ, vec![vec![1], vec![2], vec![]]);
}

#[test]
fn last_block_has_no_fall_through() {
    let f = func(vec![constant("a", 1)]);
    let blocks = get_basic_blocks(&f);
    let succ = form_cfg(&blocks).unwrap();
    assert_eq!(succ, vec![Vec::<usize>::new()]);
}

#[test]
fn missing_label_is_rejected() {
    let f = func(vec![jump("nowhere")]);
    let blocks = get_basic_blocks(&f);
    match form_cfg(&blocks) {
        Err(AnalysisError::MissingLabel { label }) => assert_eq!(label, "nowhere"),
        other => panic!("expected a missing-label error, got {:?}", other),
    }
}

#[test]
fn duplicate_label_is_rejected() {
    let f = func(vec![jump("twice"), label("twice"), ret(), label("twice"), ret()]);
    let blocks = get_basic_blocks(&f);
    match form_cfg(&blocks) {
        Err(AnalysisError::DuplicateLabel { label }) => assert_eq!(label, "twice"),
        other => panic!("expected a duplicate-label error, got {:?}", other),
    }
}

#[test]
fn empty_function_has_no_cfg() {
    let blocks: Vec<Vec<Code>> = vec![];
    assert_eq!(form_cfg(&blocks), Err(AnalysisError::EmptyFunction));
}

#[test]
fn rev_graph_inverts_every_edge() {
    let g = vec![vec![1, 2], vec![2], vec![0, 2]];
    let r = rev_graph(&g);
    assert_eq!(r, vec![vec![2], vec![0], vec![0, 1, 2]]);
}

#[test]
fn rev_graph_of_diamond() {
    let g = vec![vec![1, 2], vec![3], vec![3], vec![]];
    let r = rev_graph(&g);
    assert_eq!(r, vec![vec![], vec![0], vec![0], vec![1, 2]]);
}
