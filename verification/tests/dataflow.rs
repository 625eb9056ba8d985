use bril_midend::block::get_basic_blocks;
use bril_midend::cfg::{form_cfg, rev_graph};
use bril_midend::df::find;
use bril_midend::ir::{Code, EffectOp, Function, Instruction, Literal, Type};
use bril_midend::live_variables::LiveVariables;
use bril_midend::reaching::ReachingDefs;

fn label(name: &str) -> Code {
    Code::Label { label: name.to_string() }
}

fn constant(dest: &str, value: i64) -> Code {
    Code::Instruction(Instruction::Constant {
        dest: dest.to_string(),
        const_type: Type::Int,
        value: Literal::Int(value),
    })
}

fn flag(dest: &str, value: bool) -> Code {
    Code::Instruction(Instruction::Constant {
        dest: dest.to_string(),
        const_type: Type::Bool,
        value: Literal::Bool(value),
    })
}

fn jump(target: &str) -> Code {
    Code::Instruction(Instruction::Effect {
        op: EffectOp::Jump,
        args: vec![],
        labels: vec![target.to_string()],
    })
}

fn branch(cond: &str, then_: &str, else_: &str) -> Code {
    Code::Instruction(Instruction::Effect {
        op: EffectOp::Branch,
        args: vec![cond.to_string()],
        labels: vec![then_.to_string(), else_.to_string()],
    })
}

fn ret() -> Code {
    Code::Instruction(Instruction::Effect { op: EffectOp::Return, args: vec![], labels: vec![] })
}

fn print_of(args: &[&str]) -> Code {
    Code::Instruction(Instruction::Effect {
        op: EffectOp::Other("print".to_string()),
        args: args.iter().map(|a| a.to_string()).collect(),
        labels: vec![],
    })
}

fn func(instrs: Vec<Code>) -> Function {
    Function { name: "main".to_string(), instrs }
}

fn as_sorted(v: &Vec<String>) -> Vec<String> {
    let mut s = v.clone();
    s.sort();
    s.dedup();
    s
}

#[test]
fn branch_keeps_used_variables_live() {
    // b = 1; br cond .then_ .else_ — .then_ uses b, .else_ does not.
    // b flows out of the branching block to the path that uses it, and the
    // branch's own use of cond makes cond live into the branching block.
    let f = func(vec![
        constant("b", 1),
        branch("cond", "then_", "else_"),
        label("then_"),
        print_of(&["b"]),
        ret(),
        label("else_"),
        ret(),
    ]);
    let blocks = get_basic_blocks(&f);
    let succ = form_cfg(&blocks).unwrap();
    let pred = rev_graph(&succ);
    let (live_in, live_out) = find::<LiveVariables>(&blocks, &pred, &succ, 10_000).unwrap();
    let out0 = as_sorted(&live_out[0]);
    assert!(out0.contains(&"b".to_string()));
    let in0 = as_sorted(&live_in[0]);
    assert!(in0.contains(&"cond".to_string()));
    assert!(!in0.contains(&"b".to_string()));
    // nothing is live out of the two return blocks
    assert!(live_out[1].is_empty());
    assert!(live_out[2].is_empty());
}

#[test]
fn definition_kills_liveness_but_use_before_kill_stays() {
    let f = func(vec![constant("x", 1), jump("next"), label("next"), print_of(&["x"]), constant(
        "x", 2,
    )]);
    let blocks = get_basic_blocks(&f);
    let succ = form_cfg(&blocks).unwrap();
    let pred = rev_graph(&succ);
    let (live_in, live_out) = find::<LiveVariables>(&blocks, &pred, &succ, 10_000).unwrap();
    // x is used at the top of block 1, so it is live into and out of block 0
    assert_eq!(as_sorted(&live_in[1]), vec!["x".to_string()]);
    assert_eq!(as_sorted(&live_out[0]), vec!["x".to_string()]);
    // block 0 defines x before any use on entry
    assert!(live_in[0].is_empty());
}

fn lookup<'a>(state: &'a Vec<(String, Vec<usize>)>, var: &str) -> Option<Vec<usize>> {
    for (k, ids) in state {
        if k == var {
            let mut s = ids.clone();
            s.sort();
            s.dedup();
            return Some(s);
        }
    }
    None
}

#[test]
fn loop_header_sees_both_definitions_of_a_loop_carried_variable() {
    // block 0: x = 1; c = true; jmp .header
    // block 1 (.header): br c .body .exit
    // block 2 (.body): x = 2; jmp .header
    // block 3 (.exit): ret
    let f = func(vec![
        constant("x", 1),
        flag("c", true),
        jump("header"),
        label("header"),
        branch("c", "body", "exit"),
        label("body"),
        constant("x", 2),
        jump("header"),
        label("exit"),
        ret(),
    ]);
    let blocks = get_basic_blocks(&f);
    let succ = form_cfg(&blocks).unwrap();
    let pred = rev_graph(&succ);
    let (ins, outs) = find::<ReachingDefs>(&blocks, &pred, &succ, 10_000).unwrap();
    // at the loop header, both the pre-loop and the loop-body definition of x reach
    assert_eq!(lookup(&ins[1], "x"), Some(vec![0, 2]));
    // inside the body, its own definition replaces them on the way out
    assert_eq!(lookup(&outs[2], "x"), Some(vec![2]));
    // at the exit, both may still be current
    assert_eq!(lookup(&ins[3], "x"), Some(vec![0, 2]));
    assert_eq!(lookup(&ins[1], "c"), Some(vec![0]));
}

#[test]
fn engine_work_is_bounded_by_the_budget() {
    let f = func(vec![
        constant("a", 1),
        jump("next"),
        label("next"),
        constant("b", 2),
        label("end"),
        ret(),
    ]);
    let blocks = get_basic_blocks(&f);
    let succ = form_cfg(&blocks).unwrap();
    let pred = rev_graph(&succ);
    let n = blocks.len();
    // no value ever changes for liveness here, so one visit per block settles it
    assert!(find::<LiveVariables>(&blocks, &pred, &succ, n).is_some());
    // and the engine never does work beyond its budget
    assert!(find::<LiveVariables>(&blocks, &pred, &succ, n - 1).is_none());
    assert!(find::<LiveVariables>(&blocks, &pred, &succ, 0).is_none());
}
