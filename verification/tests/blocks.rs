use bril_midend::ir::{Code, EffectOp, Function, Instruction, Literal, Type};
use bril_midend::block::{flatten, get_basic_blocks};

fn label(name: &str) -> Code {
    Code::Label { label: name.to_string() }
}

fn constant(dest: &str, value: i64) -> Code {
    Code::Instruction(Instruction::Constant {
        dest: dest.to_string(),
        const_type: Type::Int,
        value: Literal::Int(value),
    })
}

fn jump(target: &str) -> Code {
    Code::Instruction(Instruction::Effect {
        op: EffectOp::Jump,
        args: vec![],
        labels: vec![target.to_string()],
    })
}

fn ret() -> Code {
    Code::Instruction(Instruction::Effect { op: EffectOp::Return, args: vec![], labels: vec![] })
}

fn print_of(args: &[&str]) -> Code {
    Code::Instruction(Instruction::Effect {
        op: EffectOp::Other("print".to_string()),
        args: args.iter().map(|a| a.to_string()).collect(),
        labels: vec![],
    })
}

fn func(instrs: Vec<Code>) -> Function {
    Function { name: "main".to_string(), instrs }
}

#[test]
fn reflatten_reproduces_stream() {
    let instrs = vec![
        constant("x", 1),
        jump("next"),
        label("next"),
        constant("y", 2),
        print_of(&["x", "y"]),
        ret(),
        label("tail"),
        constant("z", 3),
    ];
    let f = func(instrs.clone());
    let blocks = get_basic_blocks(&f);
    assert_eq!(flatten(blocks), instrs);
}

#[test]
fn empty_function_yields_no_blocks() {
    let f = func(vec![]);
    assert_eq!(get_basic_blocks(&f).len(), 0);
}

#[test]
fn stream_without_labels_or_terminators_is_one_block() {
    let instrs = vec![constant("a", 1), constant("b", 2), print_of(&["a"])];
    let f = func(instrs.clone());
    let blocks = get_basic_blocks(&f);
    assert_eq!(blocks.len(), 1);
    assert_eq!(blocks[0], instrs);
}

#[test]
fn labels_and_terminators_split_blocks() {
    let f = func(vec![
        constant("a", 1),
        jump("l1"),
        label("l1"),
        constant("b", 2),
        label("l2"),
        ret(),
    ]);
    let blocks = get_basic_blocks(&f);
    assert_eq!(blocks.len(), 3);
    assert_eq!(blocks[0], vec![constant("a", 1), jump("l1")]);
    assert_eq!(blocks[1], vec![label("l1"), constant("b", 2)]);
    assert_eq!(blocks[2], vec![label("l2"), ret()]);
}

#[test]
fn no_block_is_empty_and_blocks_are_well_formed() {
    let f = func(vec![
        label("a"),
        label("b"),
        jump("a"),
        ret(),
        ret(),
        constant("x", 1),
    ]);
    let blocks = get_basic_blocks(&f);
    for block in &blocks {
        assert!(!block.is_empty());
        for (i, item) in block.iter().enumerate() {
            if i > 0 {
                assert!(!matches!(item, Code::Label { .. }));
            }
            if i + 1 < block.len() {
                let terminator = matches!(
                    item,
                    Code::Instruction(Instruction::Effect {
                        op: EffectOp::Jump | EffectOp::Branch | EffectOp::Return,
                        ..
                    })
                );
                assert!(!terminator);
            }
        }
    }
    assert_eq!(flatten(blocks), f.instrs);
}
