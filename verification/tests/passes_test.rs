use passes::blocks::{
    cfg2program, fun2cfg, prog2bb, remove_unreachable_blocks, BBFun, BasicBlock, BlockLabel,
    FnMeta,
};
use passes::dce::dce;
use passes::ir::{Code, EffectOp, FnArg, Instr, IrFunction, Lit, Program, Type, ValueOp};
use passes::lvn::lvn_dce;

fn konst(dest: &str, v: i64) -> Code {
    Code::Instruction(Instr::Constant {
        dest: dest.to_string(),
        const_type: Type::Int,
        value: Lit::Int(v),
    })
}

fn binop(op: ValueOp, dest: &str, a: &str, b: &str) -> Code {
    Code::Instruction(Instr::Value {
        op,
        dest: dest.to_string(),
        val_type: Type::Int,
        args: vec![a.to_string(), b.to_string()],
        funcs: vec![],
        labels: vec![],
    })
}

fn print_of(a: &str) -> Code {
    Code::Instruction(Instr::Effect {
        op: EffectOp::Print,
        args: vec![a.to_string()],
        funcs: vec![],
        labels: vec![],
    })
}

fn ret() -> Code {
    Code::Instruction(Instr::Effect {
        op: EffectOp::Return,
        args: vec![],
        funcs: vec![],
        labels: vec![],
    })
}

fn jmp(l: &str) -> Code {
    Code::Instruction(Instr::Effect {
        op: EffectOp::Jump,
        args: vec![],
        funcs: vec![],
        labels: vec![l.to_string()],
    })
}

fn br(c: &str, l1: &str, l2: &str) -> Code {
    Code::Instruction(Instr::Effect {
        op: EffectOp::Branch,
        args: vec![c.to_string()],
        funcs: vec![],
        labels: vec![l1.to_string(), l2.to_string()],
    })
}

fn label(l: &str) -> Code {
    Code::Label { label: l.to_string() }
}

fn nop() -> Code {
    Code::Instruction(Instr::Effect {
        op: EffectOp::Nop,
        args: vec![],
        funcs: vec![],
        labels: vec![],
    })
}

fn one_fun(name: &str, instrs: Vec<Code>) -> Program {
    Program {
        functions: vec![IrFunction {
            name: name.to_string(),
            args: vec![],
            return_type: None,
            instrs,
        }],
    }
}

fn plain_block(label: BlockLabel, instrs: Vec<Code>) -> BasicBlock {
    BasicBlock {
        label,
        label_instr: None,
        instrs,
        live: true,
        in_edges: vec![],
        out_edges: vec![],
    }
}

fn is_nop(c: &Code) -> bool {
    matches!(
        c,
        Code::Instruction(Instr::Effect { op: EffectOp::Nop, args, funcs, labels })
            if args.is_empty() && funcs.is_empty() && labels.is_empty()
    )
}

#[test]
fn block_split_basic() {
    let p = one_fun(
        "main",
        vec![
            konst("a", 1),
            label("loop"),
            binop(ValueOp::Add, "b", "a", "a"),
            jmp("loop"),
        ],
    );
    let funs = prog2bb(p);
    assert_eq!(funs.len(), 1);
    let blocks = &funs[0].blocks;
    assert_eq!(blocks.len(), 3);
    assert_eq!(blocks[0].label, BlockLabel::Entry);
    assert_eq!(blocks[0].instrs, vec![konst("a", 1)]);
    assert_eq!(blocks[1].label, BlockLabel::Named("loop".to_string()));
    assert_eq!(blocks[1].label_instr, Some(label("loop")));
    assert_eq!(
        blocks[1].instrs,
        vec![binop(ValueOp::Add, "b", "a", "a"), jmp("loop")]
    );
    assert_eq!(blocks[2].label, BlockLabel::Fresh(0));
    assert!(blocks[2].instrs.is_empty());
    assert!(blocks.iter().all(|b| b.live));
}

#[test]
fn block_split_every_target_names_one_block() {
    let p = one_fun(
        "main",
        vec![
            br("c", "left", "right"),
            label("left"),
            ret(),
            label("right"),
            ret(),
        ],
    );
    let funs = prog2bb(p);
    let blocks = &funs[0].blocks;
    for want in ["left", "right"] {
        let hits = blocks
            .iter()
            .filter(|b| b.label == BlockLabel::Named(want.to_string()))
            .count();
        assert_eq!(hits, 1);
    }
}

#[test]
fn edge_symmetry_after_cfg() {
    let p = one_fun(
        "main",
        vec![
            konst("c", 1),
            br("c", "left", "right"),
            label("left"),
            konst("x", 2),
            label("right"),
            ret(),
        ],
    );
    let mut funs = prog2bb(p);
    fun2cfg(&mut funs[0]);
    let blocks = &funs[0].blocks;
    let n = blocks.len();
    for s in 0..n {
        for t in 0..n {
            let out_has = blocks[s].out_edges.contains(&t);
            let in_has = blocks[t].in_edges.contains(&s);
            assert_eq!(out_has, in_has);
        }
    }
}

#[test]
fn cfg_edges_by_last_instruction() {
    let p = one_fun(
        "main",
        vec![
            konst("c", 1),
            br("c", "left", "right"),
            label("left"),
            ret(),
            label("right"),
            konst("x", 2),
        ],
    );
    let mut funs = prog2bb(p);
    fun2cfg(&mut funs[0]);
    let blocks = &funs[0].blocks;
    assert_eq!(blocks.len(), 3);
    // entry branches to both labels
    let mut entry_out = blocks[0].out_edges.clone();
    entry_out.sort();
    assert_eq!(entry_out, vec![1, 2]);
    // block "left" ends in a return: no successor
    assert!(blocks[1].out_edges.is_empty());
    // block "right" ends in a constant: falls through to the virtual exit,
    // the out-of-range index just past the last block
    assert_eq!(blocks[2].out_edges, vec![3]);
}

#[test]
fn unreachable_chain_dies() {
    // entry returns; a dead-end chain a -> b -> c hangs off nothing
    let fun = BBFun {
        blocks: vec![
            plain_block(BlockLabel::Entry, vec![ret()]),
            plain_block(BlockLabel::Named("a".to_string()), vec![konst("x", 1)]),
            plain_block(BlockLabel::Named("b".to_string()), vec![konst("y", 2)]),
            plain_block(BlockLabel::Named("c".to_string()), vec![konst("z", 3)]),
        ],
        function: FnMeta { name: "main".to_string(), args: vec![], return_type: None },
    };
    let mut fun = fun;
    fun.blocks[2].in_edges = vec![1];
    fun.blocks[1].out_edges = vec![2];
    fun.blocks[3].in_edges = vec![2];
    fun.blocks[2].out_edges = vec![3];
    remove_unreachable_blocks(&mut fun);
    assert!(fun.blocks[0].live);
    assert!(!fun.blocks[1].live);
    assert!(!fun.blocks[2].live);
    assert!(!fun.blocks[3].live);
}

#[test]
fn entry_block_never_dies() {
    let mut fun = BBFun {
        blocks: vec![plain_block(BlockLabel::Entry, vec![konst("x", 1)])],
        function: FnMeta { name: "main".to_string(), args: vec![], return_type: None },
    };
    remove_unreachable_blocks(&mut fun);
    assert!(fun.blocks[0].live);
}

#[test]
fn dce_keeps_all_used() {
    let p = one_fun(
        "main",
        vec![
            konst("a", 4),
            konst("b", 5),
            binop(ValueOp::Add, "c", "a", "b"),
            print_of("c"),
        ],
    );
    let mut funs = prog2bb(p);
    dce(&mut funs[0]);
    let instrs = &funs[0].blocks[0].instrs;
    assert_eq!(
        *instrs,
        vec![
            konst("a", 4),
            konst("b", 5),
            binop(ValueOp::Add, "c", "a", "b"),
            print_of("c"),
        ]
    );
}

#[test]
fn dce_drops_overwritten_definition() {
    let p = one_fun("main", vec![konst("a", 4), konst("a", 5), print_of("a")]);
    let mut funs = prog2bb(p);
    dce(&mut funs[0]);
    let instrs = &funs[0].blocks[0].instrs;
    assert_eq!(instrs.len(), 3);
    assert!(is_nop(&instrs[0]));
    assert_eq!(instrs[1], konst("a", 5));
    assert_eq!(instrs[2], print_of("a"));
}

#[test]
fn dce_cascades_through_rounds() {
    // b is never used, so it dies; that frees a, which dies in a later round
    let p = one_fun(
        "main",
        vec![
            konst("a", 4),
            Code::Instruction(Instr::Value {
                op: ValueOp::Id,
                dest: "b".to_string(),
                val_type: Type::Int,
                args: vec!["a".to_string()],
                funcs: vec![],
                labels: vec![],
            }),
            ret(),
        ],
    );
    let mut funs = prog2bb(p);
    dce(&mut funs[0]);
    let instrs = &funs[0].blocks[0].instrs;
    assert!(is_nop(&instrs[0]));
    assert!(is_nop(&instrs[1]));
    assert_eq!(instrs[2], ret());
}

#[test]
fn dce_ignores_dead_blocks() {
    let mut fun = BBFun {
        blocks: vec![
            plain_block(BlockLabel::Entry, vec![konst("a", 1), print_of("a")]),
            plain_block(BlockLabel::Named("dead".to_string()), vec![konst("z", 9)]),
        ],
        function: FnMeta { name: "main".to_string(), args: vec![], return_type: None },
    };
    fun.blocks[1].live = false;
    dce(&mut fun);
    // the dead block's unused definition is not scanned and not tombstoned
    assert_eq!(fun.blocks[1].instrs, vec![konst("z", 9)]);
    assert_eq!(fun.blocks[0].instrs, vec![konst("a", 1), print_of("a")]);
}

#[test]
fn lvn_rewrites_redundant_add() {
    // x and y compute the same sum; y's use is redirected to x and y dies
    let mut fun = BBFun {
        blocks: vec![plain_block(
            BlockLabel::Entry,
            vec![
                binop(ValueOp::Add, "x", "a", "b"),
                binop(ValueOp::Add, "y", "a", "b"),
                print_of("y"),
            ],
        )],
        function: FnMeta { name: "main".to_string(), args: vec![], return_type: None },
    };
    lvn_dce(&mut fun);
    let instrs = &fun.blocks[0].instrs;
    assert_eq!(instrs[0], binop(ValueOp::Add, "x", "a", "b"));
    assert!(is_nop(&instrs[1]));
    assert_eq!(instrs[2], print_of("x"));
}

#[test]
fn lvn_deduplicates_constants() {
    let mut fun = BBFun {
        blocks: vec![plain_block(
            BlockLabel::Entry,
            vec![konst("c1", 4), konst("c2", 4), print_of("c2")],
        )],
        function: FnMeta { name: "main".to_string(), args: vec![], return_type: None },
    };
    lvn_dce(&mut fun);
    let instrs = &fun.blocks[0].instrs;
    assert_eq!(instrs[0], konst("c1", 4));
    assert!(is_nop(&instrs[1]));
    assert_eq!(instrs[2], print_of("c1"));
}

#[test]
fn lvn_respects_clobbered_names() {
    // after a is reassigned, the old sum must not be reused
    let mut fun = BBFun {
        blocks: vec![plain_block(
            BlockLabel::Entry,
            vec![
                binop(ValueOp::Add, "x", "a", "b"),
                konst("a", 7),
                binop(ValueOp::Add, "y", "a", "b"),
                print_of("x"),
                print_of("y"),
            ],
        )],
        function: FnMeta { name: "main".to_string(), args: vec![], return_type: None },
    };
    lvn_dce(&mut fun);
    let instrs = &fun.blocks[0].instrs;
    assert_eq!(instrs[0], binop(ValueOp::Add, "x", "a", "b"));
    assert_eq!(instrs[1], konst("a", 7));
    assert_eq!(instrs[2], binop(ValueOp::Add, "y", "a", "b"));
    assert_eq!(instrs[3], print_of("x"));
    assert_eq!(instrs[4], print_of("y"));
}

#[test]
fn lvn_twice_changes_nothing() {
    let mk = || BBFun {
        blocks: vec![plain_block(
            BlockLabel::Entry,
            vec![
                binop(ValueOp::Add, "x", "a", "b"),
                binop(ValueOp::Add, "y", "a", "b"),
                binop(ValueOp::Mul, "z", "y", "x"),
                print_of("z"),
            ],
        )],
        function: FnMeta { name: "main".to_string(), args: vec![], return_type: None },
    };
    let mut once = mk();
    lvn_dce(&mut once);
    let mut twice = mk();
    lvn_dce(&mut twice);
    lvn_dce(&mut twice);
    assert_eq!(once.blocks[0].instrs, twice.blocks[0].instrs);
}

fn call_f(dest: &str) -> Code {
    Code::Instruction(Instr::Value {
        op: ValueOp::Call,
        dest: dest.to_string(),
        val_type: Type::Int,
        args: vec![],
        funcs: vec!["f".to_string()],
        labels: vec![],
    })
}

#[test]
fn lvn_never_numbers_calls() {
    let mut fun = BBFun {
        blocks: vec![plain_block(
            BlockLabel::Entry,
            vec![call_f("r1"), call_f("r2"), print_of("r1"), print_of("r2")],
        )],
        function: FnMeta { name: "main".to_string(), args: vec![], return_type: None },
    };
    lvn_dce(&mut fun);
    let instrs = &fun.blocks[0].instrs;
    assert_eq!(instrs[0], call_f("r1"));
    assert_eq!(instrs[1], call_f("r2"));
}

#[test]
fn linearize_round_trip() {
    let stream = || {
        vec![
            konst("c", 1),
            br("c", "left", "right"),
            label("left"),
            konst("x", 2),
            jmp("join"),
            label("right"),
            konst("x", 3),
            label("join"),
            print_of("x"),
            ret(),
        ]
    };
    let p = one_fun("main", stream());
    let funs = prog2bb(p);
    let out = cfg2program(funs);
    assert_eq!(out, one_fun("main", stream()));
}

#[test]
fn linearize_drops_dead_blocks_and_tombstones() {
    let mut live_block = plain_block(
        BlockLabel::Named("keep".to_string()),
        vec![konst("a", 1), nop(), print_of("a")],
    );
    live_block.label_instr = Some(label("keep"));
    let mut dead_block = plain_block(
        BlockLabel::Named("gone".to_string()),
        vec![konst("b", 2)],
    );
    dead_block.label_instr = Some(label("gone"));
    dead_block.live = false;
    let fun = BBFun {
        blocks: vec![
            plain_block(BlockLabel::Entry, vec![konst("c", 0)]),
            live_block,
            dead_block,
        ],
        function: FnMeta { name: "main".to_string(), args: vec![], return_type: None },
    };
    let out = cfg2program(vec![fun]);
    assert_eq!(
        out.functions[0].instrs,
        vec![konst("c", 0), label("keep"), konst("a", 1), print_of("a")]
    );
}

#[test]
fn empty_function_gets_one_empty_block() {
    let p = one_fun("main", vec![]);
    let mut funs = prog2bb(p);
    assert_eq!(funs[0].blocks.len(), 1);
    assert!(funs[0].blocks[0].instrs.is_empty());
    fun2cfg(&mut funs[0]);
    assert!(funs[0].blocks[0].out_edges.is_empty());
    assert!(funs[0].blocks[0].in_edges.is_empty());
    let out = cfg2program(funs);
    assert!(out.functions[0].instrs.is_empty());
    assert_eq!(out.functions[0].name, "main");
}

#[test]
fn function_metadata_survives() {
    let p = Program {
        functions: vec![IrFunction {
            name: "f".to_string(),
            args: vec![FnArg { name: "n".to_string(), arg_type: Type::Int }],
            return_type: Some(Type::Int),
            instrs: vec![ret()],
        }],
    };
    let funs = prog2bb(p);
    let out = cfg2program(funs);
    let f = &out.functions[0];
    assert_eq!(f.name, "f");
    assert_eq!(f.args, vec![FnArg { name: "n".to_string(), arg_type: Type::Int }]);
    assert_eq!(f.return_type, Some(Type::Int));
}

#[test]
fn full_pipeline_on_branchy_program() {
    let p = one_fun(
        "main",
        vec![
            konst("cond", 1),
            br("cond", "then", "else"),
            label("then"),
            konst("u", 10),
            konst("v", 11),
            binop(ValueOp::Add, "w", "u", "v"),
            print_of("w"),
            ret(),
            label("else"),
            konst("dead", 9),
            ret(),
        ],
    );
    let mut funs = prog2bb(p);
    for f in funs.iter_mut() {
        fun2cfg(f);
    }
    for f in funs.iter_mut() {
        remove_unreachable_blocks(f);
        dce(f);
        lvn_dce(f);
    }
    let out = cfg2program(funs);
    let instrs = &out.functions[0].instrs;
    // "dead" is never used: its definition is gone; the used chain survives
    assert!(instrs.contains(&konst("u", 10)));
    assert!(instrs.contains(&binop(ValueOp::Add, "w", "u", "v")));
    assert!(instrs.contains(&print_of("w")));
    assert!(!instrs.contains(&konst("dead", 9)));
}

#[test]
fn lvn_handles_float_and_char_literals() {
    // a floating literal is carried as its bit pattern: identical bits are
    // one value, and a char constant keys on the character
    let fconst = |dest: &str| {
        Code::Instruction(Instr::Constant {
            dest: dest.to_string(),
            const_type: Type::Float,
            value: Lit::FloatBits(2.5f64.to_bits()),
        })
    };
    let mut fun = BBFun {
        blocks: vec![plain_block(
            BlockLabel::Entry,
            vec![fconst("f1"), fconst("f2"), print_of("f2")],
        )],
        function: FnMeta { name: "main".to_string(), args: vec![], return_type: None },
    };
    lvn_dce(&mut fun);
    let instrs = &fun.blocks[0].instrs;
    assert_eq!(instrs[0], fconst("f1"));
    assert!(is_nop(&instrs[1]));
    assert_eq!(instrs[2], print_of("f1"));
}

#[test]
fn dce_treats_branch_arguments_as_uses() {
    let p = one_fun(
        "main",
        vec![konst("c", 1), br("c", "a", "b"), label("a"), ret(), label("b"), ret()],
    );
    let mut funs = prog2bb(p);
    dce(&mut funs[0]);
    // the condition feeds the branch, so its definition must survive
    assert_eq!(funs[0].blocks[0].instrs[0], konst("c", 1));
}
