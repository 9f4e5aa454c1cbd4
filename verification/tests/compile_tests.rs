use sysy_compiler::ast::{
    BinaryOp, Block, BlockItem, CompUnit, CompUnitItem, Decl, Exp, FuncDef, InitVal, RawType, Stmt, UnaryOp, VarDecl,
    VarDef, WHILE,
};
use sysy_compiler::error::CompileError;
use sysy_compiler::gen_asm::GenAsm;
use sysy_compiler::gen_ir::gen_ir;
use sysy_compiler::ir::{Ty, Value, ValueKind};

fn main_with(items: Vec<BlockItem>) -> CompUnit {
    CompUnit {
        items: vec![CompUnitItem::FuncDef(FuncDef {
            func_type: RawType::Int,
            ident: "main".to_string(),
            func_params: vec![],
            block: Block { stmt: items },
        })],
    }
}

fn ret(e: Exp) -> BlockItem {
    BlockItem::Stmt(Stmt::Return(Some(e)))
}

fn bin(op: BinaryOp, l: Exp, r: Exp) -> Exp {
    Exp::Binary { op, lhs: Box::new(l), rhs: Box::new(r) }
}

fn var_decl(name: &str, init: Option<Exp>) -> BlockItem {
    BlockItem::Decl(Decl::Var(VarDecl {
        typ: RawType::Int,
        defs: vec![VarDef { ident: name.to_string(), array_lens: vec![], init_val: init.map(InitVal::Exp) }],
    }))
}

fn compile(cu: CompUnit) -> Result<String, CompileError> {
    let p = gen_ir(cu)?;
    p.gen_asm()
}

#[test]
fn asm_return_zero() {
    let text = compile(main_with(vec![ret(Exp::Number(0))])).unwrap();
    assert_eq!(text, "\t.text\n\t.globl main\nmain:\n\tli a0, 0\n\tret\n");
}

#[test]
fn asm_return_sum_of_constants() {
    let text = compile(main_with(vec![ret(bin(BinaryOp::Add, Exp::Number(1), Exp::Number(2)))])).unwrap();
    assert_eq!(text, "\t.text\n\t.globl main\nmain:\n\tli\tt6, 1\n\tli\tt5, 2\n\tadd\ta7, t6, t5\n\tmv a0, a7\n\tret\n");
}

#[test]
fn asm_negation_uses_x0() {
    let text = compile(main_with(vec![ret(Exp::Unary { op: UnaryOp::Minus, exp: Box::new(Exp::Number(1)) })])).unwrap();
    assert_eq!(text, "\t.text\n\t.globl main\nmain:\n\tli\tt5, 1\n\tsub\ta7, x0, t5\n\tmv a0, a7\n\tret\n");
}

#[test]
fn asm_local_variable_lives_on_the_stack() {
    let text = compile(main_with(vec![var_decl("a", Some(Exp::Number(1))), ret(Exp::Var("a".to_string()))])).unwrap();
    assert_eq!(
        text,
        "\t.text\n\t.globl main\nmain:\n\taddi sp, sp, -4\n\tli t6, 1\n\tsw t6, 0(sp)\n\tlw t6, 0(sp)\n\tmv a7, t6\n\tmv a0, a7\n\taddi sp, sp, 4\n\tret\n"
    );
}

#[test]
fn asm_equality_is_xor_then_seqz() {
    let text = compile(main_with(vec![ret(bin(BinaryOp::Eq, Exp::Number(3), Exp::Number(3)))])).unwrap();
    assert_eq!(
        text,
        "\t.text\n\t.globl main\nmain:\n\tli\tt6, 3\n\tli\tt5, 3\n\txor\ta7, t6, t5\n\tseqz\ta7, a7\n\tmv a0, a7\n\tret\n"
    );
}

#[test]
fn asm_global_variable_goes_to_data() {
    let cu = CompUnit {
        items: vec![
            CompUnitItem::Decl(Decl::Var(VarDecl {
                typ: RawType::Int,
                defs: vec![VarDef { ident: "g".to_string(), array_lens: vec![], init_val: Some(InitVal::Exp(Exp::Number(5))) }],
            })),
            CompUnitItem::FuncDef(FuncDef {
                func_type: RawType::Int,
                ident: "main".to_string(),
                func_params: vec![],
                block: Block { stmt: vec![ret(Exp::Number(0))] },
            }),
        ],
    };
    let text = compile(cu).unwrap();
    assert_eq!(text, "\t.data\n\t.globl g\ng:\n\t.word 5\n\n\t.text\n\t.globl main\nmain:\n\tli a0, 0\n\tret\n");
}

#[test]
fn asm_reading_a_global_loads_its_address() {
    let cu = CompUnit {
        items: vec![
            CompUnitItem::Decl(Decl::Var(VarDecl {
                typ: RawType::Int,
                defs: vec![VarDef { ident: "g".to_string(), array_lens: vec![], init_val: None }],
            })),
            CompUnitItem::FuncDef(FuncDef {
                func_type: RawType::Int,
                ident: "main".to_string(),
                func_params: vec![],
                block: Block { stmt: vec![ret(Exp::Var("g".to_string()))] },
            }),
        ],
    };
    let text = compile(cu).unwrap();
    assert!(text.starts_with("\t.data\n\t.globl g\ng:\n\t.zero 4\n\n\t.text\n\t.globl main\nmain:\n"));
    assert!(text.contains("\tla "));
    assert!(text.contains(", g\n"));
    assert!(text.contains("\tlw "));
    assert!(text.ends_with("\tret\n"));
}

#[test]
fn ir_undefined_variable() {
    assert_eq!(gen_ir(main_with(vec![ret(Exp::Var("x".to_string()))])).err(), Some(CompileError::UndefinedVariable));
}

#[test]
fn ir_duplicate_symbol() {
    let r = gen_ir(main_with(vec![var_decl("a", None), var_decl("a", None), ret(Exp::Number(0))]));
    assert_eq!(r.err(), Some(CompileError::DuplicateSymbol));
}

#[test]
fn ir_break_outside_loop() {
    let r = gen_ir(main_with(vec![BlockItem::Stmt(Stmt::Break), ret(Exp::Number(0))]));
    assert_eq!(r.err(), Some(CompileError::BreakOutsideLoop));
}

#[test]
fn ir_continue_outside_loop() {
    let r = gen_ir(main_with(vec![BlockItem::Stmt(Stmt::Continue), ret(Exp::Number(0))]));
    assert_eq!(r.err(), Some(CompileError::ContinueOutsideLoop));
}

#[test]
fn ir_missing_return() {
    let r = gen_ir(main_with(vec![]));
    assert_eq!(r.err(), Some(CompileError::MissingReturn));
}

#[test]
fn ir_undefined_function() {
    let call = Exp::Call { ident: "nothere".to_string(), args: vec![] };
    let r = gen_ir(main_with(vec![ret(call)]));
    assert!(r.is_err());
}

#[test]
fn ir_loop_with_break_is_well_terminated() {
    let body = Stmt::Block(Block { stmt: vec![BlockItem::Stmt(Stmt::Break)] });
    let w = Stmt::WHILE(Box::new(WHILE { cond: Exp::Number(1), body_while: body }));
    let p = gen_ir(main_with(vec![BlockItem::Stmt(w), ret(Exp::Number(0))])).unwrap();
    let main = p.funcs.iter().find(|f| f.name == "@main").unwrap();
    for node in &main.layout {
        let last = *node.insts.last().unwrap();
        let k = &main.values[last].kind;
        assert!(matches!(
            k,
            ValueKind::Branch { .. } | ValueKind::Jump(_) | ValueKind::Return(_)
        ));
    }
}

#[test]
fn asm_two_loads_then_add() {
    let a = || Exp::Var("a".to_string());
    let text = compile(main_with(vec![var_decl("a", Some(Exp::Number(1))), ret(bin(BinaryOp::Add, a(), a()))])).unwrap();
    assert_eq!(
        text,
        "\t.text\n\t.globl main\nmain:\n\taddi sp, sp, -4\n\tli t6, 1\n\tsw t6, 0(sp)\n\tlw t6, 0(sp)\n\tmv a7, t6\n\tlw t6, 0(sp)\n\tmv a6, t6\n\tadd\ta5, a7, a6\n\tmv a0, a5\n\taddi sp, sp, 4\n\tret\n"
    );
}

#[test]
fn asm_registers_are_reused_after_their_intervals_end() {
    let a = || Exp::Var("a".to_string());
    let text = compile(main_with(vec![
        var_decl("a", Some(Exp::Number(1))),
        var_decl("b", Some(bin(BinaryOp::Add, a(), a()))),
        ret(Exp::Var("b".to_string())),
    ]))
    .unwrap();
    assert_eq!(
        text,
        "\t.text\n\t.globl main\nmain:\n\taddi sp, sp, -8\n\tli t6, 1\n\tsw t6, 4(sp)\n\tlw t6, 4(sp)\n\tmv a7, t6\n\tlw t6, 4(sp)\n\tmv a6, t6\n\tadd\ta5, a7, a6\n\tmv t5, a5\n\tsw t5, 0(sp)\n\tlw t5, 0(sp)\n\tmv a5, t5\n\tmv a0, a5\n\taddi sp, sp, 8\n\tret\n"
    );
}

#[test]
fn asm_spilled_binary_result_runs_out_of_scratch_registers() {
    let a = || Exp::Var("a".to_string());
    let mut e = a();
    for _ in 0..10 {
        e = bin(BinaryOp::Add, a(), e);
    }
    let r = compile(main_with(vec![var_decl("a", Some(Exp::Number(1))), ret(e)]));
    assert_eq!(r, Err(CompileError::NoScratchRegister));
}

fn global_var(name: &str, lens: Vec<i32>, init: Option<InitVal>, typ: RawType) -> CompUnitItem {
    CompUnitItem::Decl(Decl::Var(VarDecl {
        typ,
        defs: vec![VarDef {
            ident: name.to_string(),
            array_lens: lens.into_iter().map(|n| sysy_compiler::ast::ConstExp { exp: Exp::Number(n) }).collect(),
            init_val: init,
        }],
    }))
}

fn with_main(mut items: Vec<CompUnitItem>) -> CompUnit {
    items.push(CompUnitItem::FuncDef(FuncDef {
        func_type: RawType::Int,
        ident: "main".to_string(),
        func_params: vec![],
        block: Block { stmt: vec![ret(Exp::Number(0))] },
    }));
    CompUnit { items }
}

#[test]
fn ir_constant_needs_constant_initializer() {
    let c = CompUnitItem::Decl(Decl::Const(sysy_compiler::ast::ConstDecl {
        typ: RawType::Int,
        defs: vec![sysy_compiler::ast::ConstDef {
            ident: "c".to_string(),
            array_lens: vec![],
            init_val: sysy_compiler::ast::ConstInitVal::Exp(sysy_compiler::ast::ConstExp { exp: Exp::Var("x".to_string()) }),
        }],
    }));
    assert_eq!(gen_ir(with_main(vec![c])).err(), Some(CompileError::InvalidConstExp));
}

#[test]
fn ir_library_names_are_taken() {
    let f = CompUnitItem::FuncDef(FuncDef {
        func_type: RawType::Int,
        ident: "getint".to_string(),
        func_params: vec![],
        block: Block { stmt: vec![ret(Exp::Number(1))] },
    });
    assert_eq!(gen_ir(with_main(vec![f])).err(), Some(CompileError::DuplicateFunction));
}

#[test]
fn ir_array_length_must_be_positive() {
    let g = global_var("a", vec![0], None, RawType::Int);
    assert_eq!(gen_ir(with_main(vec![g])).err(), Some(CompileError::NonPositiveArrayLen));
}

#[test]
fn ir_too_many_initializers() {
    let init = InitVal::List(vec![InitVal::Exp(Exp::Number(1)), InitVal::Exp(Exp::Number(2))]);
    let g = global_var("a", vec![1], Some(init), RawType::Int);
    assert_eq!(gen_ir(with_main(vec![g])).err(), Some(CompileError::TooManyInitializers));
}

#[test]
fn ir_scalar_needs_expression() {
    let g = global_var("x", vec![], Some(InitVal::List(vec![])), RawType::Int);
    assert_eq!(gen_ir(with_main(vec![g])).err(), Some(CompileError::ScalarNeedsExp));
}

#[test]
fn ir_array_needs_list() {
    let g = global_var("a", vec![2], Some(InitVal::Exp(Exp::Number(1))), RawType::Int);
    assert_eq!(gen_ir(with_main(vec![g])).err(), Some(CompileError::ArrayNeedsList));
}

#[test]
fn ir_void_global() {
    let g = global_var("v", vec![], None, RawType::Void);
    assert_eq!(gen_ir(with_main(vec![g])).err(), Some(CompileError::VoidGlobal));
}

#[test]
fn ir_indexed_assignment_is_not_translated() {
    let asg = Stmt::Assign {
        lval: sysy_compiler::ast::LVal { ident: "a".to_string(), indices: vec![Exp::Number(0)] },
        exp: Exp::Number(1),
    };
    let r = gen_ir(main_with(vec![var_decl("a", None), BlockItem::Stmt(asg), ret(Exp::Number(0))]));
    assert_eq!(r.err(), Some(CompileError::Unsupported));
}

#[test]
fn ir_global_array_zero_initialized() {
    let g = global_var("a", vec![2, 3], None, RawType::Int);
    let text = compile(with_main(vec![g])).unwrap();
    assert_eq!(text, "\t.data\n\t.globl a\na:\n\t.zero 24\n\n\t.text\n\t.globl main\nmain:\n\tli a0, 0\n\tret\n");
}

#[test]
fn ir_global_array_with_list() {
    let init = InitVal::List(vec![InitVal::Exp(Exp::Number(7))]);
    let g = global_var("a", vec![2], Some(init), RawType::Int);
    let text = compile(with_main(vec![g])).unwrap();
    assert_eq!(text, "\t.data\n\t.globl a\na:\n\t.word 7\n\t.word 0\n\n\t.text\n\t.globl main\nmain:\n\tli a0, 0\n\tret\n");
}

#[test]
fn ir_instructions_are_typed() {
    let a = || Exp::Var("a".to_string());
    let p = gen_ir(main_with(vec![var_decl("a", Some(Exp::Number(1))), ret(bin(BinaryOp::Lt, a(), Exp::Number(2)))])).unwrap();
    let main = p.funcs.iter().find(|f| f.name == "@main").unwrap();
    for d in &main.values {
        match &d.kind {
            ValueKind::Binary { .. } => assert!(matches!(d.ty, Ty::I32)),
            ValueKind::Load(_) => assert!(matches!(d.ty, Ty::I32)),
            ValueKind::Alloc => assert!(matches!(d.ty, Ty::Pointer(_))),
            ValueKind::Store { .. } | ValueKind::Return(_) => assert!(matches!(d.ty, Ty::Unit)),
            _ => {}
        }
    }
}

fn int_func(name: &str, body: Vec<BlockItem>) -> CompUnitItem {
    CompUnitItem::FuncDef(FuncDef {
        func_type: RawType::Int,
        ident: name.to_string(),
        func_params: vec![],
        block: Block { stmt: body },
    })
}

#[test]
fn ir_duplicate_function_definition() {
    let cu = CompUnit {
        items: vec![int_func("f", vec![ret(Exp::Number(1))]), int_func("f", vec![ret(Exp::Number(2))])],
    };
    assert_eq!(gen_ir(cu).err(), Some(CompileError::DuplicateFunction));
}

#[test]
fn ir_functions_follow_the_library_in_order() {
    let cu = CompUnit {
        items: vec![int_func("f", vec![ret(Exp::Number(1))]), int_func("main", vec![ret(Exp::Number(0))])],
    };
    let p = gen_ir(cu).unwrap();
    assert_eq!(p.funcs.len(), 10);
    assert_eq!(p.funcs[0].name, "@getint");
    assert_eq!(p.funcs[8].name, "@f");
    assert_eq!(p.funcs[9].name, "@main");
    assert!(p.funcs[9].ret_ty.is_i32());
}

#[test]
fn ir_control_continues_in_the_loop_end_block() {
    let body = Stmt::Block(Block { stmt: vec![BlockItem::Stmt(Stmt::Break)] });
    let w = Stmt::WHILE(Box::new(WHILE { cond: Exp::Number(1), body_while: body }));
    let p = gen_ir(main_with(vec![BlockItem::Stmt(w), ret(Exp::Number(0))])).unwrap();
    let main = &p.funcs[8];
    let last = main.layout.last().unwrap();
    assert_eq!(last.bb, 3);
    assert!(main.bbs[last.bb].name.as_ref().unwrap().starts_with("%while_end_"));
    assert_eq!(last.insts.len(), 1);
    assert!(matches!(main.values[last.insts[0]].kind, ValueKind::Return(Some(_))));
}

#[test]
fn ir_empty_program_declares_the_library() {
    let p = gen_ir(CompUnit { items: vec![] }).unwrap();
    assert_eq!(p.funcs.len(), 8);
    assert_eq!(p.globals.len(), 0);
    assert_eq!(p.funcs[7].name, "@stoptime");
}

fn block_index(f: &sysy_compiler::ir::FunctionData, prefix: &str) -> usize {
    f.bbs.iter().position(|b| b.name.as_deref().map_or(false, |n| n.starts_with(prefix))).unwrap()
}

fn last_inst_of(f: &sysy_compiler::ir::FunctionData, bb: usize) -> ValueKind {
    let node = f.layout.iter().find(|n| n.bb == bb).unwrap();
    f.values[*node.insts.last().unwrap()].kind.clone()
}

#[test]
fn ir_break_in_a_loop_jumps_to_the_loop_end() {
    let w = Stmt::WHILE(Box::new(WHILE { cond: Exp::Number(1), body_while: Stmt::Break }));
    let p = gen_ir(main_with(vec![BlockItem::Stmt(w), ret(Exp::Number(0))])).unwrap();
    let main = p.funcs.iter().find(|f| f.name == "@main").unwrap();
    let body = block_index(main, "%while_body_");
    let end = block_index(main, "%while_end_");
    assert!(matches!(last_inst_of(main, body), ValueKind::Jump(t) if t == end));
}

#[test]
fn ir_continue_in_a_loop_jumps_to_the_loop_entry() {
    let w = Stmt::WHILE(Box::new(WHILE { cond: Exp::Number(1), body_while: Stmt::Continue }));
    let p = gen_ir(main_with(vec![BlockItem::Stmt(w), ret(Exp::Number(0))])).unwrap();
    let main = p.funcs.iter().find(|f| f.name == "@main").unwrap();
    let body = block_index(main, "%while_body_");
    let entry = block_index(main, "%while_ent_");
    assert!(matches!(last_inst_of(main, body), ValueKind::Jump(t) if t == entry));
}

#[test]
fn ir_binary_operands_keep_their_order() {
    let a = || Exp::Var("a".to_string());
    let p = gen_ir(main_with(vec![var_decl("a", Some(Exp::Number(5))), ret(bin(BinaryOp::Sub, a(), Exp::Number(2)))])).unwrap();
    let main = p.funcs.iter().find(|f| f.name == "@main").unwrap();
    let sub = main.values.iter().find(|d| matches!(d.kind, ValueKind::Binary { .. })).unwrap();
    match &sub.kind {
        ValueKind::Binary { lhs: Value::Local(l), rhs: Value::Local(r), .. } => {
            assert!(matches!(main.values[*l].kind, ValueKind::Load(_)));
            assert!(matches!(main.values[*r].kind, ValueKind::Integer(2)));
        }
        _ => panic!("a local binary instruction was expected"),
    }
}

#[test]
fn ir_global_scalar_is_an_i32_behind_a_pointer() {
    let g = global_var("x", vec![], None, RawType::Int);
    let p = gen_ir(with_main(vec![g])).unwrap();
    let alloc = p.globals.iter().find(|d| d.name.as_deref() == Some("@x")).unwrap();
    assert!(matches!(&alloc.ty, Ty::Pointer(t) if matches!(**t, Ty::I32)));
    match &alloc.kind {
        ValueKind::GlobalAlloc(Value::Global(i)) => {
            assert!(matches!(p.globals[*i].kind, ValueKind::ZeroInit));
            assert!(matches!(p.globals[*i].ty, Ty::I32));
        }
        _ => panic!("a global allocation was expected"),
    }
}
