use sysy_compiler::ast::{
    eval_binop, eval_unop, try_eval_exp, BinaryOp, Block, BlockItem, CompUnit, CompUnitItem, ConstDecl, ConstDef,
    ConstExp, ConstInitVal, Decl, EvalExp, Exp, FuncDef, FuncFParam, InitVal, LVal, RawType, Stmt, UnaryOp, VarDecl,
    VarDef, IF, WHILE,
};
use sysy_compiler::gen_asm_exp::{emit_addr_from_sp, fits_i12, load_stack_to_scratch, process_alloc_inst, strip_sigil};
use sysy_compiler::error::CompileError;
use sysy_compiler::gen_ir::{
    flatten_const_init, flatten_global_init_from_initval, linear_to_indices, suffix_product, total_elems,
};
use sysy_compiler::gen_ir_variables::{SymbolInfo, Variables};
use sysy_compiler::ir::{FunctionData, Ty, Value, ValueData, ValueKind};
use sysy_compiler::reg_alloc::{LinearScanAlloc, VariableLocation};
use sysy_compiler::util::{str_eq, str_with_u64};

#[test]
fn eval_binop_checks_overflow_and_division() {
    assert_eq!(eval_binop(BinaryOp::Add, 2, 3), Some(5));
    assert_eq!(eval_binop(BinaryOp::Add, i32::MAX, 1), None);
    assert_eq!(eval_binop(BinaryOp::Div, 7, 2), Some(3));
    assert_eq!(eval_binop(BinaryOp::Div, 7, 0), None);
    assert_eq!(eval_binop(BinaryOp::Mod, -7, 2), Some(-1));
    assert_eq!(eval_binop(BinaryOp::Lt, 1, 2), Some(1));
    assert_eq!(eval_binop(BinaryOp::Land, 1, 0), Some(0));
    assert_eq!(eval_binop(BinaryOp::Lor, 0, 5), Some(1));
}

#[test]
fn eval_unop_values() {
    assert_eq!(eval_unop(UnaryOp::Minus, 5), Some(-5));
    assert_eq!(eval_unop(UnaryOp::Minus, i32::MIN), None);
    assert_eq!(eval_unop(UnaryOp::Not, 0), Some(1));
    assert_eq!(eval_unop(UnaryOp::Plus, 9), Some(9));
}

#[test]
fn constants_are_folded_through_the_symbol_table() {
    let mut vars = Variables::new();
    vars.enter_scope();
    vars.insert("n".to_string(), SymbolInfo::Const(4));
    let e = Exp::Binary {
        op: BinaryOp::Mul,
        lhs: Box::new(Exp::Var("n".to_string())),
        rhs: Box::new(Exp::Number(3)),
    };
    assert_eq!(try_eval_exp(&e, &vars), Some(12));
    assert_eq!(e.eval_exp(&vars), 12);
    assert_eq!(try_eval_exp(&Exp::Var("m".to_string()), &vars), None);
}

#[test]
fn scopes_shadow_and_restore() {
    let mut vars = Variables::new();
    vars.enter_scope();
    vars.insert("x".to_string(), SymbolInfo::Const(1));
    vars.enter_scope();
    assert_eq!(vars.get_const("x"), Some(1));
    vars.insert("x".to_string(), SymbolInfo::Const(2));
    assert_eq!(vars.get_const("x"), Some(2));
    assert!(vars.contains_in_current_scope("x"));
    assert_eq!(vars.get_scope_layer(), 2);
    vars.exit_scope();
    assert_eq!(vars.get_const("x"), Some(1));
    assert_eq!(vars.get_scope_layer(), 1);
}

#[test]
fn variables_and_constants_hide_each_other() {
    let mut vars = Variables::new();
    vars.enter_scope();
    vars.insert("x".to_string(), SymbolInfo::Var(Value::Local(7)));
    vars.enter_scope();
    vars.insert("x".to_string(), SymbolInfo::Const(3));
    assert_eq!(vars.get_const("x"), Some(3));
    assert_eq!(vars.get("x"), Some(Value::Local(7)));
    vars.exit_scope();
    assert_eq!(vars.get_const("x"), None);
}

#[test]
fn loop_targets_follow_nesting() {
    let mut vars = Variables::default();
    assert_eq!(vars.get_break(), None);
    vars.enter_while(&1, &2);
    vars.enter_while(&3, &4);
    assert_eq!(vars.get_continue(), Some(3));
    assert_eq!(vars.get_break(), Some(4));
    vars.exit_while();
    assert_eq!(vars.get_continue(), Some(1));
    assert_eq!(vars.get_break(), Some(2));
}

#[test]
fn ids_are_consecutive() {
    let mut vars = Variables::new();
    assert!(vars.has_next_id());
    assert_eq!(vars.get_id(), 0);
    assert_eq!(vars.get_id(), 1);
}

#[test]
fn linear_index_round_trip() {
    let dims = vec![2usize, 3, 4];
    assert_eq!(linear_to_indices(0, &dims), vec![0, 0, 0]);
    assert_eq!(linear_to_indices(23, &dims), vec![1, 2, 3]);
    assert_eq!(linear_to_indices(13, &dims), vec![1, 0, 1]);
    assert_eq!(suffix_product(&dims, 1), Some(12));
    assert_eq!(total_elems(&dims), Some(24));
    assert_eq!(suffix_product(&vec![usize::MAX, 2], 0), None);
}

#[test]
fn sp_relative_text() {
    assert!(fits_i12(2047));
    assert!(!fits_i12(2048));
    assert!(fits_i12(-2048));
    assert_eq!(emit_addr_from_sp("t0", 8), "\taddi t0, sp, 8\n");
    assert_eq!(emit_addr_from_sp("t0", 4096), "\tli t0, 4096\n\tadd t0, sp, t0\n");
    assert_eq!(load_stack_to_scratch(12, "t6"), "\tlw t6, 12(sp)\n");
    assert_eq!(load_stack_to_scratch(3000, "t6"), "\tli t6, 3000\n\tadd t6, sp, t6\n\tlw t6, 0(t6)\n");
    assert_eq!(process_alloc_inst(), "");
}

#[test]
fn names_lose_their_sigil() {
    assert_eq!(strip_sigil("@main"), "main");
    assert_eq!(strip_sigil("%entry"), "entry");
    assert!(str_eq("abc", "abc"));
    assert!(!str_eq("abc", "abd"));
    assert_eq!(str_with_u64("a", 7), "a7");
}

#[test]
fn scratch_registers_come_back_in_order() {
    let mut ra = LinearScanAlloc::new();
    assert_eq!(ra.scratch_len(), 2);
    let a = ra.acquire_scratch();
    let b = ra.acquire_scratch();
    assert_eq!(a, "t6");
    assert_eq!(b, "t5");
    ra.release_scratch(a);
    assert_eq!(ra.acquire_scratch(), "t6");
    assert_eq!(ra.get_stack_count(), 0);
    assert!(matches!(ra.get_variable(&Value::Global(0)), VariableLocation::Nowhere));
}

fn num(n: i32) -> Exp {
    Exp::Number(n)
}

#[test]
fn debug_expressions() {
    let e = Exp::Binary {
        op: BinaryOp::Add,
        lhs: Box::new(num(1)),
        rhs: Box::new(Exp::Unary { op: UnaryOp::Not, exp: Box::new(Exp::Var("x".to_string())) }),
    };
    assert_eq!(e.debug_string(), "(1 + (not x))");
    let call = Exp::Call { ident: "f".to_string(), args: vec![num(1), num(-2)] };
    assert_eq!(call.debug_string(), "f(1, -2)");
    let lv = LVal { ident: "a".to_string(), indices: vec![num(0), Exp::Var("i".to_string())] };
    assert_eq!(lv.debug_string(), "a[0][i]");
    assert_eq!(BinaryOp::Lor.debug_string(), "||");
    assert_eq!(UnaryOp::Minus.debug_string(), "-");
    assert_eq!(RawType::Void.debug_string(), "void");
}

#[test]
fn debug_statements() {
    let s = Stmt::IF(Box::new(IF { cond: num(1), then_stmt: Stmt::Break, else_stmt: Some(Stmt::Continue) }));
    assert_eq!(s.debug_string(), "if: (1) \n  break; \n  else: continue;");
    let s2 = Stmt::IF(Box::new(IF { cond: num(0), then_stmt: Stmt::Exp(None), else_stmt: None }));
    assert_eq!(s2.debug_string(), "if (0) ;");
    let w = WHILE { cond: num(1), body_while: Stmt::Return(None) };
    assert_eq!(w.debug_string(), "while (1) return;");
    let b = Block { stmt: vec![BlockItem::Stmt(Stmt::Return(Some(num(0))))] };
    assert_eq!(b.debug_string(), "Vec<BlockItem>:[\n  item#0: Stmt: return 0;\n]");
    let asg = Stmt::Assign { lval: LVal { ident: "x".to_string(), indices: vec![] }, exp: num(2) };
    assert_eq!(asg.debug_string(), "x = 2;");
}

#[test]
fn debug_declarations() {
    let c = ConstDecl {
        typ: RawType::Int,
        defs: vec![
            ConstDef { ident: "a".to_string(), array_lens: vec![], init_val: ConstInitVal::Exp(ConstExp { exp: num(1) }) },
            ConstDef {
                ident: "b".to_string(),
                array_lens: vec![ConstExp { exp: num(2) }],
                init_val: ConstInitVal::List(vec![
                    ConstInitVal::Exp(ConstExp { exp: num(3) }),
                    ConstInitVal::Exp(ConstExp { exp: num(4) }),
                ]),
            },
        ],
    };
    assert_eq!(c.debug_string(), "const int [a = 1, b[2] = [3, 4]]");
    let v = VarDecl {
        typ: RawType::Int,
        defs: vec![
            VarDef { ident: "x".to_string(), array_lens: vec![], init_val: None },
            VarDef { ident: "y".to_string(), array_lens: vec![], init_val: Some(InitVal::List(vec![])) },
        ],
    };
    assert_eq!(v.debug_string(), "Var int [x, no evaluation!, y = []]");
    assert_eq!(Decl::Var(v).debug_string(), "Var int [x, no evaluation!, y = []]");
    let item = BlockItem::Decl(Decl::Const(ConstDecl { typ: RawType::Int, defs: vec![] }));
    assert_eq!(item.debug_string(), "Decl: const int []");
}

#[test]
fn debug_functions() {
    let p = FuncFParam { bt: RawType::Int, id: "a".to_string(), is_array: true, array_lens: vec![ConstExp { exp: num(3) }] };
    assert_eq!(p.debug_string(), "int a[][3]");
    let q = FuncFParam { bt: RawType::Int, id: "n".to_string(), is_array: false, array_lens: vec![] };
    assert_eq!(q.debug_string(), "int n");
    let f = FuncDef { func_type: RawType::Int, ident: "main".to_string(), func_params: vec![q], block: Block { stmt: vec![] } };
    assert_eq!(f.debug_string(), "FuncDef { func_type: int, ident: \"main\", func_params: [int n], block: Vec<BlockItem>:[\n] }");
    let cu = CompUnit { items: vec![CompUnitItem::FuncDef(f)] };
    assert_eq!(
        cu.debug_string(),
        "CompUnit { [TopFunc: FuncDef { func_type: int, ident: \"main\", func_params: [int n], block: Vec<BlockItem>:[\n] }] }"
    );
}

fn cnum(n: i32) -> ConstInitVal {
    ConstInitVal::Exp(ConstExp { exp: Exp::Number(n) })
}

#[test]
fn const_initializer_is_flattened_row_major_with_zeros() {
    let vars = Variables::new();
    let init = ConstInitVal::List(vec![cnum(1), cnum(2), cnum(3)]);
    assert_eq!(flatten_const_init(&init, &vec![2, 2], &vars), Ok(vec![1, 2, 3, 0]));
    let nested = ConstInitVal::List(vec![cnum(1), ConstInitVal::List(vec![cnum(5)]), cnum(7)]);
    assert_eq!(flatten_const_init(&nested, &vec![3, 2], &vars), Err(CompileError::UnalignedInitializer));
    let nested = ConstInitVal::List(vec![cnum(1), cnum(2), ConstInitVal::List(vec![cnum(5)]), cnum(7)]);
    assert_eq!(flatten_const_init(&nested, &vec![3, 2], &vars), Ok(vec![1, 2, 5, 0, 7, 0]));
}

#[test]
fn const_initializer_errors() {
    let vars = Variables::new();
    let too_many = ConstInitVal::List(vec![cnum(1), cnum(2), cnum(3)]);
    assert_eq!(flatten_const_init(&too_many, &vec![2], &vars), Err(CompileError::TooManyInitializers));
    assert_eq!(flatten_const_init(&cnum(1), &vec![2], &vars), Err(CompileError::ArrayNeedsList));
    let braces = ConstInitVal::List(vec![ConstInitVal::List(vec![cnum(1)])]);
    assert_eq!(flatten_const_init(&braces, &vec![2], &vars), Err(CompileError::BracesAroundScalar));
    let unknown = ConstInitVal::List(vec![ConstInitVal::Exp(ConstExp { exp: Exp::Var("x".to_string()) })]);
    assert_eq!(flatten_const_init(&unknown, &vec![2], &vars), Err(CompileError::InvalidConstExp));
}

#[test]
fn global_initializer_is_evaluated_and_zero_filled() {
    let mut vars = Variables::new();
    vars.enter_scope();
    vars.insert("k".to_string(), SymbolInfo::Const(6));
    let init = InitVal::List(vec![InitVal::Exp(Exp::Var("k".to_string())), InitVal::Exp(Exp::Number(-1))]);
    assert_eq!(flatten_global_init_from_initval(&init, &vec![3], &vars), Ok(vec![6, -1, 0]));
    let nested = InitVal::List(vec![InitVal::List(vec![InitVal::Exp(Exp::Number(4))]), InitVal::Exp(Exp::Number(9))]);
    assert_eq!(flatten_global_init_from_initval(&nested, &vec![2, 2], &vars), Ok(vec![4, 0, 9, 0]));
    let bad = InitVal::List(vec![InitVal::Exp(Exp::Var("y".to_string()))]);
    assert_eq!(flatten_global_init_from_initval(&bad, &vec![1], &vars), Err(CompileError::InvalidConstExp));
}

#[test]
fn a_value_stored_later_keeps_its_register_until_the_store() {
    let mut f = FunctionData::with_param_names("@f".to_string(), vec![], Ty::I32).unwrap();
    let e = f.new_bb(Some("%entry".to_string())).unwrap();
    f.push_bb(e).unwrap();
    let globals: Vec<ValueData> = vec![];
    let slot = f.emit_alloc(e, Ty::I32, None).unwrap();
    let one = f.integer(1).unwrap();
    let two = f.integer(2).unwrap();
    let add = sysy_compiler::ir::BinaryOp::Add;
    let v1 = f.emit(&globals, e, ValueKind::Binary { op: add, lhs: one, rhs: two }).unwrap();
    let v2 = f.emit(&globals, e, ValueKind::Binary { op: add, lhs: two, rhs: one }).unwrap();
    f.emit(&globals, e, ValueKind::Store { value: v1, dest: slot }).unwrap();
    f.emit(&globals, e, ValueKind::Return(Some(v2))).unwrap();
    let mut ra = LinearScanAlloc::new();
    ra.allocate(&f).unwrap();
    match (ra.get_variable(&v1), ra.get_variable(&v2)) {
        (VariableLocation::Register(a), VariableLocation::Register(b)) => assert_ne!(a, b),
        _ => panic!("both values should be in registers"),
    }
}

#[test]
fn a_function_using_a_global_is_placed_in_full() {
    let mut f = FunctionData::with_param_names("@f".to_string(), vec![], Ty::I32).unwrap();
    let e = f.new_bb(Some("%entry".to_string())).unwrap();
    f.push_bb(e).unwrap();
    let globals: Vec<ValueData> = vec![
        ValueData { ty: Ty::I32, kind: ValueKind::ZeroInit, name: None },
        ValueData { ty: Ty::Pointer(Box::new(Ty::I32)), kind: ValueKind::GlobalAlloc(Value::Global(0)), name: Some("@g".to_string()) },
    ];
    let slot = f.emit_alloc(e, Ty::I32, None).unwrap();
    let loaded = f.emit(&globals, e, ValueKind::Load(Value::Global(1))).unwrap();
    f.emit(&globals, e, ValueKind::Store { value: loaded, dest: Value::Global(1) }).unwrap();
    f.emit(&globals, e, ValueKind::Store { value: loaded, dest: slot }).unwrap();
    f.emit(&globals, e, ValueKind::Return(Some(loaded))).unwrap();
    let mut ra = LinearScanAlloc::new();
    assert!(ra.allocate(&f).is_ok());
    assert!(matches!(ra.get_variable(&slot), VariableLocation::Stack(0)));
    assert!(matches!(ra.get_variable(&loaded), VariableLocation::Register(_)));
    assert_eq!(ra.get_stack_count(), 4);
}
