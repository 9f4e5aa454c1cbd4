//! Translation of expressions into IR instructions.
use crate::ast::{spec_eval, Exp, LVal, UnaryOp};
use crate::error::CompileError;
use crate::gen_ir_variables::{lookup_const, lookup_var, Variables};
use crate::ir::{
    all_terminated, bb_named, denote, denote_at, in_layout, value_ty, lemma_in_layout_extends, lemma_value_ty_extends, emitted, extends, ir_binop, layout_unique, lemma_denote_prefix, lemma_emitted_keeps,
    lemma_extends_refl, lemma_extends_trans, lemma_step_keeps, lemma_wt_emit, lemma_wt_values, others_terminated, well_typed,
    BasicBlock, BinaryOp, Function,
    FunctionData, Ty, Value, ValueData, ValueKind,
};
use crate::util::{dec_nat, str_with_u64};
use vstd::prelude::*;

verus! {

/// The functions of a program by source name.
pub type FuncMap = Vec<(String, Function)>;

/// An expression without `&&` or `||`: its code is straight-line.
pub open spec fn straight(e: Exp) -> bool
    decreases e,
{
    match e {
        Exp::Unary { op, exp } => straight(*exp),
        Exp::Binary { op, lhs, rhs } => !(op is Land) && !(op is Lor) && straight(*lhs) && straight(*rhs),
        _ => true,
    }
}

/// A measure of expressions that shrinks on operands.
pub open spec fn exp_size(e: Exp) -> nat
    decreases e,
{
    match e {
        Exp::Unary { op, exp } => 1 + exp_size(*exp),
        Exp::Binary { op, lhs, rhs } => 1 + exp_size(*lhs) + exp_size(*rhs),
        _ => 1,
    }
}

/// The IR operator for a source operator other than `&&` and `||`.
pub open spec fn spec_ir_op(op: crate::ast::BinaryOp) -> BinaryOp {
    match op {
        crate::ast::BinaryOp::Add => BinaryOp::Add,
        crate::ast::BinaryOp::Sub => BinaryOp::Sub,
        crate::ast::BinaryOp::Mul => BinaryOp::Mul,
        crate::ast::BinaryOp::Div => BinaryOp::Div,
        crate::ast::BinaryOp::Mod => BinaryOp::Mod,
        crate::ast::BinaryOp::Lt => BinaryOp::Lt,
        crate::ast::BinaryOp::Gt => BinaryOp::Gt,
        crate::ast::BinaryOp::Le => BinaryOp::Le,
        crate::ast::BinaryOp::Ge => BinaryOp::Ge,
        crate::ast::BinaryOp::Eq => BinaryOp::Eq,
        _ => BinaryOp::NotEq,
    }
}

fn ir_op(op: crate::ast::BinaryOp) -> (r: BinaryOp)
    ensures r == spec_ir_op(op),
{
    match op {
        crate::ast::BinaryOp::Add => BinaryOp::Add,
        crate::ast::BinaryOp::Sub => BinaryOp::Sub,
        crate::ast::BinaryOp::Mul => BinaryOp::Mul,
        crate::ast::BinaryOp::Div => BinaryOp::Div,
        crate::ast::BinaryOp::Mod => BinaryOp::Mod,
        crate::ast::BinaryOp::Lt => BinaryOp::Lt,
        crate::ast::BinaryOp::Gt => BinaryOp::Gt,
        crate::ast::BinaryOp::Le => BinaryOp::Le,
        crate::ast::BinaryOp::Ge => BinaryOp::Ge,
        crate::ast::BinaryOp::Eq => BinaryOp::Eq,
        _ => BinaryOp::NotEq,
    }
}

/// What a translation step guarantees about the symbol table: the scopes and
/// the enclosing loops are as before and the id counter has not gone back.
pub open spec fn same_symbols(a: crate::gen_ir_variables::VariablesView, b: crate::gen_ir_variables::VariablesView) -> bool {
    &&& b.scopes == a.scopes
    &&& b.loops == a.loops
    &&& a.counter <= b.counter
}

/// Expressions that translate into straight-line integer arithmetic:
/// numbers, names bound to constants, and unary operators and binary
/// operators other than `&&` and `||` applied to such expressions.
pub open spec fn const_exp(e: Exp, scopes: Seq<Map<Seq<char>, crate::gen_ir_variables::SymbolInfo>>) -> bool
    decreases e,
{
    match e {
        Exp::Number(_) => true,
        Exp::Var(name) => lookup_const(scopes, name@) is Some,
        Exp::Unary { op, exp } => const_exp(*exp, scopes),
        Exp::Binary { op, lhs, rhs } => !(op is Land) && !(op is Lor) && const_exp(*lhs, scopes) && const_exp(*rhs, scopes),
        _ => false,
    }
}

/// The translation of a constant expression `e` starting in block `bb0`
/// succeeds when that block is placed and the value arena has room for
/// `2 * exp_size(e)` more values: it stays in `bb0`, adds no block to the
/// layout, uses at most that many values, and gives an `i32` value.
pub open spec fn const_exp_ok(
    gl: Seq<ValueData>,
    e: Exp,
    f0: FunctionData,
    f1: FunctionData,
    bb0: BasicBlock,
    bb1: BasicBlock,
    scopes: Seq<Map<Seq<char>, crate::gen_ir_variables::SymbolInfo>>,
    r: Result<Value, CompileError>,
) -> bool {
    const_exp(e, scopes) && in_layout(f0, bb0) && f0.values@.len() + 2 * exp_size(e) < usize::MAX ==> {
        &&& r matches Ok(v) && value_ty(gl, f1, v) == Some(Ty::I32)
        &&& bb1 == bb0
        &&& f1.layout@.len() == f0.layout@.len()
        &&& f1.values@.len() <= f0.values@.len() + 2 * exp_size(e)
    }
}

/// The postcondition of translating an expression.
pub open spec fn exp_post(
    gl: Seq<ValueData>,
    e: Exp,
    f0: FunctionData,
    f1: FunctionData,
    bb0: BasicBlock,
    bb1: BasicBlock,
    scopes: Seq<Map<Seq<char>, crate::gen_ir_variables::SymbolInfo>>,
    r: Result<Value, CompileError>,
) -> bool {
    &&& r is Ok ==> extends(f0, f1)
    &&& r matches Ok(v) ==> v is Local && v->Local_0 < f1.values@.len()
    &&& r matches Ok(v) ==> (straight(e) ==> bb1 == bb0)
    &&& r matches Ok(v) ==> (straight(e) && spec_eval(e, scopes) is Some ==> denote(f1.values@, v) == spec_eval(e, scopes))
    &&& r is Ok ==> (others_terminated(f0, bb0) && layout_unique(f0) ==> others_terminated(f1, bb1) && layout_unique(f1))
    &&& r is Ok ==> (well_typed(gl, f0) ==> well_typed(gl, f1))
    &&& const_exp_ok(gl, e, f0, f1, bb0, bb1, scopes, r)
}

/// What a unary operator `op` makes of the value `vi` its operand was
/// lowered to, giving `v` in `f`: `+` gives `vi` itself, `-` gives
/// `sub 0, vi` and `!` gives `eq vi, 0`, with `0` an integer constant.
pub open spec fn unary_of(op: UnaryOp, f: FunctionData, v: Value, vi: Value) -> bool {
    match op {
        UnaryOp::Plus => v == vi,
        UnaryOp::Minus => last_binary(f, v, BinaryOp::Sub)
            && f.values@.last().kind->Binary_rhs == vi
            && f.values@[f.values@.last().kind->Binary_lhs->Local_0 as int].kind == ValueKind::Integer(0),
        UnaryOp::Not => last_binary(f, v, BinaryOp::Eq)
            && f.values@.last().kind->Binary_lhs == vi
            && f.values@[f.values@.last().kind->Binary_rhs->Local_0 as int].kind == ValueKind::Integer(0),
    }
}

/// How `e` was lowered from `f0` (in block `bb0`) to `f1` (control in
/// `bb1`), giving `r`: `exp_post`, and, following the expression's shape, a
/// name gives what `var_post` says, a unary operator what `unary_of` says of
/// the value its operand was lowered to (first, by `exp_post`), and a binary
/// operator other than `&&` and `||` the instruction `binary(op, l, r)` on
/// the values its left and right operands were lowered to, the left one
/// first and the right one from where the left one ended; `&&` and `||`
/// give what `short_circuit_tests` says.
#[verifier::opaque]
pub open spec fn lowered(
    gl: Seq<ValueData>,
    e: Exp,
    f0: FunctionData,
    f1: FunctionData,
    bb0: BasicBlock,
    bb1: BasicBlock,
    scopes: Seq<Map<Seq<char>, crate::gen_ir_variables::SymbolInfo>>,
    r: Result<Value, CompileError>,
) -> bool {
    &&& exp_post(gl, e, f0, f1, bb0, bb1, scopes, r)
    &&& match e {
        Exp::Var(name) => var_post(f0, f1, scopes, name@, r),
        Exp::Unary { op, exp } => r matches Ok(v) ==> exists|fm: FunctionData, vi: Value|
            #[trigger] exp_post(gl, *exp, f0, fm, bb0, bb1, scopes, Ok::<Value, CompileError>(vi))
            && extends(fm, f1) && unary_of(op, f1, v, vi),
        Exp::Binary { op, lhs, rhs } => {
            &&& !(op is Land) && !(op is Lor) ==> (r matches Ok(v) ==>
            exists|fm1: FunctionData, fm2: FunctionData, bm: BasicBlock, lv: Value, rv: Value|
                #[trigger] exp_post(gl, *lhs, f0, fm1, bb0, bm, scopes, Ok::<Value, CompileError>(lv))
                && #[trigger] exp_post(gl, *rhs, fm1, fm2, bm, bb1, scopes, Ok::<Value, CompileError>(rv))
                && extends(fm2, f1)
                && last_binary(f1, v, spec_ir_op(op))
                && f1.values@.last().kind->Binary_lhs == lv && f1.values@.last().kind->Binary_rhs == rv)
            &&& (op is Land || op is Lor) ==> (r is Ok ==> short_circuit_tests(gl, *lhs, *rhs, f0, f1, bb0, scopes))
        },
        _ => true,
    }
}

proof fn lemma_lowered_leaf(gl: Seq<ValueData>, e: Exp, f0: FunctionData, f1: FunctionData, bb0: BasicBlock, bb1: BasicBlock,
    sc: Seq<Map<Seq<char>, crate::gen_ir_variables::SymbolInfo>>, r: Result<Value, CompileError>)
    requires
        !(e is Unary) && !(e is Binary),
        exp_post(gl, e, f0, f1, bb0, bb1, sc, r),
        e matches Exp::Var(name) ==> var_post(f0, f1, sc, name@, r),
    ensures lowered(gl, e, f0, f1, bb0, bb1, sc, r),
{
    reveal(lowered);
}

proof fn lemma_lowered_unary(gl: Seq<ValueData>, op: UnaryOp, exp: Exp, f0: FunctionData, fm: FunctionData, f1: FunctionData,
    bb0: BasicBlock, bb1: BasicBlock, sc: Seq<Map<Seq<char>, crate::gen_ir_variables::SymbolInfo>>, v: Value, vi: Value)
    requires
        exp_post(gl, Exp::Unary { op, exp: Box::new(exp) }, f0, f1, bb0, bb1, sc, Ok::<Value, CompileError>(v)),
        exp_post(gl, exp, f0, fm, bb0, bb1, sc, Ok::<Value, CompileError>(vi)),
        extends(fm, f1),
        unary_of(op, f1, v, vi),
    ensures lowered(gl, Exp::Unary { op, exp: Box::new(exp) }, f0, f1, bb0, bb1, sc, Ok::<Value, CompileError>(v)),
{
    reveal(lowered);
}

proof fn lemma_lowered_binary(gl: Seq<ValueData>, op: crate::ast::BinaryOp, lhs: Exp, rhs: Exp, f0: FunctionData, fm1: FunctionData,
    fm2: FunctionData, f1: FunctionData, bb0: BasicBlock, bm: BasicBlock, bb1: BasicBlock,
    sc: Seq<Map<Seq<char>, crate::gen_ir_variables::SymbolInfo>>, v: Value, lv: Value, rv: Value)
    requires
        exp_post(gl, Exp::Binary { op, lhs: Box::new(lhs), rhs: Box::new(rhs) }, f0, f1, bb0, bb1, sc, Ok::<Value, CompileError>(v)),
        exp_post(gl, lhs, f0, fm1, bb0, bm, sc, Ok::<Value, CompileError>(lv)),
        exp_post(gl, rhs, fm1, fm2, bm, bb1, sc, Ok::<Value, CompileError>(rv)),
        extends(fm2, f1),
        !(op is Land) && !(op is Lor),
        last_binary(f1, v, spec_ir_op(op)),
        f1.values@.last().kind->Binary_lhs == lv && f1.values@.last().kind->Binary_rhs == rv,
    ensures lowered(gl, Exp::Binary { op, lhs: Box::new(lhs), rhs: Box::new(rhs) }, f0, f1, bb0, bb1, sc, Ok::<Value, CompileError>(v)),
{
    reveal(lowered);
}

proof fn lemma_lowered_short_circuit(gl: Seq<ValueData>, op: crate::ast::BinaryOp, lhs: Exp, rhs: Exp, f0: FunctionData,
    f1: FunctionData, bb0: BasicBlock, bb1: BasicBlock, sc: Seq<Map<Seq<char>, crate::gen_ir_variables::SymbolInfo>>,
    r: Result<Value, CompileError>)
    requires
        op is Land || op is Lor,
        exp_post(gl, Exp::Binary { op, lhs: Box::new(lhs), rhs: Box::new(rhs) }, f0, f1, bb0, bb1, sc, r),
        r is Ok ==> short_circuit_tests(gl, lhs, rhs, f0, f1, bb0, sc),
    ensures lowered(gl, Exp::Binary { op, lhs: Box::new(lhs), rhs: Box::new(rhs) }, f0, f1, bb0, bb1, sc, r),
{
    reveal(lowered);
}

/// A step that only adds values (and maybe blocks outside the layout) keeps
/// the layout's shape.
proof fn lemma_values_only(f: FunctionData, g: FunctionData, cur: BasicBlock)
    requires extends(f, g), g.layout == f.layout,
    ensures
        others_terminated(f, cur) ==> others_terminated(g, cur),
        layout_unique(f) ==> layout_unique(g),
{
    lemma_step_keeps(f, g, cur);
}

/// Translation of an expression into IR.
pub trait ProcessIr {
    /// The postcondition of `process_to_ir` on `self`.
    spec fn ir_post(
        &self,
        gl: Seq<ValueData>,
        f0: FunctionData,
        f1: FunctionData,
        bb0: BasicBlock,
        bb1: BasicBlock,
        scopes: Seq<Map<Seq<char>, crate::gen_ir_variables::SymbolInfo>>,
        r: Result<Value, CompileError>,
    ) -> bool;

    /// Appends the code computing `self` to block `*bb` (which moves on to the
    /// block where control continues) and returns the value holding the
    /// result.
    fn process_to_ir(
        &self,
        globals: &Vec<ValueData>,
        func_data: &mut FunctionData,
        bb: &mut BasicBlock,
        var_map: &mut Variables,
        func_map: &FuncMap,
    ) -> (r: Result<Value, CompileError>)
        ensures
            self.ir_post(globals@, *old(func_data), *final(func_data), *old(bb), *final(bb), old(var_map)@.scopes, r),
            same_symbols(old(var_map)@, final(var_map)@);
}

impl ProcessIr for Exp {
    open spec fn ir_post(
        &self,
        gl: Seq<ValueData>,
        f0: FunctionData,
        f1: FunctionData,
        bb0: BasicBlock,
        bb1: BasicBlock,
        scopes: Seq<Map<Seq<char>, crate::gen_ir_variables::SymbolInfo>>,
        r: Result<Value, CompileError>,
    ) -> bool {
        exp_post(gl, *self, f0, f1, bb0, bb1, scopes, r)
    }

    fn process_to_ir(
        &self,
        globals: &Vec<ValueData>,
        func_data: &mut FunctionData,
        bb: &mut BasicBlock,
        var_map: &mut Variables,
        func_map: &FuncMap,
    ) -> (r: Result<Value, CompileError>) {
        exp_to_ir(self, globals, func_data, bb, var_map, func_map)
    }
}

/// Appends the code computing `e` to block `*bb`; see `ProcessIr`.
pub fn exp_to_ir(
    e: &Exp,
    globals: &Vec<ValueData>,
    func_data: &mut FunctionData,
    bb: &mut BasicBlock,
    var_map: &mut Variables,
    func_map: &FuncMap,
) -> (r: Result<Value, CompileError>)
    ensures
        exp_post(globals@, *e, *old(func_data), *final(func_data), *old(bb), *final(bb), old(var_map)@.scopes, r),
        same_symbols(old(var_map)@, final(var_map)@),
        e matches Exp::Var(name) ==> var_post(*old(func_data), *final(func_data), old(var_map)@.scopes, name@, r),
        e is LVal || e is Call ==> r == Err::<Value, CompileError>(CompileError::Unsupported),
        straight(*e) ==> final(var_map)@ == old(var_map)@,
        r is Ok ==> lowered(globals@, *e, *old(func_data), *final(func_data), *old(bb), *final(bb), old(var_map)@.scopes, r),
        e matches Exp::Unary { op, exp } ==> unary_post(*op, *final(func_data), r),
        e matches Exp::Binary { op, lhs, rhs } ==> binary_post(*op, *final(func_data), *final(bb), r),
    decreases exp_size(*e), 2nat,
{
    let ghost f0 = *func_data;
    let ghost b0 = *bb;
    let ghost sc = var_map@.scopes;
    let r = match e {
        Exp::Number(val) => {
            let v = func_data.integer(*val)?;
            proof { lemma_values_only(*old(func_data), *func_data, *bb); lemma_wt_values(globals@, *old(func_data), *func_data); }
            Ok(v)
        },
        Exp::Unary { op, exp } => process_to_ir_unary(func_data, globals, bb, op, exp, var_map, func_map),
        Exp::Binary { op, lhs, rhs } => process_to_ir_binary(func_data, globals, bb, op, lhs, rhs, var_map, func_map),
        Exp::Var(variable) => process_to_ir_variable(func_data, globals, bb, variable, var_map),
        Exp::LVal(lval) => process_to_ir_lval(lval),
        Exp::Call { ident, args } => process_to_ir_call(func_data, bb, var_map, func_map, ident, args),
    };
    proof {
        if !(e is Unary || e is Binary) {
            lemma_lowered_leaf(globals@, *e, f0, *func_data, b0, *bb, sc, r);
        }
    }
    r
}

/// What a reference to the name `name` gives: a constant the integer it is
/// bound to, a variable a load from its storage, and an undeclared name an
/// error.
pub open spec fn var_post(
    f0: FunctionData,
    f1: FunctionData,
    scopes: Seq<Map<Seq<char>, crate::gen_ir_variables::SymbolInfo>>,
    name: Seq<char>,
    r: Result<Value, CompileError>,
) -> bool {
    match lookup_const(scopes, name) {
        Some(n) => r matches Ok(v) ==> f1.values@[v->Local_0 as int].kind == ValueKind::Integer(n),
        None => match lookup_var(scopes, name) {
            Some(p) => r matches Ok(v) ==> f1.values@[v->Local_0 as int].kind == ValueKind::Load(p),
            None => r == Err::<Value, CompileError>(CompileError::UndefinedVariable),
        },
    }
}

/// The result `v` is the last value of `f`, a binary instruction with
/// operator `o` whose operands are earlier values.
pub open spec fn last_binary(f: FunctionData, v: Value, o: BinaryOp) -> bool {
    &&& f.values@.len() > 0
    &&& v == Value::Local((f.values@.len() - 1) as usize)
    &&& f.values@.last().kind matches ValueKind::Binary { op, lhs, rhs }
    &&& op == o
    &&& lhs is Local && lhs->Local_0 < v->Local_0
    &&& rhs is Local && rhs->Local_0 < v->Local_0
}

/// What a unary operator gives: `+e` is `e` itself, `-e` is `sub 0, e` and
/// `!e` is `eq e, 0`, with `0` an integer constant.
pub open spec fn unary_post(op: UnaryOp, f: FunctionData, r: Result<Value, CompileError>) -> bool {
    r matches Ok(v) ==> match op {
        UnaryOp::Plus => true,
        UnaryOp::Minus => last_binary(f, v, BinaryOp::Sub)
            && f.values@.last().kind->Binary_lhs is Local
            && f.values@[f.values@.last().kind->Binary_lhs->Local_0 as int].kind == ValueKind::Integer(0),
        UnaryOp::Not => last_binary(f, v, BinaryOp::Eq)
            && f.values@.last().kind->Binary_rhs is Local
            && f.values@[f.values@.last().kind->Binary_rhs->Local_0 as int].kind == ValueKind::Integer(0),
    }
}

/// What a binary operator other than `&&` and `||` gives: the last
/// instruction of the block where control continues, a binary instruction
/// with the matching IR operator.
pub open spec fn binary_post(op: crate::ast::BinaryOp, f: FunctionData, bb: BasicBlock, r: Result<Value, CompileError>) -> bool {
    !(op is Land) && !(op is Lor) ==> (r matches Ok(v) ==> {
        &&& last_binary(f, v, spec_ir_op(op))
        &&& exists|k: int| 0 <= k < f.layout@.len() && (#[trigger] f.layout@[k]).bb == bb
            && f.layout@[k].insts@.len() > 0 && f.layout@[k].insts@.last() == v->Local_0
    })
}

/// A variable reference: a constant becomes an integer, a variable a load
/// from its storage; an undeclared name is an error.
fn process_to_ir_variable(
    func_data: &mut FunctionData,
    globals: &Vec<ValueData>,
    bb: &mut BasicBlock,
    var: &String,
    var_map: &mut Variables,
) -> (r: Result<Value, CompileError>)
    ensures
        exp_post(globals@, Exp::Var(*var), *old(func_data), *final(func_data), *old(bb), *final(bb), old(var_map)@.scopes, r),
        final(var_map)@ == old(var_map)@,
        var_post(*old(func_data), *final(func_data), old(var_map)@.scopes, var@, r),
{
    if let Some(val) = var_map.get_const(var.as_str()) {
        let v = func_data.integer(val)?;
        proof { lemma_values_only(*old(func_data), *func_data, *bb); lemma_wt_values(globals@, *old(func_data), *func_data); }
        return Ok(v);
    }
    if let Some(ptr) = var_map.get(var.as_str()) {
        let load_inst = func_data.emit(globals, *bb, ValueKind::Load(ptr))?;
        proof { lemma_emitted_keeps(*old(func_data), *func_data, *bb, load_inst, func_data.values@.last()); lemma_wt_emit(globals@, *old(func_data), *func_data, *bb, load_inst, func_data.values@.last()); }
        return Ok(load_inst);
    }
    Err(CompileError::UndefinedVariable)
}

/// An indexed left value used as an expression is not translated.
fn process_to_ir_lval(lval: &LVal) -> (r: Result<Value, CompileError>)
    ensures r == Err::<Value, CompileError>(CompileError::Unsupported),
{
    Err(CompileError::Unsupported)
}

/// Function calls are not translated.
fn process_to_ir_call(
    func_data: &mut FunctionData,
    bb: &mut BasicBlock,
    var_map: &mut Variables,
    func_map: &FuncMap,
    ident: &String,
    args: &Vec<Exp>,
) -> (r: Result<Value, CompileError>)
    ensures
        r == Err::<Value, CompileError>(CompileError::Unsupported),
        final(var_map)@ == old(var_map)@,
{
    Err(CompileError::Unsupported)
}

#[verifier::spinoff_prover]
#[verifier::rlimit(60)]
fn process_to_ir_unary(
    func_data: &mut FunctionData,
    globals: &Vec<ValueData>,
    bb: &mut BasicBlock,
    op: &UnaryOp,
    exp: &Box<Exp>,
    var_map: &mut Variables,
    func_map: &FuncMap,
) -> (r: Result<Value, CompileError>)
    ensures
        exp_post(globals@, (Exp::Unary { op: *op, exp: *exp }), *old(func_data), *final(func_data), *old(bb), *final(bb), old(var_map)@.scopes, r),
        same_symbols(old(var_map)@, final(var_map)@),
        straight(**exp) ==> final(var_map)@ == old(var_map)@,
        unary_post(*op, *final(func_data), r),
        r is Ok ==> lowered(globals@, (Exp::Unary { op: *op, exp: *exp }), *old(func_data), *final(func_data), *old(bb), *final(bb), old(var_map)@.scopes, r),
    decreases 1 + exp_size(**exp), 1nat,
{
    let ghost f0 = *func_data;
    let ghost b0 = *bb;
    let ghost e = Exp::Unary { op: *op, exp: *exp };
    let ghost good = const_exp(e, old(var_map)@.scopes) && in_layout(f0, b0) && f0.values@.len() + 2 * exp_size(e) < usize::MAX;
    let val = exp_to_ir(exp, globals, func_data, bb, var_map, func_map)?;
    let ghost f1 = *func_data;
    proof {
        if good {
            lemma_in_layout_extends(f0, f1, b0);
        }
    }
    match op {
        UnaryOp::Plus => {
            proof {
                let sc = old(var_map)@.scopes;
                lemma_extends_refl(f1);
                lemma_lowered_unary(globals@, *op, **exp, f0, f1, f1, b0, *bb, sc, val, val);
            }
            Ok(val)
        },
        UnaryOp::Minus => {
            let zero = func_data.integer(0)?;
            let ghost f2 = *func_data;
            proof {
                if good {
                    lemma_in_layout_extends(f1, f2, b0);
                    lemma_value_ty_extends(globals@, f1, f2, val);
                }
            }
            let sub = func_data.emit(globals, *bb, ValueKind::Binary { op: BinaryOp::Sub, lhs: zero, rhs: val })?;
            proof {
                lemma_values_only(f1, f2, *bb); lemma_wt_values(globals@, f1, f2);
                lemma_emitted_keeps(f2, *func_data, *bb, sub, func_data.values@.last()); lemma_wt_emit(globals@, f2, *func_data, *bb, sub, func_data.values@.last());
                lemma_extends_trans(f0, f1, *func_data);
                lemma_denote_prefix(f1.values@, func_data.values@, val->Local_0 as nat);
                lemma_denote_prefix(f2.values@, func_data.values@, zero->Local_0 as nat);
                let e = Exp::Unary { op: *op, exp: *exp };
                if straight(e) && spec_eval(e, old(var_map)@.scopes) is Some {
                    let x = spec_eval(**exp, old(var_map)@.scopes)->Some_0;
                    assert(denote(f1.values@, val) == Some(x));
                    assert(denote_at(f2.values@, zero->Local_0 as nat) == Some(0i32));
                    assert(denote(func_data.values@, sub) == Some(0i32.wrapping_sub(x)));
                    assert(0i32.wrapping_sub(x) == -x);
                }
                let sc = old(var_map)@.scopes;
                lemma_extends_trans(f1, f2, *func_data);
                lemma_lowered_unary(globals@, *op, **exp, f0, f1, *func_data, b0, *bb, sc, sub, val);
            }
            Ok(sub)
        },
        UnaryOp::Not => {
            let zero = func_data.integer(0)?;
            let ghost f2 = *func_data;
            proof {
                if good {
                    lemma_in_layout_extends(f1, f2, b0);
                    lemma_value_ty_extends(globals@, f1, f2, val);
                }
            }
            let eq = func_data.emit(globals, *bb, ValueKind::Binary { op: BinaryOp::Eq, lhs: val, rhs: zero })?;
            proof {
                lemma_values_only(f1, f2, *bb); lemma_wt_values(globals@, f1, f2);
                lemma_emitted_keeps(f2, *func_data, *bb, eq, func_data.values@.last()); lemma_wt_emit(globals@, f2, *func_data, *bb, eq, func_data.values@.last());
                lemma_extends_trans(f0, f1, *func_data);
                lemma_denote_prefix(f1.values@, func_data.values@, val->Local_0 as nat);
                lemma_denote_prefix(f2.values@, func_data.values@, zero->Local_0 as nat);
                assert(denote_at(f2.values@, zero->Local_0 as nat) == Some(0i32));
                let sc = old(var_map)@.scopes;
                lemma_extends_trans(f1, f2, *func_data);
                lemma_lowered_unary(globals@, *op, **exp, f0, f1, *func_data, b0, *bb, sc, eq, val);
            }
            Ok(eq)
        },
    }
}

#[verifier::spinoff_prover]
#[verifier::rlimit(60)]
fn process_to_ir_binary(
    func_data: &mut FunctionData,
    globals: &Vec<ValueData>,
    bb: &mut BasicBlock,
    op: &crate::ast::BinaryOp,
    lhs: &Box<Exp>,
    rhs: &Box<Exp>,
    var_map: &mut Variables,
    func_map: &FuncMap,
) -> (r: Result<Value, CompileError>)
    ensures
        exp_post(globals@, (Exp::Binary { op: *op, lhs: *lhs, rhs: *rhs }), *old(func_data), *final(func_data), *old(bb), *final(bb), old(var_map)@.scopes, r),
        same_symbols(old(var_map)@, final(var_map)@),
        !(op is Land) && !(op is Lor) && straight(**lhs) && straight(**rhs) ==> final(var_map)@ == old(var_map)@,
        binary_post(*op, *final(func_data), *final(bb), r),
        r is Ok ==> lowered(globals@, (Exp::Binary { op: *op, lhs: *lhs, rhs: *rhs }), *old(func_data), *final(func_data), *old(bb), *final(bb), old(var_map)@.scopes, r),
    decreases 1 + exp_size(**lhs) + exp_size(**rhs), 1nat,
{
    match op {
        crate::ast::BinaryOp::Land | crate::ast::BinaryOp::Lor => {
            let ghost f0 = *func_data;
            let ghost b0 = *bb;
            let is_and = match op { crate::ast::BinaryOp::Land => true, _ => false };
            let r = process_short_circuit(func_data, globals, bb, is_and, lhs, rhs, var_map, func_map);
            proof {
                let sc = old(var_map)@.scopes;
                lemma_lowered_short_circuit(globals@, *op, **lhs, **rhs, f0, *func_data, b0, *bb, sc, r);
            }
            r
        },
        _ => {
            let ghost f0 = *func_data;
            let ghost b0 = *bb;
            let ghost e = Exp::Binary { op: *op, lhs: *lhs, rhs: *rhs };
            let ghost good = const_exp(e, old(var_map)@.scopes) && in_layout(f0, b0) && f0.values@.len() + 2 * exp_size(e) < usize::MAX;
            let lhs_val = exp_to_ir(lhs, globals, func_data, bb, var_map, func_map)?;
            let ghost f1 = *func_data;
            let ghost bm = *bb;
            proof {
                if good {
                    lemma_in_layout_extends(f0, f1, b0);
                }
            }
            let rhs_val = exp_to_ir(rhs, globals, func_data, bb, var_map, func_map)?;
            let ghost f2 = *func_data;
            proof {
                if good {
                    lemma_in_layout_extends(f1, f2, b0);
                    lemma_value_ty_extends(globals@, f1, f2, lhs_val);
                }
            }
            let iop = ir_op(*op);
            let bin = func_data.emit(globals, *bb, ValueKind::Binary { op: iop, lhs: lhs_val, rhs: rhs_val })?;
            proof {
                lemma_emitted_keeps(f2, *func_data, *bb, bin, func_data.values@.last()); lemma_wt_emit(globals@, f2, *func_data, *bb, bin, func_data.values@.last());
                lemma_extends_trans(f0, f1, f2);
                lemma_extends_trans(f0, f2, *func_data);
                lemma_denote_prefix(f1.values@, f2.values@, lhs_val->Local_0 as nat);
                lemma_denote_prefix(f2.values@, func_data.values@, lhs_val->Local_0 as nat);
                lemma_denote_prefix(f2.values@, func_data.values@, rhs_val->Local_0 as nat);
                let sc = old(var_map)@.scopes;
                lemma_lowered_binary(globals@, *op, **lhs, **rhs, f0, f1, f2, *func_data, b0, bm, *bb, sc, bin, lhs_val, rhs_val);
            }
            Ok(bin)
        },
    }
}

/// The lowering of `&&` (when `is_and`) or `||` from `f0` to `f`, with `k`
/// the id counter before: a result slot (the first new value) gets `0`
/// (resp. `1`); a branch goes to `%land_rhs_k` / `%land_end_k` (resp. to
/// `%lor_end_k` / `%lor_rhs_k`), the two fresh blocks placed in this order;
/// control continues in the end block, where the result is loaded from the
/// slot.
#[verifier::opaque]
pub open spec fn short_circuit_shape(is_and: bool, f0: FunctionData, f: FunctionData, k: nat, bb: BasicBlock, v: Value) -> bool {
    let b = f0.bbs@.len();
    let p = f0.values@.len();
    &&& bb == b + 1
    &&& bb_named(f, b as usize, (if is_and { "%land_rhs_"@ } else { "%lor_rhs_"@ }) + dec_nat(k))
    &&& bb_named(f, (b + 1) as usize, (if is_and { "%land_end_"@ } else { "%lor_end_"@ }) + dec_nat(k))
    &&& p < f.values@.len() && f.values@[p as int].kind == ValueKind::Alloc
    &&& exists|i: int, z: usize| 0 <= i < f.values@.len() && z < f.values@.len()
            && (#[trigger] f.values@[i]).kind == (ValueKind::Store { value: Value::Local(z), dest: Value::Local(p as usize) })
            && (#[trigger] f.values@[z as int]).kind == ValueKind::Integer(if is_and { 0 } else { 1 })
    &&& exists|i: int| 0 <= i < f.values@.len() && (#[trigger] f.values@[i]).kind is Branch
            && f.values@[i].kind->Branch_true_bb == (if is_and { b } else { b + 1 })
            && f.values@[i].kind->Branch_false_bb == (if is_and { b + 1 } else { b })
    &&& v == Value::Local((f.values@.len() - 1) as usize)
    &&& f.values@.last().kind == ValueKind::Load(Value::Local(p as usize))
    &&& f.layout@.len() > 0 && f.layout@.last().bb == b + 1
    &&& exists|j: int| 0 <= j < f.layout@.len() - 1 && (#[trigger] f.layout@[j]).bb == b
}

/// The tests of `&&` or `||` lowered from `f0` (in block `bb0`) to `f`, in
/// `scopes`, with `p` the result slot (the first new value) and `b` the first
/// fresh block: the left operand, lowered first, gives `lv`, and the branch
/// tests `ne lv, 0`; the right operand, lowered from block `b`, gives `rv`,
/// and `ne rv, 0` is stored into the slot just before a jump to the end
/// block `b + 1`. Both tests compare with an integer `0`.
#[verifier::opaque]
pub open spec fn short_circuit_tests(gl: Seq<ValueData>, lhs: Exp, rhs: Exp, f0: FunctionData, f: FunctionData,
    bb0: BasicBlock, scopes: Seq<Map<Seq<char>, crate::gen_ir_variables::SymbolInfo>>) -> bool {
    let b = f0.bbs@.len();
    let p = f0.values@.len();
    &&& exists|fa: FunctionData, fb: FunctionData, bl: BasicBlock, lv: Value, t: int, z: int, i: int|
        #![trigger exp_post(gl, lhs, fa, fb, bb0, bl, scopes, Ok::<Value, CompileError>(lv)), f.values@[t], f.values@[z], f.values@[i]]
        exp_post(gl, lhs, fa, fb, bb0, bl, scopes, Ok::<Value, CompileError>(lv))
        && extends(f0, fa) && extends(fb, f)
        && 0 <= t < f.values@.len() && 0 <= z < f.values@.len() && 0 <= i < f.values@.len()
        && f.values@[t].kind == (ValueKind::Binary { op: BinaryOp::NotEq, lhs: lv, rhs: Value::Local(z as usize) })
        && f.values@[z].kind == ValueKind::Integer(0)
        && lv is Local && lv->Local_0 < t && z < t && t <= usize::MAX
        && f.values@[i].kind is Branch && f.values@[i].kind->Branch_cond == Value::Local(t as usize)
    &&& exists|fa: FunctionData, fb: FunctionData, bm: BasicBlock, rv: Value, u: int, z: int, st: int|
        #![trigger exp_post(gl, rhs, fa, fb, b as usize, bm, scopes, Ok::<Value, CompileError>(rv)), f.values@[u], f.values@[z], f.values@[st]]
        exp_post(gl, rhs, fa, fb, b as usize, bm, scopes, Ok::<Value, CompileError>(rv))
        && extends(f0, fa) && extends(fb, f)
        && 0 <= u < f.values@.len() && 0 <= z < f.values@.len() && 0 <= st && st + 1 < f.values@.len()
        && f.values@[u].kind == (ValueKind::Binary { op: BinaryOp::NotEq, lhs: rv, rhs: Value::Local(z as usize) })
        && f.values@[z].kind == ValueKind::Integer(0)
        && rv is Local && rv->Local_0 < u && z < u && u <= usize::MAX
        && f.values@[st].kind == (ValueKind::Store { value: Value::Local(u as usize), dest: Value::Local(p as usize) })
        && f.values@[st + 1].kind == ValueKind::Jump((b + 1) as usize)
}

proof fn lemma_short_circuit_tests(gl: Seq<ValueData>, lhs: Exp, rhs: Exp, f0: FunctionData, fa: FunctionData, fb: FunctionData,
    fc: FunctionData, fd: FunctionData, fe: FunctionData, ff: FunctionData, fg: FunctionData, fh: FunctionData,
    fi: FunctionData, fj: FunctionData, fk: FunctionData, fl: FunctionData, fm: FunctionData, fn_: FunctionData,
    f: FunctionData, bb0: BasicBlock, bl: BasicBlock, br_end: BasicBlock,
    sc: Seq<Map<Seq<char>, crate::gen_ir_variables::SymbolInfo>>, lv: Value, rv: Value, t: int, z: int, i: int, u: int, st: int)
    requires
        exp_post(gl, lhs, fb, fc, bb0, bl, sc, Ok::<Value, CompileError>(lv)),
        exp_post(gl, rhs, fi, fj, f0.bbs@.len() as usize, br_end, sc, Ok::<Value, CompileError>(rv)),
        extends(f0, fa), extends(fa, fb), extends(fc, fd), extends(fd, fe), extends(fe, ff), extends(ff, fg), extends(fg, fh),
        extends(fh, fi), extends(fj, fk), extends(fk, fl), extends(fl, fm), extends(fm, fn_), extends(fn_, f),
        extends(fb, fc), extends(fi, fj),
        0 <= z < fd.values@.len(), fd.values@[z].kind == ValueKind::Integer(0),
        0 <= t < ff.values@.len(),
        ff.values@[t].kind == (ValueKind::Binary { op: BinaryOp::NotEq, lhs: lv, rhs: Value::Local(z as usize) }),
        0 <= i < fh.values@.len(), fh.values@[i].kind is Branch, fh.values@[i].kind->Branch_cond == Value::Local(t as usize),
        0 <= u < fk.values@.len(),
        fk.values@[u].kind == (ValueKind::Binary { op: BinaryOp::NotEq, lhs: rv, rhs: Value::Local(z as usize) }),
        lv is Local && lv->Local_0 < t && z < t && t <= usize::MAX, rv is Local && rv->Local_0 < u && z < u && u <= usize::MAX,
        0 <= st < fl.values@.len(),
        fl.values@[st].kind == (ValueKind::Store { value: Value::Local(u as usize), dest: Value::Local(f0.values@.len() as usize) }),
        0 <= st + 1 < fm.values@.len(), fm.values@[st + 1].kind == ValueKind::Jump((f0.bbs@.len() + 1) as usize),
    ensures short_circuit_tests(gl, lhs, rhs, f0, f, bb0, sc),
{
    lemma_extends_trans(fm, fn_, f);
    lemma_extends_trans(fl, fm, f);
    lemma_extends_trans(fk, fl, f);
    lemma_extends_trans(fj, fk, f);
    lemma_extends_trans(fi, fj, f);
    lemma_extends_trans(fh, fi, f);
    lemma_extends_trans(fg, fh, f);
    lemma_extends_trans(ff, fg, f);
    lemma_extends_trans(fe, ff, f);
    lemma_extends_trans(fd, fe, f);
    lemma_extends_trans(fc, fd, f);
    lemma_extends_trans(f0, fa, fb);
    lemma_extends_trans(f0, fb, fc);
    lemma_extends_trans(f0, fc, fd);
    lemma_extends_trans(f0, fd, fe);
    lemma_extends_trans(f0, fe, ff);
    lemma_extends_trans(f0, ff, fg);
    lemma_extends_trans(f0, fg, fh);
    lemma_extends_trans(f0, fh, fi);
    assert(f.values@[z] == fd.values@[z]);
    assert(f.values@[t] == ff.values@[t]);
    assert(f.values@[i] == fh.values@[i]);
    assert(f.values@[u] == fk.values@[u]);
    assert(f.values@[st] == fl.values@[st]);
    assert(f.values@[st + 1] == fm.values@[st + 1]);
    reveal(short_circuit_tests);
}

proof fn lemma_ne_zero_denotes(vals: Seq<ValueData>, t: int, x: Value, z: int)
    requires
        0 <= z < t < vals.len(), t <= usize::MAX,
        vals[t].kind == (ValueKind::Binary { op: BinaryOp::NotEq, lhs: x, rhs: Value::Local(z as usize) }),
        vals[z].kind == ValueKind::Integer(0),
        x is Local && x->Local_0 < t,
        denote_at(vals, x->Local_0 as nat) is Some,
    ensures
        denote_at(vals, t as nat) == Some(if denote_at(vals, x->Local_0 as nat)->Some_0 != 0 { 1i32 } else { 0i32 }),
{
    let a = x->Local_0;
    assert(denote_at(vals, z as nat) == Some(0i32));
    assert(vals[t as nat as int].kind == vals[t].kind);
    assert(denote_at(vals, t as nat) == ir_binop(BinaryOp::NotEq, denote_at(vals, a as nat)->Some_0, 0i32));
}

/// What the left test of `&&` and `||` computes: where the left operand is
/// a straight-line constant expression with value `x`, the condition of the
/// branch denotes `x != 0`: 1 when `x` is nonzero, 0 when it is zero.
#[verifier::spinoff_prover]
pub proof fn law_short_circuit_left_test(gl: Seq<ValueData>, lhs: Exp, rhs: Exp, f0: FunctionData, f: FunctionData,
    bb0: BasicBlock, scopes: Seq<Map<Seq<char>, crate::gen_ir_variables::SymbolInfo>>)
    requires
        short_circuit_tests(gl, lhs, rhs, f0, f, bb0, scopes),
        straight(lhs),
        spec_eval(lhs, scopes) is Some,
    ensures
        exists|i: int| 0 <= i < f.values@.len() && (#[trigger] f.values@[i]).kind is Branch
            && denote(f.values@, f.values@[i].kind->Branch_cond) == Some(if spec_eval(lhs, scopes)->Some_0 != 0 { 1i32 } else { 0i32 }),
{
    reveal(short_circuit_tests);
    let (fa, fb, bl, lv, t, z, i) = choose|fa: FunctionData, fb: FunctionData, bl: BasicBlock, lv: Value, t: int, z: int, i: int|
        #![trigger exp_post(gl, lhs, fa, fb, bb0, bl, scopes, Ok::<Value, CompileError>(lv)), f.values@[t], f.values@[z], f.values@[i]]
        exp_post(gl, lhs, fa, fb, bb0, bl, scopes, Ok::<Value, CompileError>(lv))
        && extends(f0, fa) && extends(fb, f)
        && 0 <= t < f.values@.len() && 0 <= z < f.values@.len() && 0 <= i < f.values@.len()
        && f.values@[t].kind == (ValueKind::Binary { op: BinaryOp::NotEq, lhs: lv, rhs: Value::Local(z as usize) })
        && f.values@[z].kind == ValueKind::Integer(0)
        && lv is Local && lv->Local_0 < t && z < t && t <= usize::MAX
        && f.values@[i].kind is Branch && f.values@[i].kind->Branch_cond == Value::Local(t as usize);
    lemma_denote_prefix(fb.values@, f.values@, lv->Local_0 as nat);
    lemma_ne_zero_denotes(f.values@, t, lv, z);
}

/// What the right test of `&&` and `||` computes: where the right operand
/// is a straight-line constant expression with value `x`, the value stored
/// into the result slot (when the left operand does not decide the result)
/// denotes `x != 0`: 1 when `x` is nonzero, 0 when it is zero.
#[verifier::spinoff_prover]
pub proof fn law_short_circuit_right_test(gl: Seq<ValueData>, lhs: Exp, rhs: Exp, f0: FunctionData, f: FunctionData,
    bb0: BasicBlock, scopes: Seq<Map<Seq<char>, crate::gen_ir_variables::SymbolInfo>>)
    requires
        short_circuit_tests(gl, lhs, rhs, f0, f, bb0, scopes),
        straight(rhs),
        spec_eval(rhs, scopes) is Some,
    ensures
        exists|st: int| 0 <= st < f.values@.len() && (#[trigger] f.values@[st]).kind is Store
            && f.values@[st].kind->Store_dest == Value::Local(f0.values@.len() as usize)
            && denote(f.values@, f.values@[st].kind->Store_value) == Some(if spec_eval(rhs, scopes)->Some_0 != 0 { 1i32 } else { 0i32 }),
{
    reveal(short_circuit_tests);
    let b = f0.bbs@.len();
    let (fa, fb, bm, rv, u, z, st) = choose|fa: FunctionData, fb: FunctionData, bm: BasicBlock, rv: Value, u: int, z: int, st: int|
        #![trigger exp_post(gl, rhs, fa, fb, b as usize, bm, scopes, Ok::<Value, CompileError>(rv)), f.values@[u], f.values@[z], f.values@[st]]
        exp_post(gl, rhs, fa, fb, b as usize, bm, scopes, Ok::<Value, CompileError>(rv))
        && extends(f0, fa) && extends(fb, f)
        && 0 <= u < f.values@.len() && 0 <= z < f.values@.len() && 0 <= st && st + 1 < f.values@.len()
        && f.values@[u].kind == (ValueKind::Binary { op: BinaryOp::NotEq, lhs: rv, rhs: Value::Local(z as usize) })
        && f.values@[z].kind == ValueKind::Integer(0)
        && rv is Local && rv->Local_0 < u && z < u && u <= usize::MAX
        && f.values@[st].kind == (ValueKind::Store { value: Value::Local(u as usize), dest: Value::Local(f0.values@.len() as usize) })
        && f.values@[st + 1].kind == ValueKind::Jump((b + 1) as usize);
    lemma_denote_prefix(fb.values@, f.values@, rv->Local_0 as nat);
    lemma_ne_zero_denotes(f.values@, u, rv, z);
}

/// Room to translate `&&` or `||` with operands of total size `size` from
/// block `bb` of `f`: the id counter, the block arena and the value arena
/// have room, the block is placed, and every placed block was made already.
pub open spec fn short_circuit_room(f: FunctionData, bb: BasicBlock, counter: nat, size: nat) -> bool {
    &&& counter < u64::MAX
    &&& f.bbs@.len() + 2 < usize::MAX
    &&& in_layout(f, bb)
    &&& forall|j: int| 0 <= j < f.layout@.len() ==> (#[trigger] f.layout@[j]).bb < f.bbs@.len()
    &&& f.values@.len() + 2 * size + 12 < usize::MAX
}

/// `&&` (when `is_and`) or `||`: the result goes through a stack slot; the
/// right operand is evaluated in its own block only when the left one does
/// not decide the result.
#[verifier::spinoff_prover]
#[verifier::rlimit(100)]
fn process_short_circuit(
    func_data: &mut FunctionData,
    globals: &Vec<ValueData>,
    bb: &mut BasicBlock,
    is_and: bool,
    lhs: &Box<Exp>,
    rhs: &Box<Exp>,
    var_map: &mut Variables,
    func_map: &FuncMap,
) -> (r: Result<Value, CompileError>)
    ensures
        r is Ok ==> extends(*old(func_data), *final(func_data)),
        r matches Ok(v) ==> v is Local && v->Local_0 < final(func_data).values@.len(),
        r is Ok ==> (others_terminated(*old(func_data), *old(bb)) && layout_unique(*old(func_data))
            ==> others_terminated(*final(func_data), *final(bb)) && layout_unique(*final(func_data))),
        r is Ok ==> (well_typed(globals@, *old(func_data)) ==> well_typed(globals@, *final(func_data))),
        same_symbols(old(var_map)@, final(var_map)@),
        const_exp(**lhs, old(var_map)@.scopes) && const_exp(**rhs, old(var_map)@.scopes)
            && short_circuit_room(*old(func_data), *old(bb), old(var_map)@.counter, exp_size(**lhs) + exp_size(**rhs)) ==>
            (r matches Ok(v) && value_ty(globals@, *final(func_data), v) == Some(Ty::I32)
                && *final(bb) == old(func_data).bbs@.len() + 1),
        r matches Ok(v) ==> short_circuit_shape(is_and, *old(func_data), *final(func_data), old(var_map)@.counter as nat, *final(bb), v),
        r is Ok ==> short_circuit_tests(globals@, **lhs, **rhs, *old(func_data), *final(func_data), *old(bb), old(var_map)@.scopes),
    decreases 1 + exp_size(**lhs) + exp_size(**rhs), 0nat,
{
    let ghost f0 = *func_data;
    let ghost b0 = *bb;
    let ghost sl = exp_size(**lhs);
    let ghost sr = exp_size(**rhs);
    let ghost sc = old(var_map)@.scopes;
    let ghost good = const_exp(**lhs, old(var_map)@.scopes) && const_exp(**rhs, old(var_map)@.scopes)
        && short_circuit_room(f0, b0, old(var_map)@.counter, sl + sr);
    if !var_map.has_next_id() {
        return Err(CompileError::Overflow);
    }
    let id = var_map.get_id();
    let rhs_name = if is_and { str_with_u64("%land_rhs_", id) } else { str_with_u64("%lor_rhs_", id) };
    let end_name = if is_and { str_with_u64("%land_end_", id) } else { str_with_u64("%lor_end_", id) };
    let rhs_bb = func_data.new_bb(Some(rhs_name))?;
    let end_bb = func_data.new_bb(Some(end_name))?;
    let ghost fa = *func_data;
    let result_ptr = func_data.emit_alloc(*bb, Ty::I32, None)?;
    let ghost fb = *func_data;
    proof {
        if good {
            lemma_in_layout_extends(fa, fb, b0);
        }
    }
    let lhs_val = exp_to_ir(lhs, globals, func_data, bb, var_map, func_map)?;
    let ghost fc = *func_data;
    let ghost bl = *bb;
    let zero = func_data.integer(0)?;
    let ghost fd = *func_data;
    let one = if is_and { zero } else { func_data.integer(1)? };
    let ghost fe = *func_data;
    proof {
        if good {
            lemma_extends_trans(fc, fd, fe);
            lemma_in_layout_extends(fb, fc, b0);
            lemma_in_layout_extends(fc, fe, b0);
            lemma_value_ty_extends(globals@, fc, fe, lhs_val);
            lemma_value_ty_extends(globals@, fd, fe, zero);
        }
    }
    let lhs_bool = func_data.emit(globals, *bb, ValueKind::Binary { op: BinaryOp::NotEq, lhs: lhs_val, rhs: zero })?;
    let ghost ff = *func_data;
    let init = if is_and { zero } else { one };
    proof {
        if good {
            lemma_extends_trans(fb, fc, fe);
            lemma_extends_trans(fb, fe, ff);
            lemma_value_ty_extends(globals@, fb, ff, result_ptr);
            lemma_value_ty_extends(globals@, fe, ff, init);
            lemma_in_layout_extends(fe, ff, b0);
        }
    }
    let store_init = func_data.emit(globals, *bb, ValueKind::Store { value: init, dest: result_ptr })?;
    let ghost fg = *func_data;
    proof {
        if good {
            lemma_value_ty_extends(globals@, ff, fg, lhs_bool);
            lemma_in_layout_extends(ff, fg, b0);
        }
    }
    let br = if is_and {
        func_data.emit(globals, *bb, ValueKind::Branch { cond: lhs_bool, true_bb: rhs_bb, false_bb: end_bb })?
    } else {
        func_data.emit(globals, *bb, ValueKind::Branch { cond: lhs_bool, true_bb: end_bb, false_bb: rhs_bb })?
    };
    let ghost fh = *func_data;
    proof {
        if good {
            lemma_extends_trans(f0, fa, fb);
            lemma_extends_trans(f0, fb, fc);
            lemma_extends_trans(f0, fc, fe);
            lemma_extends_trans(f0, fe, ff);
            lemma_extends_trans(f0, ff, fg);
            lemma_extends_trans(f0, fg, fh);
            assert(fh.layout@.len() == f0.layout@.len());
            assert forall|j: int| 0 <= j < fh.layout@.len() implies (#[trigger] fh.layout@[j]).bb != rhs_bb by {
                assert(fh.layout@[j].bb == f0.layout@[j].bb);
            }
        }
    }
    func_data.push_bb(rhs_bb)?;
    let ghost fi = *func_data;
    *bb = rhs_bb;
    proof {
        if good {
            assert(fi.layout@[fi.layout@.len() - 1].bb == rhs_bb);
        }
    }
    let rhs_val = exp_to_ir(rhs, globals, func_data, bb, var_map, func_map)?;
    let ghost fj = *func_data;
    let ghost br_end = *bb;
    proof {
        if good {
            lemma_extends_trans(fe, ff, fg);
            lemma_extends_trans(fe, fg, fh);
            lemma_extends_trans(fe, fh, fi);
            lemma_extends_trans(fe, fi, fj);
            lemma_value_ty_extends(globals@, fe, fj, zero);
            lemma_in_layout_extends(fi, fj, rhs_bb);
        }
    }
    let rhs_bool = func_data.emit(globals, *bb, ValueKind::Binary { op: BinaryOp::NotEq, lhs: rhs_val, rhs: zero })?;
    let ghost fk = *func_data;
    proof {
        if good {
            lemma_extends_trans(fb, ff, fg);
            lemma_extends_trans(fb, fg, fh);
            lemma_extends_trans(fb, fh, fi);
            lemma_extends_trans(fb, fi, fj);
            lemma_extends_trans(fb, fj, fk);
            lemma_value_ty_extends(globals@, fb, fk, result_ptr);
            lemma_in_layout_extends(fj, fk, rhs_bb);
        }
    }
    let store_rhs = func_data.emit(globals, *bb, ValueKind::Store { value: rhs_bool, dest: result_ptr })?;
    let ghost fl = *func_data;
    proof {
        if good {
            lemma_in_layout_extends(fk, fl, rhs_bb);
        }
    }
    let jump_end = func_data.emit(globals, *bb, ValueKind::Jump(end_bb))?;
    let ghost fm = *func_data;
    proof {
        if good {
            lemma_extends_trans(fh, fi, fj);
            lemma_extends_trans(fh, fj, fk);
            lemma_extends_trans(fh, fk, fl);
            lemma_extends_trans(fh, fl, fm);
            lemma_extends_trans(fi, fj, fk);
            lemma_extends_trans(fi, fk, fl);
            lemma_extends_trans(fi, fl, fm);
            assert(fm.layout@.len() == f0.layout@.len() + 1);
            assert forall|j: int| 0 <= j < fm.layout@.len() implies (#[trigger] fm.layout@[j]).bb != end_bb by {
                if j < f0.layout@.len() {
                    assert(fm.layout@[j].bb == fh.layout@[j].bb);
                    assert(fh.layout@[j].bb == f0.layout@[j].bb);
                } else {
                    assert(fm.layout@[j].bb == fi.layout@[j].bb);
                }
            }
        }
    }
    func_data.push_bb(end_bb)?;
    let ghost fn_ = *func_data;
    *bb = end_bb;
    proof {
        if good {
            lemma_extends_trans(fb, fk, fl);
            lemma_extends_trans(fb, fl, fm);
            lemma_extends_trans(fb, fm, fn_);
            lemma_value_ty_extends(globals@, fb, fn_, result_ptr);
            assert(fn_.layout@[fn_.layout@.len() - 1].bb == end_bb);
        }
    }
    let load_res = func_data.emit(globals, *bb, ValueKind::Load(result_ptr))?;
    assert({
        &&& extends(f0, *func_data)
        &&& (others_terminated(f0, b0) && layout_unique(f0) ==> others_terminated(*func_data, *bb) && layout_unique(*func_data))
        &&& (well_typed(globals@, f0) ==> well_typed(globals@, *func_data))
        &&& short_circuit_shape(is_and, f0, *func_data, old(var_map)@.counter as nat, *bb, load_res)
        &&& (good ==> value_ty(globals@, *func_data, load_res) == Some(Ty::I32) && *bb == f0.bbs@.len() + 1)
    }) by {
        let b0 = *old(bb);
        lemma_values_only(f0, fa, b0); lemma_wt_values(globals@, f0, fa);
        lemma_emitted_keeps(fa, fb, b0, result_ptr, fb.values@.last()); lemma_wt_emit(globals@, fa, fb, b0, result_ptr, fb.values@.last());
        if is_and { lemma_extends_refl(fd); }
        lemma_values_only(fc, fd, bl); lemma_wt_values(globals@, fc, fd);
        lemma_values_only(fd, fe, bl); lemma_wt_values(globals@, fd, fe);
        lemma_emitted_keeps(fe, ff, bl, lhs_bool, ff.values@.last()); lemma_wt_emit(globals@, fe, ff, bl, lhs_bool, ff.values@.last());
        lemma_emitted_keeps(ff, fg, bl, store_init, fg.values@.last()); lemma_wt_emit(globals@, ff, fg, bl, store_init, fg.values@.last());
        lemma_emitted_keeps(fg, fh, bl, br, fh.values@.last()); lemma_wt_emit(globals@, fg, fh, bl, br, fh.values@.last());
        lemma_emitted_keeps(fj, fk, br_end, rhs_bool, fk.values@.last()); lemma_wt_emit(globals@, fj, fk, br_end, rhs_bool, fk.values@.last());
        lemma_emitted_keeps(fk, fl, br_end, store_rhs, fl.values@.last()); lemma_wt_emit(globals@, fk, fl, br_end, store_rhs, fl.values@.last());
        lemma_emitted_keeps(fl, fm, br_end, jump_end, fm.values@.last()); lemma_wt_emit(globals@, fl, fm, br_end, jump_end, fm.values@.last());
        lemma_emitted_keeps(fn_, *func_data, end_bb, load_res, func_data.values@.last()); lemma_wt_emit(globals@, fn_, *func_data, end_bb, load_res, func_data.values@.last());
        lemma_wt_values(globals@, fh, fi);
        lemma_wt_values(globals@, fm, fn_);
        lemma_extends_trans(f0, fa, fb);
        lemma_extends_trans(f0, fb, fc);
        lemma_extends_trans(f0, fc, fd);
        if is_and { lemma_extends_refl(fd); }
        lemma_extends_trans(f0, fd, fe);
        lemma_extends_trans(f0, fe, ff);
        lemma_extends_trans(f0, ff, fg);
        lemma_extends_trans(f0, fg, fh);
        lemma_extends_trans(f0, fh, fi);
        lemma_extends_trans(f0, fi, fj);
        lemma_extends_trans(f0, fj, fk);
        lemma_extends_trans(f0, fk, fl);
        lemma_extends_trans(f0, fl, fm);
        lemma_extends_trans(f0, fm, fn_);
        lemma_extends_trans(f0, fn_, *func_data);
        let ff_ = *func_data;
        lemma_extends_trans(fb, fc, fd);
        lemma_extends_trans(fb, fd, fe);
        lemma_extends_trans(fb, fe, ff);
        lemma_extends_trans(fb, ff, fg);
        lemma_extends_trans(fg, fh, fi);
        lemma_extends_trans(fg, fi, fj);
        lemma_extends_trans(fg, fj, fk);
        lemma_extends_trans(fg, fk, fl);
        lemma_extends_trans(fg, fl, fm);
        lemma_extends_trans(fg, fm, fn_);
        lemma_extends_trans(fg, fn_, ff_);
        lemma_extends_trans(fh, fi, fj);
        lemma_extends_trans(fh, fj, fk);
        lemma_extends_trans(fh, fk, fl);
        lemma_extends_trans(fh, fl, fm);
        lemma_extends_trans(fh, fm, fn_);
        lemma_extends_trans(fh, fn_, ff_);
        lemma_extends_trans(fb, fg, ff_);
        lemma_extends_trans(fi, fj, fk);
        lemma_extends_trans(fi, fk, fl);
        lemma_extends_trans(fi, fl, fm);
        lemma_extends_trans(fi, fm, fn_);
        lemma_extends_trans(fi, fn_, ff_);
        let p = f0.values@.len();
        assert(ff_.values@[p as int] == fb.values@[p as int]);
        let si = store_init->Local_0 as int;
        assert(ff_.values@[si] == fg.values@[si]);
        assert(ff_.values@[init->Local_0 as int] == fe.values@[init->Local_0 as int]);
        let bi = br->Local_0 as int;
        assert(ff_.values@[bi] == fh.values@[bi]);
        let ri = fi.layout@.len() - 1;
        assert(ff_.layout@[ri].bb == fi.layout@[ri].bb);
        reveal(short_circuit_shape);
    }
    proof {
        lemma_short_circuit_tests(globals@, **lhs, **rhs, f0, fa, fb, fc, fd, fe, ff, fg, fh, fi, fj, fk, fl, fm, fn_,
            *func_data, b0, bl, br_end, sc, lhs_val, rhs_val, lhs_bool->Local_0 as int, zero->Local_0 as int,
            br->Local_0 as int, rhs_bool->Local_0 as int, store_rhs->Local_0 as int);
    }
    Ok(load_res)
}

} // verus!
