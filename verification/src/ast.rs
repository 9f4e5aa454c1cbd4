//! The abstract syntax of SysY programs, and the evaluation of constant
//! expressions.
//!
//! `RawType` is the source-level type, as opposed to the IR's `Ty`.
use crate::gen_ir_variables::{lookup_const, Variables, VariablesView};
use vstd::prelude::*;

verus! {

/// A translation unit: global declarations and function definitions in order.
#[derive(Debug, PartialEq, Eq)]
pub struct CompUnit {
    pub items: Vec<CompUnitItem>,
}

/// A top-level item.
#[derive(Debug, PartialEq, Eq)]
pub enum CompUnitItem {
    Decl(Decl),
    FuncDef(FuncDef),
}

#[derive(Debug, PartialEq, Eq)]
pub struct FuncDef {
    pub func_type: RawType,
    pub ident: String,
    pub func_params: Vec<FuncFParam>,
    pub block: Block,
}

#[derive(Debug, PartialEq, Eq, Structural, Clone, Copy)]
pub enum RawType {
    Int,
    Void,
}

/// A formal parameter; an array parameter `int a[][n]...` has `is_array` set
/// and the lengths after the first dimension in `array_lens`.
#[derive(Debug, PartialEq, Eq)]
pub struct FuncFParam {
    pub bt: RawType,
    pub id: String,
    pub is_array: bool,
    pub array_lens: Vec<ConstExp>,
}

#[derive(Debug, PartialEq, Eq)]
pub enum Stmt {
    Block(Block),
    Assign { lval: LVal, exp: Exp },
    /// `[Exp] ";"`: an expression statement, or an empty one.
    Exp(Option<Exp>),
    /// `return [Exp] ";"`.
    Return(Option<Exp>),
    IF(Box<IF>),
    WHILE(Box<WHILE>),
    Break,
    Continue,
}

#[derive(Debug, PartialEq, Eq)]
pub struct IF {
    pub cond: Exp,
    pub then_stmt: Stmt,
    pub else_stmt: Option<Stmt>,
}

#[derive(Debug, PartialEq, Eq)]
pub struct WHILE {
    pub cond: Exp,
    pub body_while: Stmt,
}

#[derive(Debug, PartialEq, Eq)]
#[allow(inconsistent_fields)]
pub enum Exp {
    Number(i32),
    /// A reference to a variable or a constant.
    Var(String),
    LVal(LVal),
    Unary { op: UnaryOp, exp: Box<Exp> },
    Binary { op: BinaryOp, lhs: Box<Exp>, rhs: Box<Exp> },
    Call { ident: String, args: Vec<Exp> },
}

/// A left value: a name with zero or more indices.
#[derive(Debug, PartialEq, Eq)]
pub struct LVal {
    pub ident: String,
    pub indices: Vec<Exp>,
}

#[derive(Debug, PartialEq, Eq, Structural, Clone, Copy)]
pub enum UnaryOp {
    Plus,
    Minus,
    Not,
}

#[derive(Debug, PartialEq, Eq, Structural, Clone, Copy)]
pub enum BinaryOp {
    Add,
    Sub,
    Mul,
    Div,
    Mod,
    Lt,
    Gt,
    Le,
    Ge,
    Eq,
    Neq,
    Land,
    Lor,
}

#[derive(Debug, PartialEq, Eq)]
pub enum BlockItem {
    Decl(Decl),
    Stmt(Stmt),
}

#[derive(Debug, PartialEq, Eq)]
pub struct Block {
    pub stmt: Vec<BlockItem>,
}

#[derive(Debug, PartialEq, Eq)]
pub enum Decl {
    Const(ConstDecl),
    Var(VarDecl),
}

#[derive(Debug, PartialEq, Eq)]
pub struct ConstDecl {
    pub typ: RawType,
    pub defs: Vec<ConstDef>,
}

#[derive(Debug, PartialEq, Eq)]
pub struct ConstDef {
    pub ident: String,
    pub array_lens: Vec<ConstExp>,
    pub init_val: ConstInitVal,
}

#[derive(Debug, PartialEq, Eq)]
pub enum ConstInitVal {
    Exp(ConstExp),
    List(Vec<ConstInitVal>),
}

#[derive(Debug, PartialEq, Eq)]
pub struct ConstExp {
    pub exp: Exp,
}

#[derive(Debug, PartialEq, Eq)]
pub struct VarDecl {
    pub typ: RawType,
    pub defs: Vec<VarDef>,
}

#[derive(Debug, PartialEq, Eq)]
pub struct VarDef {
    pub ident: String,
    pub array_lens: Vec<ConstExp>,
    pub init_val: Option<InitVal>,
}

#[derive(Debug, PartialEq, Eq)]
pub enum InitVal {
    Exp(Exp),
    List(Vec<InitVal>),
}

#[derive(Debug, PartialEq, Eq)]
pub struct VarExp {
    pub exp: Exp,
}

/// The value of a binary operator on two 32-bit integers, or `None` where it
/// overflows or divides by zero. Comparisons and logical operators give 0 or 1.
pub open spec fn spec_binop(op: BinaryOp, l: i32, r: i32) -> Option<i32> {
    match op {
        BinaryOp::Add => l.checked_add(r),
        BinaryOp::Sub => l.checked_sub(r),
        BinaryOp::Mul => l.checked_mul(r),
        BinaryOp::Div => l.checked_div(r),
        BinaryOp::Mod => l.checked_rem(r),
        BinaryOp::Lt => Some(if l < r { 1 } else { 0 }),
        BinaryOp::Gt => Some(if l > r { 1 } else { 0 }),
        BinaryOp::Le => Some(if l <= r { 1 } else { 0 }),
        BinaryOp::Ge => Some(if l >= r { 1 } else { 0 }),
        BinaryOp::Eq => Some(if l == r { 1 } else { 0 }),
        BinaryOp::Neq => Some(if l != r { 1 } else { 0 }),
        BinaryOp::Land => Some(if l != 0 && r != 0 { 1 } else { 0 }),
        BinaryOp::Lor => Some(if l != 0 || r != 0 { 1 } else { 0 }),
    }
}

/// The value of a unary operator, or `None` where it overflows.
pub open spec fn spec_unop(op: UnaryOp, v: i32) -> Option<i32> {
    match op {
        UnaryOp::Plus => Some(v),
        UnaryOp::Minus => if v == i32::MIN { None } else { Some((-v) as i32) },
        UnaryOp::Not => Some(if v == 0 { 1 } else { 0 }),
    }
}

/// The value of a constant expression under the given scopes: numbers,
/// constants and operators; `None` where a name is not a constant, an
/// operation overflows or divides by zero, or the expression is an indexed
/// left value or a call.
pub open spec fn spec_eval(e: Exp, scopes: Seq<Map<Seq<char>, crate::gen_ir_variables::SymbolInfo>>) -> Option<i32>
    decreases e,
{
    match e {
        Exp::Number(n) => Some(n),
        Exp::Var(name) => lookup_const(scopes, name@),
        Exp::Unary { op, exp } => match spec_eval(*exp, scopes) {
            Some(v) => spec_unop(op, v),
            None => None,
        },
        Exp::Binary { op, lhs, rhs } => match spec_eval(*lhs, scopes) {
            Some(l) => match spec_eval(*rhs, scopes) {
                Some(r) => spec_binop(op, l, r),
                None => None,
            },
            None => None,
        },
        Exp::LVal(_) => None,
        Exp::Call { .. } => None,
    }
}

/// The exec counterpart of `spec_binop`.
pub fn eval_binop(op: BinaryOp, l: i32, r: i32) -> (v: Option<i32>)
    ensures v == spec_binop(op, l, r),
{
    match op {
        BinaryOp::Add => l.checked_add(r),
        BinaryOp::Sub => l.checked_sub(r),
        BinaryOp::Mul => l.checked_mul(r),
        BinaryOp::Div => l.checked_div(r),
        BinaryOp::Mod => l.checked_rem(r),
        BinaryOp::Lt => Some(if l < r { 1 } else { 0 }),
        BinaryOp::Gt => Some(if l > r { 1 } else { 0 }),
        BinaryOp::Le => Some(if l <= r { 1 } else { 0 }),
        BinaryOp::Ge => Some(if l >= r { 1 } else { 0 }),
        BinaryOp::Eq => Some(if l == r { 1 } else { 0 }),
        BinaryOp::Neq => Some(if l != r { 1 } else { 0 }),
        BinaryOp::Land => Some(if l != 0 && r != 0 { 1 } else { 0 }),
        BinaryOp::Lor => Some(if l != 0 || r != 0 { 1 } else { 0 }),
    }
}

/// The exec counterpart of `spec_unop`.
pub fn eval_unop(op: UnaryOp, v: i32) -> (r: Option<i32>)
    ensures r == spec_unop(op, v),
{
    match op {
        UnaryOp::Plus => Some(v),
        UnaryOp::Minus => if v == i32::MIN { None } else { Some(-v) },
        UnaryOp::Not => Some(if v == 0 { 1 } else { 0 }),
    }
}

/// Whether a comparison result is the truth value of `c`: 1 when `c`
/// holds, 0 when it does not.
pub open spec fn truth_of(x: Option<i32>, c: bool) -> bool {
    x == Some(if c { 1i32 } else { 0i32 })
}

/// The binary operators on 32-bit integers, in plain arithmetic: `+`, `-`
/// and `*` give the mathematical result exactly when it fits in 32 bits and
/// nothing otherwise; `/` and `%` give nothing for a zero divisor and for
/// `i32::MIN / -1`, `i32::MIN % -1`, and the quotient and remainder of
/// natural numbers as usual; each comparison gives 1 when it holds and 0
/// when not; `&&` gives 1 exactly when both operands are nonzero and `||`
/// exactly when one of them is.
pub proof fn law_binop_values(l: i32, r: i32)
    ensures
        (spec_binop(BinaryOp::Add, l, r) is Some <==> i32::MIN <= l + r <= i32::MAX),
        spec_binop(BinaryOp::Add, l, r) matches Some(x) ==> x == l + r,
        (spec_binop(BinaryOp::Sub, l, r) is Some <==> i32::MIN <= l - r <= i32::MAX),
        spec_binop(BinaryOp::Sub, l, r) matches Some(x) ==> x == l - r,
        (spec_binop(BinaryOp::Mul, l, r) is Some <==> i32::MIN <= l * r <= i32::MAX),
        spec_binop(BinaryOp::Mul, l, r) matches Some(x) ==> x == l * r,
        (spec_binop(BinaryOp::Div, l, r) is None <==> r == 0 || (l == i32::MIN && r == -1)),
        (spec_binop(BinaryOp::Mod, l, r) is None <==> r == 0 || (l == i32::MIN && r == -1)),
        l >= 0 && r > 0 ==> spec_binop(BinaryOp::Div, l, r) == Some((l / r) as i32)
            && spec_binop(BinaryOp::Mod, l, r) == Some((l % r) as i32),
        truth_of(spec_binop(BinaryOp::Lt, l, r), l < r),
        truth_of(spec_binop(BinaryOp::Gt, l, r), l > r),
        truth_of(spec_binop(BinaryOp::Le, l, r), l <= r),
        truth_of(spec_binop(BinaryOp::Ge, l, r), l >= r),
        truth_of(spec_binop(BinaryOp::Eq, l, r), l == r),
        truth_of(spec_binop(BinaryOp::Neq, l, r), l != r),
        truth_of(spec_binop(BinaryOp::Land, l, r), l != 0 && r != 0),
        truth_of(spec_binop(BinaryOp::Lor, l, r), l != 0 || r != 0),
{
    let x = l as int;
    let d = r as int;
    if x > 0 && d > 0 {
        assert(0 <= x / d <= x) by (nonlinear_arith) requires x > 0, d > 0;
    } else if x < 0 && d < 0 {
        if d == -1 {
            assert((x * -1) / (d * -1) == x * -1) by (nonlinear_arith) requires d == -1;
        } else {
            assert(0 <= (x * -1) / (d * -1) <= (x * -1) / 2) by (nonlinear_arith) requires x < 0, d < -1;
        }
    } else if x < 0 && d > 0 {
        assert(0 <= (x * -1) / d <= x * -1) by (nonlinear_arith) requires x < 0, d > 0;
    } else if x > 0 && d < 0 {
        assert(0 <= x / (d * -1) <= x) by (nonlinear_arith) requires x > 0, d < 0;
    }
    if l >= 0 && r > 0 {
        assert(0 <= l / r <= l) by (nonlinear_arith) requires l >= 0, r > 0;
        assert(0 <= l % r < r) by (nonlinear_arith) requires l >= 0, r > 0;
    }
}

/// The unary operators on 32-bit integers, in plain arithmetic: `+` gives
/// its operand, `-` its negation where that fits in 32 bits, and `!` gives 1
/// exactly for zero.
pub proof fn law_unop_values(v: i32)
    ensures
        spec_unop(UnaryOp::Plus, v) == Some(v),
        (spec_unop(UnaryOp::Minus, v) is Some <==> -v <= i32::MAX),
        spec_unop(UnaryOp::Minus, v) matches Some(x) ==> x == -v,
        truth_of(spec_unop(UnaryOp::Not, v), v == 0),
{
}

/// Evaluates a constant expression; `None` exactly where `spec_eval` is.
pub fn try_eval_exp(e: &Exp, var_map: &Variables) -> (r: Option<i32>)
    ensures r == spec_eval(*e, var_map@.scopes),
    decreases e,
{
    match e {
        Exp::Number(n) => Some(*n),
        Exp::Var(name) => var_map.get_const(name.as_str()),
        Exp::Unary { op, exp } => match try_eval_exp(exp, var_map) {
            Some(v) => eval_unop(*op, v),
            None => None,
        },
        Exp::Binary { op, lhs, rhs } => match try_eval_exp(lhs, var_map) {
            Some(l) => match try_eval_exp(rhs, var_map) {
                Some(r) => eval_binop(*op, l, r),
                None => None,
            },
            None => None,
        },
        Exp::LVal(_) => None,
        Exp::Call { .. } => None,
    }
}

/// Evaluation of constant expressions at compile time.
pub trait EvalExp {
    /// The value of `self` under the symbol table `var_map`, if it has one.
    spec fn spec_eval_exp(&self, var_map: VariablesView) -> Option<i32>;

    /// The value of `self`, where it has one.
    fn eval_exp(&self, var_map: &Variables) -> (r: i32)
        requires self.spec_eval_exp(var_map@) is Some,
        ensures Some(r) == self.spec_eval_exp(var_map@);
}

impl EvalExp for Exp {
    open spec fn spec_eval_exp(&self, var_map: VariablesView) -> Option<i32> {
        spec_eval(*self, var_map.scopes)
    }

    fn eval_exp(&self, var_map: &Variables) -> (r: i32) {
        match try_eval_exp(self, var_map) {
            Some(v) => v,
            None => 0,
        }
    }
}

} // verus!
