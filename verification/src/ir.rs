//! The in-memory intermediate representation that the front end produces and
//! the back end reads: a Koopa-style program made of global values and
//! functions, each function holding an arena of values, an arena of basic
//! blocks and a layout (the ordered blocks with their instruction lists).
//!
//! Handles are plain indices. A `Value` is either a global value (an index
//! into `Program::globals`) or a value local to one function (an index into
//! `FunctionData::values`). The builders check the same typing rules that the
//! Koopa builders assert, and report a violation as an error.
use crate::error::CompileError;
use vstd::prelude::*;

verus! {

/// Types of IR values.
#[derive(Debug)]
pub enum Ty {
    I32,
    Unit,
    Pointer(Box<Ty>),
    Array(Box<Ty>, usize),
}

/// Size in bytes of a value of the type, with pointers of 4 bytes.
pub open spec fn ty_size(t: Ty) -> nat
    decreases t,
{
    match t {
        Ty::I32 => 4,
        Ty::Unit => 0,
        Ty::Pointer(_) => 4,
        Ty::Array(e, n) => ty_size(*e) * (n as nat),
    }
}

impl Clone for Ty {
    fn clone(&self) -> (r: Ty)
        ensures r == *self,
        decreases *self,
    {
        match self {
            Ty::I32 => Ty::I32,
            Ty::Unit => Ty::Unit,
            Ty::Pointer(b) => Ty::Pointer(Box::new((**b).clone())),
            Ty::Array(b, n) => Ty::Array(Box::new((**b).clone()), *n),
        }
    }
}

impl Ty {
    /// The size of the type in bytes (pointers are 4 bytes wide).
    pub fn size(&self) -> (r: Option<usize>)
        ensures
            r matches Some(s) ==> s == ty_size(*self),
            r is None ==> ty_size(*self) > usize::MAX,
        decreases *self,
    {
        match self {
            Ty::I32 => Some(4),
            Ty::Unit => Some(0),
            Ty::Pointer(_) => Some(4),
            Ty::Array(e, n) => {
                match e.size() {
                    Some(s) => {
                        proof {
                            assert(ty_size(*self) == s * (*n));
                        }
                        s.checked_mul(*n)
                    },
                    None => {
                        proof {
                            assert(ty_size(**e) * (*n) >= ty_size(**e) || *n == 0) by (nonlinear_arith);
                            if *n == 0 {
                                assert(ty_size(**e) * (*n) == 0) by (nonlinear_arith)
                                    requires *n == 0;
                            }
                        }
                        if *n == 0 { Some(0) } else { None }
                    },
                }
            },
        }
    }

    /// Structural equality of types.
    pub fn same(&self, other: &Ty) -> (r: bool)
        ensures r == (*self == *other),
        decreases *self,
    {
        match (self, other) {
            (Ty::I32, Ty::I32) => true,
            (Ty::Unit, Ty::Unit) => true,
            (Ty::Pointer(a), Ty::Pointer(b)) => a.same(b),
            (Ty::Array(a, n), Ty::Array(b, m)) => *n == *m && a.same(b),
            _ => false,
        }
    }

    pub fn is_unit(&self) -> (r: bool)
        ensures r == (*self is Unit),
    {
        match self {
            Ty::Unit => true,
            _ => false,
        }
    }

    pub fn is_i32(&self) -> (r: bool)
        ensures r == (*self is I32),
    {
        match self {
            Ty::I32 => true,
            _ => false,
        }
    }
}

/// A handle to a value: a global value or a value local to a function.
#[derive(PartialEq, Eq, Structural, Clone, Copy, Debug)]
pub enum Value {
    Global(usize),
    Local(usize),
}

/// A handle to a basic block of a function.
pub type BasicBlock = usize;

/// A handle to a function of a program.
pub type Function = usize;

/// Binary operators of the IR.
#[derive(PartialEq, Eq, Structural, Clone, Copy, Debug)]
pub enum BinaryOp {
    NotEq,
    Eq,
    Gt,
    Lt,
    Ge,
    Le,
    Add,
    Sub,
    Mul,
    Div,
    Mod,
    And,
    Or,
    Xor,
    Shl,
    Shr,
    Sar,
}

/// What a value is.
#[derive(Clone, Debug)]
pub enum ValueKind {
    Integer(i32),
    ZeroInit,
    Aggregate(Vec<Value>),
    FuncArgRef(usize),
    Alloc,
    GlobalAlloc(Value),
    Load(Value),
    Store { value: Value, dest: Value },
    GetPtr { src: Value, index: Value },
    GetElemPtr { src: Value, index: Value },
    Binary { op: BinaryOp, lhs: Value, rhs: Value },
    Branch { cond: Value, true_bb: BasicBlock, false_bb: BasicBlock },
    Jump(BasicBlock),
    Call { callee: Function, args: Vec<Value> },
    Return(Option<Value>),
}

/// A value with its type and optional name.
#[derive(Clone, Debug)]
pub struct ValueData {
    pub ty: Ty,
    pub kind: ValueKind,
    pub name: Option<String>,
}

/// A basic block: its optional name.
#[derive(Clone, Debug)]
pub struct BasicBlockData {
    pub name: Option<String>,
}

/// A block placed in a function's layout, with its instructions in order.
#[derive(Clone, Debug)]
pub struct BlockNode {
    pub bb: BasicBlock,
    pub insts: Vec<usize>,
}

/// A function: its name, parameters, return type, value arena, block arena
/// and layout.
#[derive(Clone, Debug)]
pub struct FunctionData {
    pub name: String,
    pub params: Vec<Value>,
    pub param_tys: Vec<Ty>,
    pub ret_ty: Ty,
    pub values: Vec<ValueData>,
    pub bbs: Vec<BasicBlockData>,
    pub layout: Vec<BlockNode>,
}

/// A program: its global values, the global allocations in order, and its
/// functions.
#[derive(Clone, Debug)]
pub struct Program {
    pub globals: Vec<ValueData>,
    pub inst_layout: Vec<usize>,
    pub funcs: Vec<FunctionData>,
}

/// The type of a value, given the global arena and the function's arena.
pub open spec fn value_ty(globals: Seq<ValueData>, f: FunctionData, v: Value) -> Option<Ty> {
    match v {
        Value::Global(i) => if 0 <= i < globals.len() { Some(globals[i as int].ty) } else { None },
        Value::Local(i) => if 0 <= i < f.values@.len() { Some(f.values@[i as int].ty) } else { None },
    }
}

/// The type that the Koopa builders give an instruction of kind `k`, or
/// `None` where they reject it.
pub open spec fn inst_ty(globals: Seq<ValueData>, f: FunctionData, k: ValueKind) -> Option<Ty> {
    match k {
        ValueKind::Load(src) => match value_ty(globals, f, src) {
            Some(Ty::Pointer(t)) => Some(*t),
            _ => None,
        },
        ValueKind::Store { value, dest } => match (value_ty(globals, f, value), value_ty(globals, f, dest)) {
            (Some(tv), Some(td)) => if td == Ty::Pointer(Box::new(tv)) { Some(Ty::Unit) } else { None },
            _ => None,
        },
        ValueKind::GetPtr { src, index } => match (value_ty(globals, f, src), value_ty(globals, f, index)) {
            (Some(Ty::Pointer(t)), Some(Ty::I32)) => Some(Ty::Pointer(t)),
            _ => None,
        },
        ValueKind::GetElemPtr { src, index } => match (value_ty(globals, f, src), value_ty(globals, f, index)) {
            (Some(Ty::Pointer(t)), Some(Ty::I32)) => match *t {
                Ty::Array(base, _) => Some(Ty::Pointer(base)),
                _ => None,
            },
            _ => None,
        },
        ValueKind::Binary { op, lhs, rhs } => match (value_ty(globals, f, lhs), value_ty(globals, f, rhs)) {
            (Some(Ty::I32), Some(Ty::I32)) => Some(Ty::I32),
            _ => None,
        },
        ValueKind::Branch { cond, true_bb, false_bb } => match value_ty(globals, f, cond) {
            Some(Ty::I32) => if true_bb < f.bbs@.len() && false_bb < f.bbs@.len() { Some(Ty::Unit) } else { None },
            _ => None,
        },
        ValueKind::Jump(target) => if target < f.bbs@.len() { Some(Ty::Unit) } else { None },
        ValueKind::Return(v) => match v {
            None => Some(Ty::Unit),
            Some(x) => match value_ty(globals, f, x) {
                Some(t) => if t is Unit { None } else { Some(Ty::Unit) },
                None => None,
            },
        },
        _ => None,
    }
}

/// Instructions whose type the typing rules decide.
pub open spec fn is_inst_kind(k: ValueKind) -> bool {
    k is Load || k is Store || k is GetPtr || k is GetElemPtr || k is Binary || k is Branch || k is Jump || k is Return
}

/// Value `d` of `f` obeys the typing rules: an instruction has the type
/// that the rules give it.
pub open spec fn typed_ok(gl: Seq<ValueData>, f: FunctionData, d: ValueData) -> bool {
    is_inst_kind(d.kind) ==> inst_ty(gl, f, d.kind) == Some(d.ty)
}

/// Every value of `f` obeys the typing rules, with the global values `gl`.
pub open spec fn well_typed(gl: Seq<ValueData>, f: FunctionData) -> bool {
    forall|i: int| 0 <= i < f.values@.len() ==> typed_ok(gl, f, #[trigger] f.values@[i])
}

/// `g2` keeps the global values of `g1`, with their types, and may add more.
pub open spec fn globals_ext(g1: Seq<ValueData>, g2: Seq<ValueData>) -> bool {
    &&& g1.len() <= g2.len()
    &&& forall|i: int| 0 <= i < g1.len() ==> #[trigger] g2[i].ty == g1[i].ty
}

/// `g` is `f` with more values, more blocks and more instructions: nothing
/// that `f` held has changed, and every block of `f`'s layout keeps its place
/// and its instructions as a prefix.
pub open spec fn extends(f: FunctionData, g: FunctionData) -> bool {
    &&& g.name == f.name
    &&& g.params == f.params
    &&& g.param_tys == f.param_tys
    &&& g.ret_ty == f.ret_ty
    &&& f.values@.len() <= g.values@.len()
    &&& (forall|i: int| 0 <= i < f.values@.len() ==> #[trigger] g.values@[i] == f.values@[i])
    &&& f.bbs@.len() <= g.bbs@.len()
    &&& (forall|i: int| 0 <= i < f.bbs@.len() ==> #[trigger] g.bbs@[i] == f.bbs@[i])
    &&& f.layout@.len() <= g.layout@.len()
    &&& (forall|i: int| 0 <= i < f.layout@.len() ==> (#[trigger] g.layout@[i]).bb == f.layout@[i].bb
            && f.layout@[i].insts@.len() <= g.layout@[i].insts@.len()
            && f.layout@[i].insts@ == g.layout@[i].insts@.subrange(0, f.layout@[i].insts@.len() as int))
}

pub proof fn lemma_extends_refl(f: FunctionData)
    ensures extends(f, f),
{
    assert forall|i: int| 0 <= i < f.layout@.len() implies f.layout@[i].insts@ == f.layout@[i].insts@.subrange(0, f.layout@[i].insts@.len() as int) by {
        assert(f.layout@[i].insts@ =~= f.layout@[i].insts@.subrange(0, f.layout@[i].insts@.len() as int));
    }
}

pub proof fn lemma_extends_trans(f: FunctionData, g: FunctionData, h: FunctionData)
    requires extends(f, g), extends(g, h),
    ensures extends(f, h),
{
    assert forall|i: int| 0 <= i < f.layout@.len() implies (#[trigger] h.layout@[i]).bb == f.layout@[i].bb
            && f.layout@[i].insts@.len() <= h.layout@[i].insts@.len()
            && f.layout@[i].insts@ == h.layout@[i].insts@.subrange(0, f.layout@[i].insts@.len() as int) by {
        let a = f.layout@[i].insts@;
        let b = g.layout@[i].insts@;
        let c = h.layout@[i].insts@;
        assert(b == c.subrange(0, b.len() as int));
        assert(a == b.subrange(0, a.len() as int));
        assert(a =~= c.subrange(0, a.len() as int));
    }
}

impl FunctionData {
    /// A function with the given name, parameter names and types and return
    /// type; each parameter gets a function-argument value. Fails where a
    /// parameter has the unit type.
    pub fn with_param_names(name: String, params: Vec<(Option<String>, Ty)>, ret_ty: Ty) -> (r: Result<FunctionData, CompileError>)
        ensures
            r is Err <==> exists|i: int| 0 <= i < params@.len() && (#[trigger] params@[i]).1 is Unit,
            r matches Ok(f) ==> {
                &&& f.name@ == name@
                &&& f.ret_ty == ret_ty
                &&& f.params@.len() == params@.len()
                &&& f.param_tys@.len() == params@.len()
                &&& f.values@.len() == params@.len()
                &&& f.bbs@.len() == 0
                &&& f.layout@.len() == 0
                &&& forall|i: int| 0 <= i < params@.len() ==> {
                    &&& #[trigger] f.params@[i] == Value::Local(i as usize)
                    &&& f.param_tys@[i] == params@[i].1
                    &&& f.values@[i].ty == params@[i].1
                    &&& f.values@[i].kind == ValueKind::FuncArgRef(i as usize)
                    &&& f.values@[i].name == params@[i].0
                }
            },
    {
        let mut values: Vec<ValueData> = Vec::new();
        let mut ps: Vec<Value> = Vec::new();
        let mut tys: Vec<Ty> = Vec::new();
        let ghost orig = params@;
        let mut rest = params;
        let n = rest.len();
        let mut i: usize = 0;
        while i < n
            invariant
                n == orig.len(),
                orig == params@,
                i <= n,
                rest@ == orig.subrange(i as int, n as int),
                values@.len() == i,
                ps@.len() == i,
                tys@.len() == i,
                forall|j: int| 0 <= j < i ==> !((#[trigger] orig[j]).1 is Unit),
                forall|j: int| 0 <= j < i ==> {
                    &&& #[trigger] ps@[j] == Value::Local(j as usize)
                    &&& tys@[j] == orig[j].1
                    &&& values@[j].ty == orig[j].1
                    &&& values@[j].kind == ValueKind::FuncArgRef(j as usize)
                    &&& values@[j].name == orig[j].0
                },
            decreases n - i,
        {
            let (pname, pty) = rest.remove(0);
            assert(orig[i as int] == (pname, pty));
            if pty.is_unit() {
                assert(params@[i as int].1 is Unit);
                return Err(CompileError::IrTypeMismatch);
            }
            values.push(ValueData { ty: pty.clone(), kind: ValueKind::FuncArgRef(i), name: pname });
            ps.push(Value::Local(i));
            tys.push(pty);
            i = i + 1;
            assert(rest@ =~= orig.subrange(i as int, n as int));
        }
        Ok(FunctionData { name, params: ps, param_tys: tys, ret_ty, values, bbs: Vec::new(), layout: Vec::new() })
    }
}

/// The exec counterpart of `value_ty`.
pub fn get_value_ty(globals: &Vec<ValueData>, f: &FunctionData, v: Value) -> (r: Option<Ty>)
    ensures r == value_ty(globals@, *f, v),
{
    match v {
        Value::Global(i) => if i < globals.len() { Some(globals[i].ty.clone()) } else { None },
        Value::Local(i) => if i < f.values.len() { Some(f.values[i].ty.clone()) } else { None },
    }
}

/// The exec counterpart of `inst_ty`.
pub fn get_inst_ty(globals: &Vec<ValueData>, f: &FunctionData, k: &ValueKind) -> (r: Option<Ty>)
    ensures r == inst_ty(globals@, *f, *k),
{
    match k {
        ValueKind::Load(src) => match get_value_ty(globals, f, *src) {
            Some(Ty::Pointer(t)) => Some(*t),
            _ => None,
        },
        ValueKind::Store { value, dest } => match (get_value_ty(globals, f, *value), get_value_ty(globals, f, *dest)) {
            (Some(tv), Some(td)) => {
                let want = Ty::Pointer(Box::new(tv));
                if td.same(&want) { Some(Ty::Unit) } else { None }
            },
            _ => None,
        },
        ValueKind::GetPtr { src, index } => match (get_value_ty(globals, f, *src), get_value_ty(globals, f, *index)) {
            (Some(Ty::Pointer(t)), Some(Ty::I32)) => Some(Ty::Pointer(t)),
            _ => None,
        },
        ValueKind::GetElemPtr { src, index } => match (get_value_ty(globals, f, *src), get_value_ty(globals, f, *index)) {
            (Some(Ty::Pointer(t)), Some(Ty::I32)) => match *t {
                Ty::Array(base, _) => Some(Ty::Pointer(base)),
                _ => None,
            },
            _ => None,
        },
        ValueKind::Binary { op, lhs, rhs } => match (get_value_ty(globals, f, *lhs), get_value_ty(globals, f, *rhs)) {
            (Some(Ty::I32), Some(Ty::I32)) => Some(Ty::I32),
            _ => None,
        },
        ValueKind::Branch { cond, true_bb, false_bb } => match get_value_ty(globals, f, *cond) {
            Some(Ty::I32) => if *true_bb < f.bbs.len() && *false_bb < f.bbs.len() { Some(Ty::Unit) } else { None },
            _ => None,
        },
        ValueKind::Jump(target) => if *target < f.bbs.len() { Some(Ty::Unit) } else { None },
        ValueKind::Return(v) => match v {
            None => Some(Ty::Unit),
            Some(x) => match get_value_ty(globals, f, *x) {
                Some(t) => if t.is_unit() { None } else { Some(Ty::Unit) },
                None => None,
            },
        },
        _ => None,
    }
}

/// Index of the layout node of block `bb`.
pub fn find_layout(layout: &Vec<BlockNode>, bb: BasicBlock) -> (r: Option<usize>)
    ensures
        r matches Some(k) ==> k < layout@.len() && layout@[k as int].bb == bb
            && forall|j: int| 0 <= j < k ==> (#[trigger] layout@[j]).bb != bb,
        r is None ==> forall|j: int| 0 <= j < layout@.len() ==> (#[trigger] layout@[j]).bb != bb,
{
    let mut k: usize = 0;
    while k < layout.len()
        invariant
            k <= layout@.len(),
            forall|j: int| 0 <= j < k ==> (#[trigger] layout@[j]).bb != bb,
        decreases layout@.len() - k,
    {
        if layout[k].bb == bb {
            return Some(k);
        }
        k = k + 1;
    }
    None
}

impl FunctionData {
    /// A new basic block with the given name; it is not placed in the layout.
    pub fn new_bb(&mut self, name: Option<String>) -> (r: Result<BasicBlock, CompileError>)
        ensures
            r is Err <==> old(self).bbs@.len() == usize::MAX,
            r is Err ==> final(self).bbs == old(self).bbs,
            r matches Ok(bb) ==> bb == old(self).bbs@.len()
                && final(self).bbs@ == old(self).bbs@.push(BasicBlockData { name }),
            extends(*old(self), *final(self)),
            final(self).values == old(self).values,
            final(self).layout == old(self).layout,
            final(self).name == old(self).name,
            final(self).params == old(self).params,
            final(self).param_tys == old(self).param_tys,
            final(self).ret_ty == old(self).ret_ty,
    {
        let bb = self.bbs.len();
        if bb == usize::MAX {
            proof { lemma_extends_refl(*self); }
            return Err(CompileError::Overflow);
        }
        self.bbs.push(BasicBlockData { name });
        proof { lemma_extends_refl(*self); }
        Ok(bb)
    }

    /// Places block `bb` at the end of the layout; fails if it is placed
    /// already.
    pub fn push_bb(&mut self, bb: BasicBlock) -> (r: Result<(), CompileError>)
        ensures
            r is Err <==> exists|j: int| 0 <= j < old(self).layout@.len() && (#[trigger] old(self).layout@[j]).bb == bb,
            r is Err ==> *final(self) == *old(self),
            r is Ok ==> final(self).layout@.len() == old(self).layout@.len() + 1
                && final(self).layout@.last().bb == bb
                && final(self).layout@.last().insts@.len() == 0
                && forall|j: int| 0 <= j < old(self).layout@.len() ==> #[trigger] final(self).layout@[j] == old(self).layout@[j],
            extends(*old(self), *final(self)),
            r is Ok ==> (layout_unique(*old(self)) ==> layout_unique(*final(self))),
            r is Ok ==> (all_terminated(*old(self)) ==> others_terminated(*final(self), bb)),
            r is Err ==> (others_terminated(*old(self), bb) ==> others_terminated(*final(self), bb)),
            final(self).values == old(self).values,
            final(self).bbs == old(self).bbs,
            final(self).name == old(self).name,
            final(self).params == old(self).params,
            final(self).param_tys == old(self).param_tys,
            final(self).ret_ty == old(self).ret_ty,
    {
        match find_layout(&self.layout, bb) {
            Some(_) => {
                proof { lemma_extends_refl(*self); }
                Err(CompileError::DuplicateBlock)
            },
            None => {
                let node = BlockNode { bb, insts: Vec::new() };
                assert(node.insts@.len() == 0);
                self.layout.push(node);
                proof {
                    let n = old(self).layout@.len() as int;
                    assert(self.layout@[n].bb == bb);
                    if layout_unique(*old(self)) {
                        assert forall|i: int, j: int| 0 <= i < self.layout@.len() && 0 <= j < self.layout@.len() && i != j implies
                            (#[trigger] self.layout@[i]).bb != (#[trigger] self.layout@[j]).bb by {
                            if i < n && j < n {
                                assert(self.layout@[i] == old(self).layout@[i]);
                                assert(self.layout@[j] == old(self).layout@[j]);
                            } else if i < n {
                                assert(self.layout@[i] == old(self).layout@[i]);
                            } else {
                                assert(self.layout@[j] == old(self).layout@[j]);
                            }
                        }
                    }
                    if all_terminated(*old(self)) {
                        assert forall|k: int| 0 <= k < self.layout@.len() && (#[trigger] self.layout@[k]).bb != bb implies
                            node_terminated(*self, self.layout@[k]) by {
                            assert(k < n);
                            assert(self.layout@[k] == old(self).layout@[k]);
                            assert(node_terminated(*old(self), old(self).layout@[k]));
                        }
                    }
                    assert forall|i: int| 0 <= i < old(self).layout@.len() implies
                        old(self).layout@[i].insts@ == self.layout@[i].insts@.subrange(0, old(self).layout@[i].insts@.len() as int) by {
                        assert(self.layout@[i] == old(self).layout@[i]);
                        assert(old(self).layout@[i].insts@ =~= self.layout@[i].insts@.subrange(0, old(self).layout@[i].insts@.len() as int));
                    }
                }
                Ok(())
            },
        }
    }

    /// A new integer constant; it is not placed in any block.
    pub fn integer(&mut self, n: i32) -> (r: Result<Value, CompileError>)
        ensures
            r is Err <==> old(self).values@.len() == usize::MAX,
            r is Err ==> final(self).values == old(self).values,
            r matches Ok(v) ==> v is Local && v->Local_0 == old(self).values@.len()
                && final(self).values@ == old(self).values@.push(ValueData { ty: Ty::I32, kind: ValueKind::Integer(n), name: None }),
            extends(*old(self), *final(self)),
            final(self).bbs == old(self).bbs,
            final(self).layout == old(self).layout,
            final(self).name == old(self).name,
            final(self).params == old(self).params,
            final(self).param_tys == old(self).param_tys,
            final(self).ret_ty == old(self).ret_ty,
    {
        let i = self.values.len();
        if i == usize::MAX {
            proof { lemma_extends_refl(*self); }
            return Err(CompileError::Overflow);
        }
        self.values.push(ValueData { ty: Ty::I32, kind: ValueKind::Integer(n), name: None });
        proof { lemma_extends_refl(*old(self)); }
        Ok(Value::Local(i))
    }

    /// Appends value `data` to the arena and its index to the instruction list
    /// of the layout node `k`.
    fn push_inst(&mut self, k: usize, data: ValueData) -> (v: Value)
        requires
            k < old(self).layout@.len(),
            old(self).values@.len() < usize::MAX,
        ensures
            v is Local && v->Local_0 == old(self).values@.len(),
            final(self).values@ == old(self).values@.push(data),
            final(self).layout@.len() == old(self).layout@.len(),
            final(self).layout@[k as int].bb == old(self).layout@[k as int].bb,
            final(self).layout@[k as int].insts@ == old(self).layout@[k as int].insts@.push(v->Local_0),
            forall|j: int| 0 <= j < old(self).layout@.len() && j != k ==> #[trigger] final(self).layout@[j] == old(self).layout@[j],
            final(self).bbs == old(self).bbs,
            final(self).name == old(self).name,
            final(self).params == old(self).params,
            final(self).param_tys == old(self).param_tys,
            final(self).ret_ty == old(self).ret_ty,
    {
        let i = self.values.len();
        self.values.push(data);
        let node = &mut self.layout[k];
        node.insts.push(i);
        Value::Local(i)
    }

    /// Appends an instruction of kind `kind` to block `bb`. Fails where the
    /// block is not in the layout or the IR's typing rules reject the
    /// instruction.
    pub fn emit(&mut self, globals: &Vec<ValueData>, bb: BasicBlock, kind: ValueKind) -> (r: Result<Value, CompileError>)
        ensures
            r is Err ==> *final(self) == *old(self),
            r is Err <==> (inst_ty(globals@, *old(self), kind) is None || old(self).values@.len() == usize::MAX
                || forall|j: int| 0 <= j < old(self).layout@.len() ==> (#[trigger] old(self).layout@[j]).bb != bb),
            r matches Ok(v) ==> emitted(*old(self), *final(self), bb, v, ValueData {
                ty: inst_ty(globals@, *old(self), kind)->Some_0, kind, name: None }),
    {
        let ty = match get_inst_ty(globals, self, &kind) {
            Some(t) => t,
            None => return Err(CompileError::IrTypeMismatch),
        };
        if self.values.len() == usize::MAX {
            return Err(CompileError::Overflow);
        }
        match find_layout(&self.layout, bb) {
            None => Err(CompileError::InvalidHandle),
            Some(k) => {
                let v = self.push_inst(k, ValueData { ty, kind, name: None });
                proof { lemma_emitted(*old(self), *self, k as int, bb, v); }
                Ok(v)
            },
        }
    }

    /// Appends a local allocation of type `ty`, with the given name, to block
    /// `bb`. Fails where the type is unit or the block is not in the layout.
    pub fn emit_alloc(&mut self, bb: BasicBlock, ty: Ty, name: Option<String>) -> (r: Result<Value, CompileError>)
        ensures
            r is Err ==> *final(self) == *old(self),
            r is Err <==> (ty is Unit || old(self).values@.len() == usize::MAX
                || forall|j: int| 0 <= j < old(self).layout@.len() ==> (#[trigger] old(self).layout@[j]).bb != bb),
            r matches Ok(v) ==> emitted(*old(self), *final(self), bb, v, ValueData {
                ty: Ty::Pointer(Box::new(ty)), kind: ValueKind::Alloc, name }),
    {
        if ty.is_unit() {
            return Err(CompileError::IrTypeMismatch);
        }
        if self.values.len() == usize::MAX {
            return Err(CompileError::Overflow);
        }
        match find_layout(&self.layout, bb) {
            None => Err(CompileError::InvalidHandle),
            Some(k) => {
                let v = self.push_inst(k, ValueData { ty: Ty::Pointer(Box::new(ty)), kind: ValueKind::Alloc, name });
                proof { lemma_emitted(*old(self), *self, k as int, bb, v); }
                Ok(v)
            },
        }
    }

    /// Names a local value; other values are unchanged.
    pub fn set_value_name(&mut self, v: Value, name: Option<String>)
        ensures
            v matches Value::Local(i) ==> (i < old(self).values@.len() ==>
                final(self).values@ == old(self).values@.update(i as int, ValueData { name, ..old(self).values@[i as int] })),
            v matches Value::Local(i) ==> (i >= old(self).values@.len() ==> final(self).values == old(self).values),
            v is Global ==> final(self).values == old(self).values,
            final(self).bbs == old(self).bbs,
            final(self).layout == old(self).layout,
            final(self).name == old(self).name,
            final(self).params == old(self).params,
            final(self).param_tys == old(self).param_tys,
            final(self).ret_ty == old(self).ret_ty,
    {
        if let Value::Local(i) = v {
            if i < self.values.len() {
                let d = &mut self.values[i];
                d.name = name;
            }
        }
    }
}

/// `g` is `f` with one more value `data`, handle `v`, appended to the
/// instructions of block `bb`, which is in the layout.
pub open spec fn emitted(f: FunctionData, g: FunctionData, bb: BasicBlock, v: Value, data: ValueData) -> bool {
    &&& v is Local && v->Local_0 == f.values@.len()
    &&& g.values@ == f.values@.push(data)
    &&& g.bbs == f.bbs
    &&& g.layout@.len() == f.layout@.len()
    &&& exists|k: int| #![trigger g.layout@[k]] 0 <= k < f.layout@.len() && f.layout@[k].bb == bb && {
        &&& g.layout@[k].bb == bb
        &&& g.layout@[k].insts@ == f.layout@[k].insts@.push(v->Local_0)
        &&& forall|j: int| 0 <= j < f.layout@.len() && j != k ==> #[trigger] g.layout@[j] == f.layout@[j]
    }
    &&& extends(f, g)
}

/// Block `bb` is placed in the layout of `f`.
pub open spec fn in_layout(f: FunctionData, bb: BasicBlock) -> bool {
    exists|j: int| 0 <= j < f.layout@.len() && (#[trigger] f.layout@[j]).bb == bb
}

/// Block `b` of `f` exists and is named `name`.
pub open spec fn bb_named(f: FunctionData, b: BasicBlock, name: Seq<char>) -> bool {
    &&& b < f.bbs@.len()
    &&& f.bbs@[b as int].name matches Some(s)
    &&& s@ == name
}

/// A placed block stays placed as the function grows.
pub proof fn lemma_in_layout_extends(f: FunctionData, g: FunctionData, bb: BasicBlock)
    requires extends(f, g), in_layout(f, bb),
    ensures in_layout(g, bb),
{
    let j = choose|j: int| 0 <= j < f.layout@.len() && (#[trigger] f.layout@[j]).bb == bb;
    assert(g.layout@[j].bb == bb);
}

/// A value keeps its type as the function grows.
pub proof fn lemma_value_ty_extends(gl: Seq<ValueData>, f: FunctionData, g: FunctionData, v: Value)
    requires extends(f, g), value_ty(gl, f, v) is Some,
    ensures value_ty(gl, g, v) == value_ty(gl, f, v),
{
}

/// Appending an instruction of kind `kind` to block `bb` of `f` fails: the
/// IR's typing rules reject it, the value arena is full, or the block is not
/// in the layout.
pub open spec fn emit_fails(gl: Seq<ValueData>, f: FunctionData, bb: BasicBlock, kind: ValueKind) -> bool {
    ||| inst_ty(gl, f, kind) is None
    ||| f.values@.len() == usize::MAX
    ||| forall|j: int| 0 <= j < f.layout@.len() ==> (#[trigger] f.layout@[j]).bb != bb
}

/// `g` is `f` with one unnamed instruction of kind `kind` appended to block `bb`.
pub open spec fn appended(gl: Seq<ValueData>, f: FunctionData, g: FunctionData, bb: BasicBlock, kind: ValueKind) -> bool {
    emitted(f, g, bb, Value::Local(f.values@.len() as usize), ValueData { ty: inst_ty(gl, f, kind)->Some_0, kind, name: None })
}

proof fn lemma_emitted(f: FunctionData, g: FunctionData, k: int, bb: BasicBlock, v: Value)
    requires
        0 <= k < f.layout@.len(),
        f.layout@[k].bb == bb,
        v is Local && v->Local_0 == f.values@.len(),
        g.values@.len() == f.values@.len() + 1,
        forall|i: int| 0 <= i < f.values@.len() ==> #[trigger] g.values@[i] == f.values@[i],
        g.bbs == f.bbs,
        g.name == f.name,
        g.params == f.params,
        g.param_tys == f.param_tys,
        g.ret_ty == f.ret_ty,
        g.layout@.len() == f.layout@.len(),
        g.layout@[k].bb == bb,
        g.layout@[k].insts@ == f.layout@[k].insts@.push(v->Local_0),
        forall|j: int| 0 <= j < f.layout@.len() && j != k ==> #[trigger] g.layout@[j] == f.layout@[j],
    ensures
        extends(f, g),
        exists|k: int| #![trigger g.layout@[k]] 0 <= k < f.layout@.len() && f.layout@[k].bb == bb && {
            &&& g.layout@[k].bb == bb
            &&& g.layout@[k].insts@ == f.layout@[k].insts@.push(v->Local_0)
            &&& forall|j: int| 0 <= j < f.layout@.len() && j != k ==> #[trigger] g.layout@[j] == f.layout@[j]
        },
{
    assert forall|i: int| 0 <= i < f.layout@.len() implies (#[trigger] g.layout@[i]).bb == f.layout@[i].bb
            && f.layout@[i].insts@.len() <= g.layout@[i].insts@.len()
            && f.layout@[i].insts@ == g.layout@[i].insts@.subrange(0, f.layout@[i].insts@.len() as int) by {
        if i == k {
            assert(f.layout@[i].insts@ =~= g.layout@[i].insts@.subrange(0, f.layout@[i].insts@.len() as int));
        } else {
            assert(g.layout@[i] == f.layout@[i]);
            assert(f.layout@[i].insts@ =~= g.layout@[i].insts@.subrange(0, f.layout@[i].insts@.len() as int));
        }
    }
    assert(g.layout@[k].bb == bb);
}

/// The value of a binary IR operation on two integers: comparisons give 0 or
/// 1, addition, subtraction and multiplication wrap, division and remainder
/// by zero (and their one overflowing case) have no value, nor do shifts.
pub open spec fn ir_binop(op: BinaryOp, l: i32, r: i32) -> Option<i32> {
    match op {
        BinaryOp::NotEq => Some(if l != r { 1 } else { 0 }),
        BinaryOp::Eq => Some(if l == r { 1 } else { 0 }),
        BinaryOp::Gt => Some(if l > r { 1 } else { 0 }),
        BinaryOp::Lt => Some(if l < r { 1 } else { 0 }),
        BinaryOp::Ge => Some(if l >= r { 1 } else { 0 }),
        BinaryOp::Le => Some(if l <= r { 1 } else { 0 }),
        BinaryOp::Add => Some(l.wrapping_add(r)),
        BinaryOp::Sub => Some(l.wrapping_sub(r)),
        BinaryOp::Mul => Some(l.wrapping_mul(r)),
        BinaryOp::Div => l.checked_div(r),
        BinaryOp::Mod => l.checked_rem(r),
        BinaryOp::And => Some(l & r),
        BinaryOp::Or => Some(l | r),
        BinaryOp::Xor => Some(l ^ r),
        _ => None,
    }
}

/// The integer that local value `i` denotes when it is built from integer
/// constants by binary operations on earlier values; `None` otherwise.
pub open spec fn denote_at(vals: Seq<ValueData>, i: nat) -> Option<i32>
    decreases i,
{
    if i >= vals.len() {
        None
    } else {
        match vals[i as int].kind {
            ValueKind::Integer(n) => Some(n),
            ValueKind::Binary { op, lhs, rhs } => match (lhs, rhs) {
                (Value::Local(a), Value::Local(b)) => if a < i && b < i {
                    match (denote_at(vals, a as nat), denote_at(vals, b as nat)) {
                        (Some(x), Some(y)) => ir_binop(op, x, y),
                        _ => None,
                    }
                } else {
                    None
                },
                _ => None,
            },
            _ => None,
        }
    }
}

/// The integer that a value denotes, as `denote_at`.
pub open spec fn denote(vals: Seq<ValueData>, v: Value) -> Option<i32> {
    match v {
        Value::Local(i) => denote_at(vals, i as nat),
        Value::Global(_) => None,
    }
}

/// Appending values keeps what earlier values denote.
pub proof fn lemma_denote_prefix(vals: Seq<ValueData>, more: Seq<ValueData>, i: nat)
    requires
        i < vals.len(),
        vals.len() <= more.len(),
        forall|j: int| 0 <= j < vals.len() ==> #[trigger] more[j] == vals[j],
    ensures denote_at(more, i) == denote_at(vals, i),
    decreases i,
{
    match vals[i as int].kind {
        ValueKind::Binary { op, lhs, rhs } => match (lhs, rhs) {
            (Value::Local(a), Value::Local(b)) => if a < i && b < i {
                lemma_denote_prefix(vals, more, a as nat);
                lemma_denote_prefix(vals, more, b as nat);
            },
            _ => {},
        },
        _ => {},
    }
}

/// Whether an instruction kind ends a basic block.
pub open spec fn is_term_kind(k: ValueKind) -> bool {
    k is Return || k is Jump || k is Branch
}

/// A layout node whose last instruction ends the block.
pub open spec fn node_terminated(f: FunctionData, n: BlockNode) -> bool {
    &&& n.insts@.len() > 0
    &&& n.insts@.last() < f.values@.len()
    &&& is_term_kind(f.values@[n.insts@.last() as int].kind)
}

/// Every block of the layout other than `cur` ends with a terminator.
pub open spec fn others_terminated(f: FunctionData, cur: BasicBlock) -> bool {
    forall|k: int| 0 <= k < f.layout@.len() && (#[trigger] f.layout@[k]).bb != cur ==> node_terminated(f, f.layout@[k])
}

/// Every block of the layout ends with a terminator.
pub open spec fn all_terminated(f: FunctionData) -> bool {
    forall|k: int| 0 <= k < f.layout@.len() ==> node_terminated(f, #[trigger] f.layout@[k])
}

/// No block is placed twice in the layout.
pub open spec fn layout_unique(f: FunctionData) -> bool {
    forall|i: int, j: int| 0 <= i < f.layout@.len() && 0 <= j < f.layout@.len() && i != j ==>
        (#[trigger] f.layout@[i]).bb != (#[trigger] f.layout@[j]).bb
}

/// The block `cur` of the layout ends with a terminator.
pub open spec fn block_terminated(f: FunctionData, cur: BasicBlock) -> bool {
    exists|k: int| 0 <= k < f.layout@.len() && (#[trigger] f.layout@[k]).bb == cur && node_terminated(f, f.layout@[k])
}

/// Adding values, or instructions to block `cur`, keeps the other blocks
/// terminated and the layout free of duplicates.
pub proof fn lemma_step_keeps(f: FunctionData, g: FunctionData, cur: BasicBlock)
    requires
        f.values@.len() <= g.values@.len(),
        forall|i: int| 0 <= i < f.values@.len() ==> #[trigger] g.values@[i] == f.values@[i],
        g.layout@.len() == f.layout@.len(),
        forall|j: int| 0 <= j < f.layout@.len() && f.layout@[j].bb != cur ==> #[trigger] g.layout@[j] == f.layout@[j],
        forall|j: int| 0 <= j < f.layout@.len() ==> (#[trigger] g.layout@[j]).bb == f.layout@[j].bb,
    ensures
        others_terminated(f, cur) ==> others_terminated(g, cur),
        layout_unique(f) ==> layout_unique(g),
{
    assert forall|k: int| 0 <= k < g.layout@.len() && (#[trigger] g.layout@[k]).bb != cur && others_terminated(f, cur)
        implies node_terminated(g, g.layout@[k]) by {
        assert(f.layout@[k].bb != cur);
        assert(node_terminated(f, f.layout@[k]));
    }
    if layout_unique(f) {
        assert forall|i: int, j: int| 0 <= i < g.layout@.len() && 0 <= j < g.layout@.len() && i != j implies
            (#[trigger] g.layout@[i]).bb != (#[trigger] g.layout@[j]).bb by {
            assert(f.layout@[i].bb != f.layout@[j].bb);
        }
    }
}

/// After an instruction `data` is emitted into block `bb`, the other blocks
/// stay terminated; and where `data` is a terminator, `bb` is terminated too.
pub proof fn lemma_emitted_keeps(f: FunctionData, g: FunctionData, bb: BasicBlock, v: Value, data: ValueData)
    requires emitted(f, g, bb, v, data),
    ensures
        others_terminated(f, bb) ==> others_terminated(g, bb),
        layout_unique(f) ==> layout_unique(g),
        is_term_kind(data.kind) && others_terminated(f, bb) && layout_unique(f) ==> all_terminated(g),
        is_term_kind(data.kind) ==> block_terminated(g, bb),
{
    let k = choose|k: int| #![trigger g.layout@[k]] 0 <= k < f.layout@.len() && f.layout@[k].bb == bb && {
        &&& g.layout@[k].bb == bb
        &&& g.layout@[k].insts@ == f.layout@[k].insts@.push(v->Local_0)
        &&& forall|j: int| 0 <= j < f.layout@.len() && j != k ==> #[trigger] g.layout@[j] == f.layout@[j]
    };
    assert forall|j: int| 0 <= j < f.layout@.len() && f.layout@[j].bb != bb implies #[trigger] g.layout@[j] == f.layout@[j] by {
        assert(j != k);
    }
    assert forall|j: int| 0 <= j < f.layout@.len() implies (#[trigger] g.layout@[j]).bb == f.layout@[j].bb by {
        if j != k { assert(g.layout@[j] == f.layout@[j]); }
    }
    lemma_step_keeps(f, g, bb);
    if is_term_kind(data.kind) {
        assert(g.layout@[k].insts@.last() == v->Local_0);
        assert(g.values@[v->Local_0 as int] == data);
        assert(node_terminated(g, g.layout@[k]));
        if others_terminated(f, bb) && layout_unique(f) {
            assert forall|j: int| 0 <= j < g.layout@.len() implies node_terminated(g, #[trigger] g.layout@[j]) by {
                if j != k {
                    assert(f.layout@[j].bb != f.layout@[k].bb);
                    assert(g.layout@[j].bb != bb);
                }
            }
        }
    }
}

/// Whether a value kind is a constant: an integer, a zero initializer or an
/// aggregate.
pub open spec fn is_const_kind(k: ValueKind) -> bool {
    k is Integer || k is ZeroInit || k is Aggregate
}

impl Program {
    /// An empty program.
    pub fn new() -> (p: Program)
        ensures p.globals@.len() == 0, p.inst_layout@.len() == 0, p.funcs@.len() == 0,
    {
        Program { globals: Vec::new(), inst_layout: Vec::new(), funcs: Vec::new() }
    }

    /// Adds a function; returns its handle.
    pub fn new_func(&mut self, f: FunctionData) -> (r: Function)
        ensures
            r == old(self).funcs@.len(),
            final(self).funcs@ == old(self).funcs@.push(f),
            final(self).globals == old(self).globals,
            final(self).inst_layout == old(self).inst_layout,
    {
        let r = self.funcs.len();
        self.funcs.push(f);
        r
    }

    /// Adds a global value; a global allocation is also placed in the
    /// program's layout.
    fn push_global(&mut self, data: ValueData) -> (r: Result<Value, CompileError>)
        ensures
            r is Err <==> old(self).globals@.len() == usize::MAX,
            r is Err ==> *final(self) == *old(self),
            r matches Ok(v) ==> v is Global && v->Global_0 == old(self).globals@.len()
                && final(self).globals@ == old(self).globals@.push(data)
                && final(self).funcs == old(self).funcs
                && (data.kind is GlobalAlloc ==> final(self).inst_layout@ == old(self).inst_layout@.push(v->Global_0))
                && (!(data.kind is GlobalAlloc) ==> final(self).inst_layout == old(self).inst_layout),
    {
        let i = self.globals.len();
        if i == usize::MAX {
            return Err(CompileError::Overflow);
        }
        let is_alloc = match data.kind { ValueKind::GlobalAlloc(_) => true, _ => false };
        self.globals.push(data);
        if is_alloc {
            self.inst_layout.push(i);
        }
        Ok(Value::Global(i))
    }

    /// A global integer constant.
    pub fn global_integer(&mut self, n: i32) -> (r: Result<Value, CompileError>)
        ensures
            r is Err <==> old(self).globals@.len() == usize::MAX,
            r is Err ==> *final(self) == *old(self),
            r matches Ok(v) ==> v is Global && v->Global_0 == old(self).globals@.len()
                && final(self).globals@ == old(self).globals@.push(ValueData { ty: Ty::I32, kind: ValueKind::Integer(n), name: None })
                && final(self).funcs == old(self).funcs
                && final(self).inst_layout == old(self).inst_layout,
    {
        self.push_global(ValueData { ty: Ty::I32, kind: ValueKind::Integer(n), name: None })
    }

    /// A global zero initializer of type `ty`; fails for the unit type.
    pub fn global_zero_init(&mut self, ty: Ty) -> (r: Result<Value, CompileError>)
        ensures
            r is Err <==> (ty is Unit || old(self).globals@.len() == usize::MAX),
            r is Err ==> *final(self) == *old(self),
            r matches Ok(v) ==> v is Global && v->Global_0 == old(self).globals@.len()
                && final(self).globals@ == old(self).globals@.push(ValueData { ty, kind: ValueKind::ZeroInit, name: None })
                && final(self).funcs == old(self).funcs
                && final(self).inst_layout == old(self).inst_layout,
    {
        if ty.is_unit() {
            return Err(CompileError::IrTypeMismatch);
        }
        self.push_global(ValueData { ty, kind: ValueKind::ZeroInit, name: None })
    }

    /// A global aggregate of the given elements, of array type; fails where
    /// there is no element, an element is not a global constant, the
    /// elements' types differ or are unit.
    pub fn global_aggregate(&mut self, elems: Vec<Value>) -> (r: Result<Value, CompileError>)
        ensures
            r is Err ==> *final(self) == *old(self),
            r is Ok <==> {
                &&& elems@.len() > 0
                &&& old(self).globals@.len() < usize::MAX
                &&& forall|i: int| 0 <= i < elems@.len() ==> {
                    &&& (#[trigger] elems@[i]) is Global
                    &&& elems@[i]->Global_0 < old(self).globals@.len()
                    &&& is_const_kind(old(self).globals@[elems@[i]->Global_0 as int].kind)
                    &&& old(self).globals@[elems@[i]->Global_0 as int].ty == old(self).globals@[elems@[0]->Global_0 as int].ty
                }
                &&& !(old(self).globals@[elems@[0]->Global_0 as int].ty is Unit)
            },
            r matches Ok(v) ==> v is Global && v->Global_0 == old(self).globals@.len()
                && final(self).globals@.len() == old(self).globals@.len() + 1
                && (forall|i: int| 0 <= i < old(self).globals@.len() ==> #[trigger] final(self).globals@[i] == old(self).globals@[i])
                && final(self).globals@.last().kind == ValueKind::Aggregate(elems)
                && final(self).globals@.last().ty == Ty::Array(Box::new(old(self).globals@[elems@[0]->Global_0 as int].ty), elems@.len() as usize)
                && final(self).funcs == old(self).funcs
                && final(self).inst_layout == old(self).inst_layout,
    {
        let n = elems.len();
        if n == 0 {
            return Err(CompileError::IrTypeMismatch);
        }
        let first = match elems[0] {
            Value::Global(g) => g,
            Value::Local(_) => return Err(CompileError::IrTypeMismatch),
        };
        if first >= self.globals.len() {
            return Err(CompileError::InvalidHandle);
        }
        let base = self.globals[first].ty.clone();
        let mut i: usize = 0;
        while i < n
            invariant
                n == elems@.len(),
                i <= n,
                first < self.globals@.len(),
                elems@[0] == Value::Global(first),
                base == self.globals@[first as int].ty,
                forall|j: int| 0 <= j < i ==> {
                    &&& (#[trigger] elems@[j]) is Global
                    &&& elems@[j]->Global_0 < self.globals@.len()
                    &&& is_const_kind(self.globals@[elems@[j]->Global_0 as int].kind)
                    &&& self.globals@[elems@[j]->Global_0 as int].ty == base
                },
            decreases n - i,
        {
            let g = match elems[i] {
                Value::Global(g) => g,
                Value::Local(_) => return Err(CompileError::IrTypeMismatch),
            };
            if g >= self.globals.len() {
                return Err(CompileError::InvalidHandle);
            }
            let is_const = match self.globals[g].kind {
                ValueKind::Integer(_) | ValueKind::ZeroInit | ValueKind::Aggregate(_) => true,
                _ => false,
            };
            if !is_const || !self.globals[g].ty.same(&base) {
                return Err(CompileError::IrTypeMismatch);
            }
            i = i + 1;
        }
        if base.is_unit() {
            return Err(CompileError::IrTypeMismatch);
        }
        let ty = Ty::Array(Box::new(base), n);
        self.push_global(ValueData { ty, kind: ValueKind::Aggregate(elems), name: None })
    }

    /// A global allocation initialized by `init`, placed in the program's
    /// layout; fails where `init` is not a global value or has the unit type.
    pub fn global_alloc(&mut self, init: Value) -> (r: Result<Value, CompileError>)
        ensures
            r is Err ==> *final(self) == *old(self),
            r is Ok <==> (init is Global && init->Global_0 < old(self).globals@.len()
                && !(old(self).globals@[init->Global_0 as int].ty is Unit)
                && old(self).globals@.len() < usize::MAX),
            r matches Ok(v) ==> v is Global && v->Global_0 == old(self).globals@.len()
                && final(self).globals@ == old(self).globals@.push(ValueData {
                    ty: Ty::Pointer(Box::new(old(self).globals@[init->Global_0 as int].ty)),
                    kind: ValueKind::GlobalAlloc(init), name: None })
                && final(self).inst_layout@ == old(self).inst_layout@.push(v->Global_0)
                && final(self).funcs == old(self).funcs,
    {
        let g = match init {
            Value::Global(g) => g,
            Value::Local(_) => return Err(CompileError::IrTypeMismatch),
        };
        if g >= self.globals.len() {
            return Err(CompileError::InvalidHandle);
        }
        let t = self.globals[g].ty.clone();
        if t.is_unit() {
            return Err(CompileError::IrTypeMismatch);
        }
        self.push_global(ValueData { ty: Ty::Pointer(Box::new(t)), kind: ValueKind::GlobalAlloc(init), name: None })
    }

    /// Names a global value; nothing else changes.
    pub fn set_value_name(&mut self, v: Value, name: Option<String>)
        ensures
            final(self).funcs == old(self).funcs,
            final(self).inst_layout == old(self).inst_layout,
            final(self).globals@.len() == old(self).globals@.len(),
            forall|i: int| 0 <= i < old(self).globals@.len() ==> (#[trigger] final(self).globals@[i]).kind == old(self).globals@[i].kind
                && final(self).globals@[i].ty == old(self).globals@[i].ty,
            v matches Value::Global(i) ==> (i < old(self).globals@.len() ==> final(self).globals@[i as int].name == name),
    {
        if let Value::Global(i) = v {
            if i < self.globals.len() {
                let d = &mut self.globals[i];
                d.name = name;
            }
        }
    }
}


/// `f` holds no instruction whose type the rules decide (a declaration, or a
/// function not yet translated).
pub open spec fn no_insts(f: FunctionData) -> bool {
    forall|i: int| 0 <= i < f.values@.len() ==> !is_inst_kind(#[trigger] f.values@[i].kind)
}

pub proof fn lemma_no_insts_wt(gl: Seq<ValueData>, f: FunctionData)
    requires no_insts(f),
    ensures well_typed(gl, f),
{
    assert forall|i: int| 0 <= i < f.values@.len() implies typed_ok(gl, f, #[trigger] f.values@[i]) by {
        assert(!is_inst_kind(f.values@[i].kind));
    }
}

/// The type that the rules give an instruction does not change as the
/// function and the globals grow.
pub proof fn lemma_inst_ty_mono(g1: Seq<ValueData>, g2: Seq<ValueData>, f: FunctionData, g: FunctionData, k: ValueKind)
    requires globals_ext(g1, g2), extends(f, g), inst_ty(g1, f, k) is Some,
    ensures inst_ty(g2, g, k) == inst_ty(g1, f, k),
{
    match k {
        ValueKind::Load(src) => { assert(value_ty(g2, g, src) == value_ty(g1, f, src)); },
        ValueKind::Store { value, dest } => {
            assert(value_ty(g2, g, value) == value_ty(g1, f, value));
            assert(value_ty(g2, g, dest) == value_ty(g1, f, dest));
        },
        ValueKind::GetPtr { src, index } => {
            assert(value_ty(g2, g, src) == value_ty(g1, f, src));
            assert(value_ty(g2, g, index) == value_ty(g1, f, index));
        },
        ValueKind::GetElemPtr { src, index } => {
            assert(value_ty(g2, g, src) == value_ty(g1, f, src));
            assert(value_ty(g2, g, index) == value_ty(g1, f, index));
        },
        ValueKind::Binary { op, lhs, rhs } => {
            assert(value_ty(g2, g, lhs) == value_ty(g1, f, lhs));
            assert(value_ty(g2, g, rhs) == value_ty(g1, f, rhs));
        },
        ValueKind::Branch { cond, true_bb, false_bb } => { assert(value_ty(g2, g, cond) == value_ty(g1, f, cond)); },
        ValueKind::Return(Some(x)) => { assert(value_ty(g2, g, x) == value_ty(g1, f, x)); },
        _ => {},
    }
}

/// A well-typed function stays well typed as it and the globals grow, where
/// each value that it gains obeys the rules.
pub proof fn lemma_wt_mono(g1: Seq<ValueData>, g2: Seq<ValueData>, f: FunctionData, g: FunctionData)
    requires
        globals_ext(g1, g2), extends(f, g), well_typed(g1, f),
        forall|i: int| f.values@.len() <= i < g.values@.len() ==> typed_ok(g2, g, #[trigger] g.values@[i]),
    ensures well_typed(g2, g),
{
    assert forall|i: int| 0 <= i < g.values@.len() implies typed_ok(g2, g, #[trigger] g.values@[i]) by {
        if i < f.values@.len() {
            assert(g.values@[i] == f.values@[i]);
            assert(typed_ok(g1, f, f.values@[i]));
            if is_inst_kind(f.values@[i].kind) {
                lemma_inst_ty_mono(g1, g2, f, g, f.values@[i].kind);
            }
        }
    }
}

/// Emitting an instruction that the rules accept keeps a function well
/// typed.
pub proof fn lemma_wt_emit(gl: Seq<ValueData>, f: FunctionData, g: FunctionData, bb: BasicBlock, v: Value, data: ValueData)
    requires emitted(f, g, bb, v, data),
    ensures well_typed(gl, f) && typed_ok(gl, f, data) ==> well_typed(gl, g),
{
    if well_typed(gl, f) && typed_ok(gl, f, data) {
        assert(gl =~= gl);
        assert forall|i: int| f.values@.len() <= i < g.values@.len() implies typed_ok(gl, g, #[trigger] g.values@[i]) by {
            assert(g.values@[i] == data);
            if is_inst_kind(data.kind) {
                lemma_inst_ty_mono(gl, gl, f, g, data.kind);
            }
        }
        lemma_wt_mono(gl, gl, f, g);
    }
}

/// Adding values that are not instructions, or blocks, keeps a function well
/// typed.
pub proof fn lemma_wt_values(gl: Seq<ValueData>, f: FunctionData, g: FunctionData)
    requires extends(f, g),
    ensures
        well_typed(gl, f) && (forall|i: int| f.values@.len() <= i < g.values@.len() ==> !is_inst_kind(#[trigger] g.values@[i].kind))
            ==> well_typed(gl, g),
{
    if well_typed(gl, f) && (forall|i: int| f.values@.len() <= i < g.values@.len() ==> !is_inst_kind(#[trigger] g.values@[i].kind)) {
        assert forall|i: int| f.values@.len() <= i < g.values@.len() implies typed_ok(gl, g, #[trigger] g.values@[i]) by {
            assert(!is_inst_kind(g.values@[i].kind));
        }
        lemma_wt_mono(gl, gl, f, g);
    }
}

/// A translation step from `f0` with current block `bb0` to `f1` with current
/// block `bb1`: nothing already built changes, and where all blocks but the
/// current one ended with a terminator (and no block was placed twice), that
/// is still so.
pub open spec fn step_ok(gl: Seq<ValueData>, f0: FunctionData, f1: FunctionData, bb0: BasicBlock, bb1: BasicBlock) -> bool {
    &&& extends(f0, f1)
    &&& (others_terminated(f0, bb0) && layout_unique(f0) ==> others_terminated(f1, bb1) && layout_unique(f1))
    &&& (well_typed(gl, f0) ==> well_typed(gl, f1))
}

pub proof fn lemma_step_refl(gl: Seq<ValueData>, f: FunctionData, bb: BasicBlock)
    ensures step_ok(gl, f, f, bb, bb),
{
    lemma_extends_refl(f);
}

pub proof fn lemma_step_trans(gl: Seq<ValueData>, f0: FunctionData, f1: FunctionData, f2: FunctionData, b0: BasicBlock, b1: BasicBlock, b2: BasicBlock)
    requires step_ok(gl, f0, f1, b0, b1), step_ok(gl, f1, f2, b1, b2),
    ensures step_ok(gl, f0, f2, b0, b2),
{
    lemma_extends_trans(f0, f1, f2);
}

/// A step that only adds values that are not instructions, or blocks
/// outside the layout.
pub proof fn lemma_step_values(gl: Seq<ValueData>, f: FunctionData, g: FunctionData, bb: BasicBlock)
    requires
        extends(f, g), g.layout == f.layout,
        forall|i: int| f.values@.len() <= i < g.values@.len() ==> !is_inst_kind(#[trigger] g.values@[i].kind),
    ensures step_ok(gl, f, g, bb, bb),
{
    lemma_step_keeps(f, g, bb);
    lemma_wt_values(gl, f, g);
}

/// A step that emits one instruction, which the typing rules accept, into
/// the current block.
pub proof fn lemma_step_emit(gl: Seq<ValueData>, f: FunctionData, g: FunctionData, bb: BasicBlock, v: Value, data: ValueData)
    requires emitted(f, g, bb, v, data), typed_ok(gl, f, data),
    ensures step_ok(gl, f, g, bb, bb),
{
    lemma_emitted_keeps(f, g, bb, v, data);
    lemma_wt_emit(gl, f, g, bb, v, data);
}

/// A block that ends with a terminator, with every other block ending with
/// one, makes the whole layout terminated.
pub proof fn lemma_close(f: FunctionData, b: BasicBlock)
    requires block_terminated(f, b), others_terminated(f, b), layout_unique(f),
    ensures all_terminated(f),
{
    let k = choose|k: int| 0 <= k < f.layout@.len() && (#[trigger] f.layout@[k]).bb == b && node_terminated(f, f.layout@[k]);
    assert forall|j: int| 0 <= j < f.layout@.len() implies node_terminated(f, #[trigger] f.layout@[j]) by {
        if f.layout@[j].bb == b && j != k {
            assert(f.layout@[j].bb != f.layout@[k].bb);
        }
    }
}

} // verus!
