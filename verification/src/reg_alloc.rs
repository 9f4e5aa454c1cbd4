//! Register allocation by linear scan over live intervals.
//!
//! Program points number the instructions of a function in layout order. The
//! live interval of a value runs from its definition to its last use as a
//! register operand (or is just its definition). Intervals are taken in
//! order of their start; an interval gets a free register of `a0`..`a7`,
//! registers of intervals that ended before it are freed first, and an
//! interval that finds no free register is spilled to the stack. Local
//! allocations always live on the stack.
use crate::error::CompileError;
use crate::ir::{BlockNode, FunctionData, Value, ValueData, ValueKind};
use crate::util::{dec_nat, str_with_u64};
use vstd::prelude::*;

verus! {

/// Where the back end finds a value.
#[derive(Debug, Clone)]
pub enum VariableLocation {
    Register(String),
    Stack(usize),
    Nowhere,
}

/// The live interval of a value (an index into the function's values).
#[derive(Debug, Clone, Copy, PartialEq, Eq, Structural)]
pub struct LiveInterval {
    pub value: usize,
    pub start: usize,
    pub end: usize,
}

/// An interval that holds a register.
#[derive(Debug, Clone, Copy, PartialEq, Eq, Structural)]
pub struct ActiveInterval {
    pub end: usize,
    pub value: usize,
    pub reg: u8,
}

/// Where the allocator put a value.
#[derive(Debug, Clone, Copy, PartialEq, Eq, Structural)]
pub enum Loc {
    Unassigned,
    /// Register `a<n>`.
    Reg(u8),
    /// A stack slot; the value is at `sp + (slot - 4)`.
    Slot(usize),
}

/// The instructions of a layout in order: the program points.
pub open spec fn flat_insts(layout: Seq<BlockNode>) -> Seq<usize>
    decreases layout.len(),
{
    if layout.len() == 0 { seq![] } else { flat_insts(layout.drop_last()) + layout.last().insts@ }
}

/// Instructions that produce a result needing a register: all but
/// branches, jumps, stores, returns and calls of functions returning unit.
pub open spec fn has_result_data(d: ValueData) -> bool {
    &&& !(d.kind is Branch || d.kind is Jump || d.kind is Store || d.kind is Return)
    &&& !(d.kind is Call && d.ty is Unit)
}

/// The kind of the instruction at program point `p`, where `p` is a point
/// and its instruction exists.
pub open spec fn point_ok(f: FunctionData, p: int) -> bool {
    0 <= p < flat_insts(f.layout@).len() && flat_insts(f.layout@)[p] < f.values@.len()
}

pub open spec fn kind_at(f: FunctionData, p: int) -> ValueKind {
    f.values@[flat_insts(f.layout@)[p] as int].kind
}

/// Point `p` defines a value that needs a register.
pub open spec fn is_def(f: FunctionData, p: int) -> bool {
    point_ok(f, p) && has_result_data(f.values@[flat_insts(f.layout@)[p] as int]) && !(kind_at(f, p) is Alloc)
}

/// Point `p` is a local allocation.
pub open spec fn is_alloc_def(f: FunctionData, p: int) -> bool {
    point_ok(f, p) && kind_at(f, p) is Alloc
}

/// The operands that an instruction of kind `k` whose handle is `inst`
/// reads (a load also counts as a use of its own result).
pub open spec fn reg_operands(k: ValueKind, inst: usize) -> Seq<Value> {
    match k {
        ValueKind::Binary { op, lhs, rhs } => seq![lhs, rhs],
        ValueKind::Return(Some(v)) => seq![v],
        ValueKind::Load(src) => seq![Value::Local(inst), src],
        ValueKind::Store { value, dest } => seq![value, dest],
        ValueKind::GetPtr { src, index } => seq![src, index],
        ValueKind::GetElemPtr { src, index } => seq![src, index],
        ValueKind::Branch { cond, true_bb, false_bb } => seq![cond],
        ValueKind::Call { callee, args } => args@,
        _ => seq![],
    }
}

/// Point `p` uses local value `v`, which is not an integer constant, as a
/// register operand.
pub open spec fn uses_at(f: FunctionData, p: int, v: usize) -> bool {
    &&& point_ok(f, p)
    &&& reg_operands(kind_at(f, p), flat_insts(f.layout@)[p]).contains(Value::Local(v))
    &&& v < f.values@.len()
    &&& !(f.values@[v as int].kind is Integer)
}

/// The last point before `n` that uses `v`.
pub open spec fn last_use(f: FunctionData, n: int, v: usize) -> Option<int>
    decreases n,
{
    if n <= 0 { None } else if uses_at(f, n - 1, v) { Some(n - 1) } else { last_use(f, n - 1, v) }
}

/// The last point before `n` that defines `v` (needing a register).
pub open spec fn last_def(f: FunctionData, n: int, v: usize) -> Option<int>
    decreases n,
{
    if n <= 0 {
        None
    } else if is_def(f, n - 1) && flat_insts(f.layout@)[n - 1] == v {
        Some(n - 1)
    } else {
        last_def(f, n - 1, v)
    }
}

/// The last point before `n` that allocates `v`.
pub open spec fn last_alloc_def(f: FunctionData, n: int, v: usize) -> Option<int>
    decreases n,
{
    if n <= 0 {
        None
    } else if is_alloc_def(f, n - 1) && flat_insts(f.layout@)[n - 1] == v {
        Some(n - 1)
    } else {
        last_alloc_def(f, n - 1, v)
    }
}

/// The number of program points of `f`.
pub open spec fn num_points(f: FunctionData) -> int {
    flat_insts(f.layout@).len() as int
}

/// The interval of a value defined (last) at point `start`: up to its last
/// use, or just the definition.
pub open spec fn interval_end(f: FunctionData, v: usize, start: int) -> int {
    match last_use(f, num_points(f), v) {
        Some(p) => p,
        None => start,
    }
}

proof fn lemma_flat_step(layout: Seq<BlockNode>, b: int)
    requires 0 <= b < layout.len(),
    ensures flat_insts(layout.subrange(0, b + 1)) == flat_insts(layout.subrange(0, b)) + layout[b].insts@,
{
    assert(layout.subrange(0, b + 1).drop_last() =~= layout.subrange(0, b));
}

proof fn lemma_flat_prefix(layout: Seq<BlockNode>, b: int, p: int)
    requires 0 <= b <= layout.len(), 0 <= p < flat_insts(layout.subrange(0, b)).len(),
    ensures
        flat_insts(layout.subrange(0, b)).len() <= flat_insts(layout).len(),
        flat_insts(layout)[p] == flat_insts(layout.subrange(0, b))[p],
    decreases layout.len() - b,
{
    if b < layout.len() {
        lemma_flat_step(layout, b);
        lemma_flat_prefix(layout, b + 1, p);
    } else {
        assert(layout.subrange(0, b) =~= layout);
    }
}

proof fn lemma_flat_len_prefix(layout: Seq<BlockNode>, b: int)
    requires 0 <= b <= layout.len(),
    ensures flat_insts(layout.subrange(0, b)).len() <= flat_insts(layout).len(),
    decreases layout.len() - b,
{
    if b < layout.len() {
        lemma_flat_step(layout, b);
        lemma_flat_len_prefix(layout, b + 1);
    } else {
        assert(layout.subrange(0, b) =~= layout);
    }
}

/// Whether an instruction produces a result needing a register (the exec
/// counterpart of `has_result_data`).
fn has_result(d: &ValueData) -> (r: bool)
    ensures r == has_result_data(*d),
{
    match &d.kind {
        ValueKind::Branch { .. } | ValueKind::Jump(_) | ValueKind::Store { .. } | ValueKind::Return(_) => false,
        ValueKind::Call { .. } => !d.ty.is_unit(),
        _ => true,
    }
}

fn is_alloc(k: &ValueKind) -> (r: bool)
    ensures r == (*k is Alloc),
{
    match k {
        ValueKind::Alloc => true,
        _ => false,
    }
}

/// `a` holds exactly the point that `b` names.
pub open spec fn same_point(a: Option<usize>, b: Option<int>) -> bool {
    match (a, b) {
        (Some(x), Some(y)) => x as int == y,
        (None, None) => true,
        _ => false,
    }
}

/// The register operands of an instruction (the exec counterpart of
/// `reg_operands`).
fn get_operands(k: &ValueKind, inst: usize) -> (r: Vec<Value>)
    ensures r@ == reg_operands(*k, inst),
{
    match k {
        ValueKind::Binary { op, lhs, rhs } => vec![*lhs, *rhs],
        ValueKind::Return(Some(v)) => vec![*v],
        ValueKind::Load(src) => vec![Value::Local(inst), *src],
        ValueKind::Store { value, dest } => vec![*value, *dest],
        ValueKind::GetPtr { src, index } => vec![*src, *index],
        ValueKind::GetElemPtr { src, index } => vec![*src, *index],
        ValueKind::Branch { cond, .. } => vec![*cond],
        ValueKind::Call { args, .. } => {
            let mut r: Vec<Value> = Vec::new();
            let n = args.len();
            let mut i: usize = 0;
            while i < n
                invariant n == args@.len(), i <= n, r@ == args@.take(i as int),
                decreases n - i,
            {
                r.push(args[i]);
                proof { assert(args@.take(i + 1) == args@.take(i as int).push(args@[i as int])); }
                i = i + 1;
            }
            proof { assert(args@.take(n as int) =~= args@); }
            r
        },
        _ => Vec::new(),
    }
}

/// Points of a layout, position by position: the block index and index
/// within the block of point `pp`.
pub open spec fn at_point(layout: Seq<BlockNode>, b: int, k: int, pp: int) -> bool {
    &&& 0 <= b < layout.len()
    &&& 0 <= k < layout[b].insts@.len()
    &&& pp == flat_insts(layout.subrange(0, b)).len() + k
}

proof fn lemma_at_point(layout: Seq<BlockNode>, b: int, k: int, pp: int)
    requires at_point(layout, b, k, pp),
    ensures
        0 <= pp < flat_insts(layout).len(),
        flat_insts(layout)[pp] == layout[b].insts@[k],
{
    lemma_flat_step(layout, b);
    lemma_flat_prefix(layout, b + 1, pp);
}

/// The first error among the operands `ops` of a function with `nv` values:
/// a missing local value (a global value needs no register and is skipped).
pub open spec fn operand_error(ops: Seq<Value>, nv: int) -> Option<CompileError>
    decreases ops.len(),
{
    if ops.len() == 0 {
        None
    } else {
        match operand_error(ops.drop_last(), nv) {
            Some(e) => Some(e),
            None => match ops.last() {
                Value::Local(o) => if o >= nv { Some(CompileError::InvalidHandle) } else { None },
                Value::Global(_) => None,
            },
        }
    }
}

/// The error at program point `p` of `f`, if any: a missing instruction, a
/// bad register operand, or a point number that would not fit in `usize`.
pub open spec fn point_error(f: FunctionData, p: int) -> Option<CompileError> {
    let inst = flat_insts(f.layout@)[p];
    if inst >= f.values@.len() {
        Some(CompileError::InvalidHandle)
    } else {
        match operand_error(reg_operands(f.values@[inst as int].kind, inst), f.values@.len() as int) {
            Some(e) => Some(e),
            None => if p == usize::MAX { Some(CompileError::Overflow) } else { None },
        }
    }
}

/// The first error among the points before `n`.
pub open spec fn scan_error(f: FunctionData, n: int) -> Option<CompileError>
    decreases n,
{
    if n <= 0 {
        None
    } else {
        match scan_error(f, n - 1) {
            Some(e) => Some(e),
            None => point_error(f, n - 1),
        }
    }
}

proof fn lemma_operand_error_prefix(s: Seq<Value>, nv: int, j: int)
    requires 0 <= j <= s.len(), operand_error(s.take(j), nv) is Some,
    ensures operand_error(s, nv) == operand_error(s.take(j), nv),
    decreases s.len() - j,
{
    if j < s.len() {
        assert(s.take(j + 1).drop_last() =~= s.take(j));
        lemma_operand_error_prefix(s, nv, j + 1);
    } else {
        assert(s.take(j) =~= s);
    }
}

proof fn lemma_scan_error_mono(f: FunctionData, n: int, m: int)
    requires 0 <= n <= m, scan_error(f, n) is Some,
    ensures scan_error(f, m) == scan_error(f, n),
    decreases m - n,
{
    if n < m {
        lemma_scan_error_mono(f, n, m - 1);
    }
}

/// The result of scanning a function's points.
pub struct PointScan {
    pub start: Vec<Option<usize>>,
    pub end: Vec<Option<usize>>,
    pub alloc_start: Vec<Option<usize>>,
    pub np: usize,
}

/// `sc` holds, for every value of `f`, its last definition, last use and
/// last allocation point, and the number of points.
pub open spec fn scan_ok(f: FunctionData, sc: PointScan) -> bool {
    &&& sc.np == num_points(f)
    &&& sc.start@.len() == f.values@.len()
    &&& sc.end@.len() == f.values@.len()
    &&& sc.alloc_start@.len() == f.values@.len()
    &&& forall|p: int| 0 <= p < sc.np ==> point_ok(f, p)
    &&& forall|v: int| 0 <= v < f.values@.len() ==> same_point(#[trigger] sc.start@[v], last_def(f, sc.np as int, v as usize))
    &&& forall|v: int| 0 <= v < f.values@.len() ==> same_point(#[trigger] sc.end@[v], last_use(f, sc.np as int, v as usize))
    &&& forall|v: int| 0 <= v < f.values@.len() ==> same_point(#[trigger] sc.alloc_start@[v], last_alloc_def(f, sc.np as int, v as usize))
}

/// For every value: the point of its last definition, of its last use as a
/// register operand, and of its last allocation; and the number of points.
/// Fails where an instruction does not exist, an operand is a missing value,
/// or a register operand is a global value.
fn scan_points(f: &FunctionData) -> (r: Result<PointScan, CompileError>)
    ensures
        r matches Ok(sc) ==> scan_ok(*f, sc),
        match r {
            Ok(_) => scan_error(*f, num_points(*f)) is None,
            Err(e) => scan_error(*f, num_points(*f)) == Some(e),
        },
{
    let nv = f.values.len();
    let mut start: Vec<Option<usize>> = Vec::new();
    let mut end: Vec<Option<usize>> = Vec::new();
    let mut alloc_start: Vec<Option<usize>> = Vec::new();
    let mut i: usize = 0;
    while i < nv
        invariant
            nv == f.values@.len(), i <= nv,
            start@.len() == i, end@.len() == i, alloc_start@.len() == i,
            forall|v: int| 0 <= v < i ==> (#[trigger] start@[v]) is None,
            forall|v: int| 0 <= v < i ==> (#[trigger] end@[v]) is None,
            forall|v: int| 0 <= v < i ==> (#[trigger] alloc_start@[v]) is None,
        decreases nv - i,
    {
        start.push(None);
        end.push(None);
        alloc_start.push(None);
        i = i + 1;
    }
    let ghost layout = f.layout@;
    let mut pp: usize = 0;
    let nb = f.layout.len();
    let mut b: usize = 0;
    assert(layout.subrange(0, 0).len() == 0);
    while b < nb
        invariant
            nb == layout.len(),
            layout == f.layout@,
            nv == f.values@.len(),
            b <= nb,
            pp == flat_insts(layout.subrange(0, b as int)).len(),
            start@.len() == nv, end@.len() == nv, alloc_start@.len() == nv,
            forall|p: int| 0 <= p < pp ==> point_ok(*f, p),
            scan_error(*f, pp as int) is None,
            forall|v: int| 0 <= v < nv ==> same_point(#[trigger] start@[v], last_def(*f, pp as int, v as usize)),
            forall|v: int| 0 <= v < nv ==> same_point(#[trigger] end@[v], last_use(*f, pp as int, v as usize)),
            forall|v: int| 0 <= v < nv ==> same_point(#[trigger] alloc_start@[v], last_alloc_def(*f, pp as int, v as usize)),
        decreases nb - b,
    {
        let node = &f.layout[b];
        let ni = node.insts.len();
        let mut k: usize = 0;
        proof { lemma_flat_step(layout, b as int); lemma_flat_len_prefix(layout, b + 1); }
        while k < ni
            invariant
                nb == layout.len(),
                layout == f.layout@,
                nv == f.values@.len(),
                b < nb,
                *node == layout[b as int],
                ni == node.insts@.len(),
                k <= ni,
                pp == flat_insts(layout.subrange(0, b as int)).len() + k,
                flat_insts(layout.subrange(0, b + 1)) == flat_insts(layout.subrange(0, b as int)) + layout[b as int].insts@,
                flat_insts(layout.subrange(0, b + 1)).len() <= flat_insts(layout).len(),
                start@.len() == nv, end@.len() == nv, alloc_start@.len() == nv,
                forall|p: int| 0 <= p < pp ==> point_ok(*f, p),
                scan_error(*f, pp as int) is None,
                forall|v: int| 0 <= v < nv ==> same_point(#[trigger] start@[v], last_def(*f, pp as int, v as usize)),
                forall|v: int| 0 <= v < nv ==> same_point(#[trigger] end@[v], last_use(*f, pp as int, v as usize)),
                forall|v: int| 0 <= v < nv ==> same_point(#[trigger] alloc_start@[v], last_alloc_def(*f, pp as int, v as usize)),
            decreases ni - k,
        {
            let inst = node.insts[k];
            proof { lemma_at_point(layout, b as int, k as int, pp as int); }
            if inst >= nv {
                proof {
                    assert(point_error(*f, pp as int) == Some(CompileError::InvalidHandle));
                    lemma_scan_error_mono(*f, pp + 1, num_points(*f));
                }
                return Err(CompileError::InvalidHandle);
            }
            let kind = &f.values[inst].kind;
            let ghost s0 = start@;
            let ghost a0 = alloc_start@;
            let ghost e0 = end@;
            if has_result(&f.values[inst]) {
                if is_alloc(kind) {
                    alloc_start.set(inst, Some(pp));
                } else {
                    start.set(inst, Some(pp));
                }
            }
            let ops = get_operands(kind, inst);
            let no = ops.len();
            let mut j: usize = 0;
            while j < no
                invariant
                    no == ops@.len(),
                    ops@ == reg_operands(*kind, inst),
                    j <= no,
                    nv == f.values@.len(),
                    end@.len() == nv,
                    operand_error(ops@.take(j as int), nv as int) is None,
                    scan_error(*f, pp as int) is None,
                    0 <= pp < num_points(*f),
                    inst < nv,
                    flat_insts(f.layout@)[pp as int] == inst,
                    *kind == f.values@[inst as int].kind,
                    forall|v: int| 0 <= v < nv ==> #[trigger] end@[v] == (if (exists|i: int| 0 <= i < j && ops@[i] == Value::Local(v as usize))
                        && !(f.values@[v].kind is Integer) { Some(pp) } else { e0[v] }),
                decreases no - j,
            {
                match ops[j] {
                    Value::Local(o) => {
                        if o >= nv {
                            proof {
                                assert(ops@.take(j + 1).drop_last() =~= ops@.take(j as int));
                                lemma_operand_error_prefix(ops@, nv as int, j + 1);
                                assert(kind_at(*f, pp as int) == *kind);
                                assert(point_error(*f, pp as int) == Some(CompileError::InvalidHandle));
                                lemma_scan_error_mono(*f, pp + 1, num_points(*f));
                            }
                            return Err(CompileError::InvalidHandle);
                        }
                        let is_int = match f.values[o].kind { ValueKind::Integer(_) => true, _ => false };
                        if !is_int {
                            end.set(o, Some(pp));
                        }
                        proof {
                            assert forall|v: int| 0 <= v < nv implies #[trigger] end@[v] == (if (exists|i: int| 0 <= i < j + 1 && ops@[i] == Value::Local(v as usize))
                                && !(f.values@[v].kind is Integer) { Some(pp) } else { e0[v] }) by {
                                if v == o as int {
                                    if !is_int { assert(ops@[j as int] == Value::Local(v as usize)); }
                                } else {
                                    if exists|i: int| 0 <= i < j + 1 && ops@[i] == Value::Local(v as usize) {
                                        let i = choose|i: int| 0 <= i < j + 1 && ops@[i] == Value::Local(v as usize);
                                        assert(i != j);
                                    }
                                }
                            }
                        }
                    },
                    Value::Global(_) => {},
                }
                proof { assert(ops@.take(j + 1).drop_last() =~= ops@.take(j as int)); }
                j = j + 1;
            }
            proof {
                let fl = flat_insts(layout);
                assert(fl[pp as int] == inst);
                assert(point_ok(*f, pp as int));
                assert forall|v: int| 0 <= v < nv implies {
                    &&& same_point(#[trigger] start@[v], last_def(*f, pp + 1, v as usize))
                    &&& same_point(end@[v], last_use(*f, pp + 1, v as usize))
                    &&& same_point(alloc_start@[v], last_alloc_def(*f, pp + 1, v as usize))
                } by {
                    assert(same_point(s0[v], last_def(*f, pp as int, v as usize)));
                    assert(same_point(e0[v], last_use(*f, pp as int, v as usize)));
                    assert(same_point(a0[v], last_alloc_def(*f, pp as int, v as usize)));
                    assert(kind_at(*f, pp as int) == *kind);
                    if uses_at(*f, pp as int, v as usize) {
                        assert(ops@.contains(Value::Local(v as usize)));
                        let i = choose|i: int| 0 <= i < ops@.len() && ops@[i] == Value::Local(v as usize);
                    } else {
                        if (exists|i: int| 0 <= i < no && ops@[i] == Value::Local(v as usize)) && !(f.values@[v].kind is Integer) {
                            let i = choose|i: int| 0 <= i < no && ops@[i] == Value::Local(v as usize);
                            assert(ops@.contains(Value::Local(v as usize)));
                        }
                    }
                }
            }
            proof {
                assert(ops@.take(no as int) =~= ops@);
                assert(kind_at(*f, pp as int) == *kind);
            }
            if pp == usize::MAX {
                proof {
                    assert(point_error(*f, pp as int) == Some(CompileError::Overflow));
                    lemma_scan_error_mono(*f, pp + 1, num_points(*f));
                }
                return Err(CompileError::Overflow);
            }
            proof { assert(point_error(*f, pp as int) is None); }
            pp = pp + 1;
            k = k + 1;
        }
        b = b + 1;
    }
    proof {
        assert(layout.subrange(0, nb as int) =~= layout);
        assert(pp == num_points(*f));
    }
    let sc = PointScan { start, end, alloc_start, np: pp };
    Ok(sc)
}

/// `ivs` are the live intervals of `f`: one per value that needs a
/// register, starting at its last definition and ending at its last use (or
/// at the definition), in order of their starts.
pub open spec fn intervals_ok(f: FunctionData, ivs: Seq<LiveInterval>) -> bool {
    &&& forall|k: int| 0 <= k < ivs.len() ==> {
        &&& is_def(f, (#[trigger] ivs[k]).start as int)
        &&& flat_insts(f.layout@)[ivs[k].start as int] == ivs[k].value
        &&& last_def(f, num_points(f), ivs[k].value) == Some(ivs[k].start as int)
        &&& ivs[k].end as int == interval_end(f, ivs[k].value, ivs[k].start as int)
        &&& ivs[k].value < f.values@.len()
    }
    &&& forall|k1: int, k2: int| 0 <= k1 < k2 < ivs.len() ==> (#[trigger] ivs[k1]).start < (#[trigger] ivs[k2]).start
    &&& forall|p: int| 0 <= p < num_points(f) && is_def(f, p) && last_def(f, num_points(f), #[trigger] flat_insts(f.layout@)[p]) == Some(p) ==>
        exists|k: int| 0 <= k < ivs.len() && ivs[k].start == p
}

/// `allocs` are the local allocations of `f`, each once, in order of their
/// last allocation point.
pub open spec fn allocs_ok(f: FunctionData, allocs: Seq<usize>) -> bool {
    &&& forall|k: int| 0 <= k < allocs.len() ==> (#[trigger] allocs[k]) < f.values@.len()
        && last_alloc_def(f, num_points(f), allocs[k]) is Some
    &&& forall|k1: int, k2: int| 0 <= k1 < k2 < allocs.len() ==> #[trigger] allocs[k1] != #[trigger] allocs[k2]
    &&& forall|p: int| 0 <= p < num_points(f) && is_alloc_def(f, p) ==>
        exists|k: int| 0 <= k < allocs.len() && allocs[k] == #[trigger] flat_insts(f.layout@)[p]
}

/// The live intervals that start before point `n`, in order of their
/// starts: one for each value whose last definition is there.
pub open spec fn intervals_upto(f: FunctionData, n: int) -> Seq<LiveInterval>
    decreases n,
{
    if n <= 0 {
        seq![]
    } else {
        let p = n - 1;
        let v = flat_insts(f.layout@)[p];
        if is_def(f, p) && last_def(f, num_points(f), v) == Some(p) {
            intervals_upto(f, p).push(LiveInterval { value: v, start: p as usize, end: interval_end(f, v, p) as usize })
        } else {
            intervals_upto(f, p)
        }
    }
}

/// The live intervals of `f`.
pub open spec fn live_intervals(f: FunctionData) -> Seq<LiveInterval> {
    intervals_upto(f, num_points(f))
}

/// The local allocations last made before point `n`, in order of those
/// points.
pub open spec fn allocs_upto(f: FunctionData, n: int) -> Seq<usize>
    decreases n,
{
    if n <= 0 {
        seq![]
    } else {
        let p = n - 1;
        let v = flat_insts(f.layout@)[p];
        if is_alloc_def(f, p) && last_alloc_def(f, num_points(f), v) == Some(p) {
            allocs_upto(f, p).push(v)
        } else {
            allocs_upto(f, p)
        }
    }
}

/// The local allocations of `f`.
pub open spec fn local_allocs(f: FunctionData) -> Seq<usize> {
    allocs_upto(f, num_points(f))
}

proof fn lemma_last_def_is(f: FunctionData, n: int, v: usize)
    ensures
        last_def(f, n, v) matches Some(p) ==> 0 <= p < n && is_def(f, p) && flat_insts(f.layout@)[p] == v,
    decreases n,
{
    if n > 0 { lemma_last_def_is(f, n - 1, v); }
}

proof fn lemma_last_alloc_def_is(f: FunctionData, n: int, v: usize)
    ensures
        last_alloc_def(f, n, v) matches Some(p) ==> 0 <= p < n && is_alloc_def(f, p) && flat_insts(f.layout@)[p] == v,
        forall|p: int| 0 <= p < n && is_alloc_def(f, p) && flat_insts(f.layout@)[p] == v ==> last_alloc_def(f, n, v) is Some,
    decreases n,
{
    if n > 0 { lemma_last_alloc_def_is(f, n - 1, v); }
}

/// The live intervals and the local allocations of `f`.
fn collect_intervals(f: &FunctionData, sc: &PointScan) -> (r: (Vec<LiveInterval>, Vec<usize>))
    requires scan_ok(*f, *sc),
    ensures
        intervals_ok(*f, r.0@), allocs_ok(*f, r.1@),
        r.0@ == live_intervals(*f), r.1@ == local_allocs(*f),
{
    let mut ivs: Vec<LiveInterval> = Vec::new();
    let mut allocs: Vec<usize> = Vec::new();
    let ghost alloc_pos: Seq<int> = seq![];
    let ghost layout = f.layout@;
    let ghost np = sc.np as int;
    let mut pp: usize = 0;
    let nb = f.layout.len();
    let mut b: usize = 0;
    assert(layout.subrange(0, 0).len() == 0);
    while b < nb
        invariant
            nb == layout.len(),
            layout == f.layout@,
            scan_ok(*f, *sc),
            np == sc.np,
            b <= nb,
            pp == flat_insts(layout.subrange(0, b as int)).len(),
            pp <= np,
            forall|k: int| 0 <= k < ivs@.len() ==> {
                &&& is_def(*f, (#[trigger] ivs@[k]).start as int)
                &&& flat_insts(f.layout@)[ivs@[k].start as int] == ivs@[k].value
                &&& last_def(*f, np, ivs@[k].value) == Some(ivs@[k].start as int)
                &&& ivs@[k].end as int == interval_end(*f, ivs@[k].value, ivs@[k].start as int)
                &&& ivs@[k].value < f.values@.len()
                &&& ivs@[k].start < pp
            },
            forall|k1: int, k2: int| 0 <= k1 < k2 < ivs@.len() ==> (#[trigger] ivs@[k1]).start < (#[trigger] ivs@[k2]).start,
            forall|p: int| 0 <= p < pp && is_def(*f, p) && last_def(*f, np, #[trigger] flat_insts(f.layout@)[p]) == Some(p) ==>
                exists|k: int| 0 <= k < ivs@.len() && ivs@[k].start == p,
            alloc_pos.len() == allocs@.len(),
            ivs@ == intervals_upto(*f, pp as int),
            allocs@ == allocs_upto(*f, pp as int),
            np == num_points(*f),
            forall|k: int| 0 <= k < allocs@.len() ==> (#[trigger] allocs@[k]) < f.values@.len()
                && last_alloc_def(*f, np, allocs@[k]) == Some(alloc_pos[k]) && alloc_pos[k] < pp,
            forall|k1: int, k2: int| 0 <= k1 < k2 < allocs@.len() ==> #[trigger] alloc_pos[k1] < #[trigger] alloc_pos[k2],
            forall|p: int| 0 <= p < pp && is_alloc_def(*f, p) && last_alloc_def(*f, np, #[trigger] flat_insts(f.layout@)[p]) == Some(p) ==>
                exists|k: int| 0 <= k < allocs@.len() && allocs@[k] == flat_insts(f.layout@)[p],
        decreases nb - b,
    {
        let node = &f.layout[b];
        let ni = node.insts.len();
        let mut k: usize = 0;
        proof { lemma_flat_step(layout, b as int); lemma_flat_len_prefix(layout, b + 1); }
        while k < ni
            invariant
                nb == layout.len(),
                layout == f.layout@,
                scan_ok(*f, *sc),
                np == sc.np,
                b < nb,
                *node == layout[b as int],
                ni == node.insts@.len(),
                k <= ni,
                pp == flat_insts(layout.subrange(0, b as int)).len() + k,
                flat_insts(layout.subrange(0, b + 1)) == flat_insts(layout.subrange(0, b as int)) + layout[b as int].insts@,
                flat_insts(layout.subrange(0, b + 1)).len() <= flat_insts(layout).len(),
                forall|k: int| 0 <= k < ivs@.len() ==> {
                    &&& is_def(*f, (#[trigger] ivs@[k]).start as int)
                    &&& flat_insts(f.layout@)[ivs@[k].start as int] == ivs@[k].value
                    &&& last_def(*f, np, ivs@[k].value) == Some(ivs@[k].start as int)
                    &&& ivs@[k].end as int == interval_end(*f, ivs@[k].value, ivs@[k].start as int)
                    &&& ivs@[k].value < f.values@.len()
                    &&& ivs@[k].start < pp
                },
                forall|k1: int, k2: int| 0 <= k1 < k2 < ivs@.len() ==> (#[trigger] ivs@[k1]).start < (#[trigger] ivs@[k2]).start,
                forall|p: int| 0 <= p < pp && is_def(*f, p) && last_def(*f, np, #[trigger] flat_insts(f.layout@)[p]) == Some(p) ==>
                    exists|k: int| 0 <= k < ivs@.len() && ivs@[k].start == p,
                alloc_pos.len() == allocs@.len(),
                ivs@ == intervals_upto(*f, pp as int),
                allocs@ == allocs_upto(*f, pp as int),
                np == num_points(*f),
                forall|k: int| 0 <= k < allocs@.len() ==> (#[trigger] allocs@[k]) < f.values@.len()
                    && last_alloc_def(*f, np, allocs@[k]) == Some(alloc_pos[k]) && alloc_pos[k] < pp,
                forall|k1: int, k2: int| 0 <= k1 < k2 < allocs@.len() ==> #[trigger] alloc_pos[k1] < #[trigger] alloc_pos[k2],
                forall|p: int| 0 <= p < pp && is_alloc_def(*f, p) && last_alloc_def(*f, np, #[trigger] flat_insts(f.layout@)[p]) == Some(p) ==>
                    exists|k: int| 0 <= k < allocs@.len() && allocs@[k] == flat_insts(f.layout@)[p],
            decreases ni - k,
        {
            let inst = node.insts[k];
            proof {
                lemma_at_point(layout, b as int, k as int, pp as int);
                assert(point_ok(*f, pp as int));
            }
            let kind = &f.values[inst].kind;
            let ghost fl = flat_insts(layout);
            let ghost ivs0 = ivs@;
            let ghost allocs0 = allocs@;
            if has_result(&f.values[inst]) && !is_alloc(kind) && sc.start[inst] == Some(pp) {
                let e = match sc.end[inst] { Some(e) => e, None => pp };
                proof {
                    assert(same_point(sc.start@[inst as int], last_def(*f, np, inst)));
                    assert(same_point(sc.end@[inst as int], last_use(*f, np, inst)));
                }
                ivs.push(LiveInterval { value: inst, start: pp, end: e });
            }
            if has_result(&f.values[inst]) && is_alloc(kind) && sc.alloc_start[inst] == Some(pp) {
                proof {
                    assert(same_point(sc.alloc_start@[inst as int], last_alloc_def(*f, np, inst)));
                    assert forall|k: int| 0 <= k < allocs@.len() implies alloc_pos[k] < pp by {
                        assert(allocs@[k] < f.values@.len());
                    }
                    alloc_pos = alloc_pos.push(pp as int);
                }
                allocs.push(inst);
            }
            proof {
                assert(fl[pp as int] == inst);
                assert forall|p: int| 0 <= p < pp + 1 && is_def(*f, p) && last_def(*f, np, #[trigger] flat_insts(f.layout@)[p]) == Some(p) implies
                    exists|k: int| 0 <= k < ivs@.len() && ivs@[k].start == p by {
                    assert(ivs0.is_prefix_of(ivs@));
                    if p == pp {
                        assert(kind_at(*f, pp as int) == *kind);
                        assert(same_point(sc.start@[inst as int], last_def(*f, np, inst)));
                        assert(ivs@[ivs@.len() - 1].start == p);
                    } else {
                        let k0 = choose|k: int| 0 <= k < ivs0.len() && ivs0[k].start == p;
                        assert(ivs@[k0] == ivs0[k0]);
                    }
                }
                assert forall|p: int| 0 <= p < pp + 1 && is_alloc_def(*f, p) && last_alloc_def(*f, np, #[trigger] flat_insts(f.layout@)[p]) == Some(p) implies
                    exists|k: int| 0 <= k < allocs@.len() && allocs@[k] == flat_insts(f.layout@)[p] by {
                    assert(allocs0.is_prefix_of(allocs@));
                    if p == pp {
                        assert(kind_at(*f, pp as int) == *kind);
                        assert(same_point(sc.alloc_start@[inst as int], last_alloc_def(*f, np, inst)));
                        assert(allocs@[allocs@.len() - 1] == fl[p]);
                    } else {
                        let k0 = choose|k: int| 0 <= k < allocs0.len() && allocs0[k] == flat_insts(f.layout@)[p];
                        assert(allocs@[k0] == allocs0[k0]);
                    }
                }
            }
            pp = pp + 1;
            k = k + 1;
        }
        b = b + 1;
    }
    proof {
        assert(layout.subrange(0, nb as int) =~= layout);
        assert forall|p: int| 0 <= p < num_points(*f) && is_alloc_def(*f, p) implies
            exists|k: int| 0 <= k < allocs@.len() && allocs@[k] == #[trigger] flat_insts(f.layout@)[p] by {
            let v = flat_insts(f.layout@)[p];
            lemma_last_alloc_def_is(*f, np, v);
            let q = last_alloc_def(*f, np, v)->Some_0;
            assert(flat_insts(f.layout@)[q] == v);
        }
        assert forall|k1: int, k2: int| 0 <= k1 < k2 < allocs@.len() implies #[trigger] allocs@[k1] != #[trigger] allocs@[k2] by {
            if allocs@[k1] == allocs@[k2] {
                assert(alloc_pos[k1] < alloc_pos[k2]);
            }
        }
    }
    (ivs, allocs)
}


/// The number of registers that the allocator hands out: `a0`..`a7`.
pub const NUM_REGS: u8 = 8;

/// Interval `j` holds a register (by `flags`) and is still live where
/// interval `k` starts.
pub open spec fn live_at(ivs: Seq<LiveInterval>, flags: Seq<bool>, k: int, j: int) -> bool {
    flags[j] && ivs[j].end >= ivs[k].start
}

/// How many of the intervals before `n` hold a register and are live where
/// interval `k` starts.
pub open spec fn active_count(ivs: Seq<LiveInterval>, flags: Seq<bool>, k: int, n: int) -> nat
    decreases n,
{
    if n <= 0 {
        0
    } else {
        active_count(ivs, flags, k, n - 1) + if live_at(ivs, flags, k, n - 1) { 1nat } else { 0nat }
    }
}

/// For each of the first `n` intervals, whether it gets a register: it does
/// exactly when fewer than `NUM_REGS` earlier intervals hold a register and
/// are still live where it starts.
pub open spec fn reg_flags(ivs: Seq<LiveInterval>, n: int) -> Seq<bool>
    decreases n,
{
    if n <= 0 {
        seq![]
    } else {
        let fl = reg_flags(ivs, n - 1);
        fl.push(active_count(ivs, fl, n - 1, n - 1) < NUM_REGS)
    }
}

/// The values of the first `n` intervals that get no register, in order.
pub open spec fn spilled_upto(ivs: Seq<LiveInterval>, flags: Seq<bool>, n: int) -> Seq<usize>
    decreases n,
{
    if n <= 0 {
        seq![]
    } else if flags[n - 1] {
        spilled_upto(ivs, flags, n - 1)
    } else {
        spilled_upto(ivs, flags, n - 1).push(ivs[n - 1].value)
    }
}

/// Which live intervals of `f` get a register.
pub open spec fn register_flags(f: FunctionData) -> Seq<bool> {
    reg_flags(live_intervals(f), live_intervals(f).len() as int)
}

/// The values that live on the stack, in the order of their slots: the
/// spilled values, then the local allocations.
pub open spec fn stack_order(f: FunctionData) -> Seq<usize> {
    spilled_upto(live_intervals(f), register_flags(f), live_intervals(f).len() as int) + local_allocs(f)
}

proof fn lemma_reg_flags_len(ivs: Seq<LiveInterval>, n: int)
    requires 0 <= n,
    ensures reg_flags(ivs, n).len() == n,
    decreases n,
{
    if n > 0 { lemma_reg_flags_len(ivs, n - 1); }
}

proof fn lemma_reg_flags_prefix(ivs: Seq<LiveInterval>, n: int, m: int)
    requires 0 <= n <= m,
    ensures reg_flags(ivs, n) == reg_flags(ivs, m).take(n),
    decreases m - n,
{
    lemma_reg_flags_len(ivs, m);
    if n < m {
        lemma_reg_flags_prefix(ivs, n, m - 1);
        lemma_reg_flags_len(ivs, m - 1);
        assert(reg_flags(ivs, m).take(n) =~= reg_flags(ivs, m - 1).take(n));
    } else {
        assert(reg_flags(ivs, m).take(n) =~= reg_flags(ivs, m));
    }
}

/// A strictly increasing list of indices below `n` holding exactly the
/// intervals live at `k` has `active_count` elements.
proof fn lemma_count_sorted(s: Seq<int>, ivs: Seq<LiveInterval>, flags: Seq<bool>, k: int, n: int)
    requires
        0 <= n,
        forall|i: int, j: int| 0 <= i < j < s.len() ==> s[i] < s[j],
        forall|i: int| 0 <= i < s.len() ==> 0 <= #[trigger] s[i] < n,
        forall|i: int| 0 <= i < s.len() ==> live_at(ivs, flags, k, #[trigger] s[i]),
        forall|x: int| 0 <= x < n && live_at(ivs, flags, k, x) ==> s.contains(x),
    ensures s.len() == active_count(ivs, flags, k, n),
    decreases n,
{
    if n > 0 {
        if s.len() > 0 && s.last() == n - 1 {
            let t = s.drop_last();
            assert forall|x: int| 0 <= x < n - 1 && live_at(ivs, flags, k, x) implies t.contains(x) by {
                assert(s.contains(x));
                let i = choose|i: int| 0 <= i < s.len() && s[i] == x;
                assert(i != s.len() - 1);
                assert(t[i] == x);
            }
            assert forall|i: int| 0 <= i < t.len() implies 0 <= #[trigger] t[i] < n - 1 by {
                assert(s[i] < s[s.len() - 1]);
            }
            lemma_count_sorted(t, ivs, flags, k, n - 1);
            assert(live_at(ivs, flags, k, s[s.len() - 1]));
        } else {
            assert(!live_at(ivs, flags, k, n - 1)) by {
                if live_at(ivs, flags, k, n - 1) {
                    assert(s.contains(n - 1));
                    let i = choose|i: int| 0 <= i < s.len() && s[i] == n - 1;
                    if i < s.len() - 1 {
                        assert(s[i] < s[s.len() - 1]);
                    }
                }
            }
            assert forall|i: int| 0 <= i < s.len() implies 0 <= #[trigger] s[i] < n - 1 by {
                if s[i] == n - 1 {
                    assert(live_at(ivs, flags, k, s[i]));
                }
            }
            lemma_count_sorted(s, ivs, flags, k, n - 1);
        }
    } else {
        if s.len() > 0 {
            assert(0 <= s[0] < n);
        }
    }
}


proof fn lemma_interval_values(f: FunctionData)
    requires intervals_ok(f, live_intervals(f)), allocs_ok(f, local_allocs(f)),
    ensures
        forall|j: int, k: int| 0 <= j < k < live_intervals(f).len() ==>
            (#[trigger] live_intervals(f)[j]).value != (#[trigger] live_intervals(f)[k]).value,
        forall|j: int, k: int| 0 <= j < live_intervals(f).len() && 0 <= k < local_allocs(f).len() ==>
            (#[trigger] live_intervals(f)[j]).value != #[trigger] local_allocs(f)[k],
{
    let ivs = live_intervals(f);
    let al = local_allocs(f);
    assert forall|j: int, k: int| 0 <= j < live_intervals(f).len() && 0 <= k < local_allocs(f).len() implies
        (#[trigger] live_intervals(f)[j]).value != #[trigger] local_allocs(f)[k] by {
        lemma_last_alloc_def_is(f, num_points(f), al[k]);
        let q = last_alloc_def(f, num_points(f), al[k])->Some_0;
        assert(is_def(f, ivs[j].start as int));
    }
}

/// The allocator of one function: free registers, where each value went, the
/// size of the stack frame, and the scratch registers kept for the code
/// generator.
pub struct LinearScanAlloc {
    free_regs: Vec<u8>,
    locs: Vec<Loc>,
    stack_count: usize,
    scratch_regs: Vec<String>,
}

impl LinearScanAlloc {
    /// Where each value (by its index) went.
    pub closed spec fn locations(&self) -> Seq<Loc> {
        self.locs@
    }

    /// The size of the stack frame in bytes.
    pub closed spec fn frame_size(&self) -> nat {
        self.stack_count as nat
    }

    /// The scratch registers that are free, the next one to be handed out
    /// last.
    pub closed spec fn scratch(&self) -> Seq<Seq<char>> {
        self.scratch_regs@.map_values(|s: String| s@)
    }

    /// The state of a new allocator: all of `a0`..`a7` free, nothing placed.
    pub closed spec fn is_fresh(&self) -> bool {
        &&& self.free_regs@ == seq![0u8, 1u8, 2u8, 3u8, 4u8, 5u8, 6u8, 7u8]
        &&& self.locs@.len() == 0
        &&& self.stack_count == 0
    }

    /// The allocation of `f` that `allocate` computes.
    pub open spec fn placed(&self, f: FunctionData) -> bool {
        placement_ok(f, self.locations(), self.frame_size())
    }
}

/// Why `allocate` fails on `f`, if it does.
pub open spec fn alloc_error(f: FunctionData) -> Option<CompileError> {
    match scan_error(f, num_points(f)) {
        Some(e) => Some(e),
        None => if 4 * stack_order(f).len() > usize::MAX { Some(CompileError::Overflow) } else { None },
    }
}

/// `locs` and a frame of `frame` bytes place the values of `f` as the linear
/// scan does: the intervals that `register_flags` marks get a register of
/// `a0`..`a7`, and no two intervals that share a register overlap; spilled
/// values and local allocations get the slots of `stack_order`, from the top
/// of the frame down; other values get nothing.
pub open spec fn placement_ok(f: FunctionData, locs: Seq<Loc>, frame: nat) -> bool {
    let ivs = live_intervals(f);
    let flags = register_flags(f);
    let order = stack_order(f);
    &&& frame == 4 * order.len()
    &&& frame <= usize::MAX
    &&& locs.len() == f.values@.len()
    &&& forall|k: int| 0 <= k < ivs.len() ==> (flags[k] <==> (#[trigger] locs[ivs[k].value as int]) is Reg)
    &&& forall|k: int| 0 <= k < ivs.len() && flags[k] ==> (#[trigger] locs[ivs[k].value as int])->Reg_0 < NUM_REGS
    &&& forall|i: int| 0 <= i < order.len() ==> #[trigger] locs[order[i] as int] == Loc::Slot((4 * (order.len() - i)) as usize)
    &&& forall|v: int| 0 <= v < f.values@.len() && (forall|k: int| 0 <= k < ivs.len() ==> ivs[k].value != v)
        && !local_allocs(f).contains(v as usize) ==> #[trigger] locs[v] == Loc::Unassigned
    &&& forall|j: int, k: int| 0 <= j < k < ivs.len() && (#[trigger] locs[ivs[j].value as int]) is Reg
        && locs[ivs[j].value as int] == #[trigger] locs[ivs[k].value as int] ==> ivs[j].end < ivs[k].start
}


/// The registers of a list of active intervals.
pub open spec fn active_regs(a: Seq<ActiveInterval>) -> Seq<u8> {
    a.map_values(|x: ActiveInterval| x.reg)
}

/// No register occurs twice in `s`.
pub open spec fn regs_distinct(s: Seq<u8>) -> bool {
    forall|i: int, j: int| 0 <= i < j < s.len() ==> #[trigger] s[i] != #[trigger] s[j]
}

/// No register of `s` occurs in `t`.
pub open spec fn regs_disjoint(s: Seq<u8>, t: Seq<u8>) -> bool {
    forall|i: int, j: int| 0 <= i < s.len() && 0 <= j < t.len() ==> #[trigger] s[i] != #[trigger] t[j]
}

/// All registers of `s` are below `NUM_REGS`.
pub open spec fn regs_valid(s: Seq<u8>) -> bool {
    forall|i: int| 0 <= i < s.len() ==> #[trigger] s[i] < NUM_REGS
}

/// Splits `active` into the intervals still live at `start` and those that
/// ended before it, keeping their order.
fn split_active(active: &Vec<ActiveInterval>, start: usize) -> (r: (Vec<ActiveInterval>, Vec<ActiveInterval>, Ghost<Seq<int>>, Ghost<Seq<int>>))
    ensures
        ({
            let (kept, expired, kp, ep) = r;
            &&& kept@.len() == kp@.len()
            &&& expired@.len() == ep@.len()
            &&& kept@.len() + expired@.len() == active@.len()
            &&& forall|t: int| 0 <= t < kp@.len() ==> 0 <= #[trigger] kp@[t] < active@.len()
                && kept@[t] == active@[kp@[t]] && active@[kp@[t]].end >= start
            &&& forall|t: int| 0 <= t < ep@.len() ==> 0 <= #[trigger] ep@[t] < active@.len()
                && expired@[t] == active@[ep@[t]] && active@[ep@[t]].end < start
            &&& forall|t1: int, t2: int| 0 <= t1 < t2 < kp@.len() ==> #[trigger] kp@[t1] < #[trigger] kp@[t2]
            &&& forall|t1: int, t2: int| 0 <= t1 < t2 < ep@.len() ==> #[trigger] ep@[t1] < #[trigger] ep@[t2]
            &&& forall|i: int| 0 <= i < active@.len() && active@[i].end >= start ==> #[trigger] kp@.contains(i)
        }),
{
    let mut kept: Vec<ActiveInterval> = Vec::new();
    let mut expired: Vec<ActiveInterval> = Vec::new();
    let ghost mut kp: Seq<int> = seq![];
    let ghost mut ep: Seq<int> = seq![];
    let mut i: usize = 0;
    while i < active.len()
        invariant
            i <= active@.len(),
            kept@.len() == kp.len(),
            expired@.len() == ep.len(),
            kept@.len() + expired@.len() == i,
            forall|t: int| 0 <= t < kp.len() ==> 0 <= #[trigger] kp[t] < i
                && kept@[t] == active@[kp[t]] && active@[kp[t]].end >= start,
            forall|t: int| 0 <= t < ep.len() ==> 0 <= #[trigger] ep[t] < i
                && expired@[t] == active@[ep[t]] && active@[ep[t]].end < start,
            forall|t1: int, t2: int| 0 <= t1 < t2 < kp.len() ==> #[trigger] kp[t1] < #[trigger] kp[t2],
            forall|t1: int, t2: int| 0 <= t1 < t2 < ep.len() ==> #[trigger] ep[t1] < #[trigger] ep[t2],
            forall|x: int| 0 <= x < i && active@[x].end >= start ==> #[trigger] kp.contains(x),
        decreases active@.len() - i,
    {
        let a = active[i];
        if a.end < start {
            expired.push(a);
            proof { ep = ep.push(i as int); }
        } else {
            kept.push(a);
            proof {
                let kp0 = kp;
                kp = kp.push(i as int);
                assert forall|x: int| 0 <= x < i + 1 && active@[x].end >= start implies #[trigger] kp.contains(x) by {
                    if x < i {
                        assert(kp0.contains(x));
                        let t = choose|t: int| 0 <= t < kp0.len() && kp0[t] == x;
                        assert(kp[t] == x);
                    } else {
                        assert(kp[kp.len() - 1] == x);
                    }
                }
            }
        }
        i = i + 1;
    }
    (kept, expired, Ghost(kp), Ghost(ep))
}

/// Gives the registers of `expired` back to `free`, the interval that ends
/// first first.
fn release_expired(free: &mut Vec<u8>, expired: Vec<ActiveInterval>)
    requires
        regs_distinct(old(free)@),
        regs_distinct(active_regs(expired@)),
        regs_disjoint(old(free)@, active_regs(expired@)),
    ensures
        final(free)@.len() == old(free)@.len() + expired@.len(),
        regs_distinct(final(free)@),
        forall|i: int| 0 <= i < final(free)@.len() ==>
            old(free)@.contains(#[trigger] final(free)@[i]) || active_regs(expired@).contains(final(free)@[i]),
{
    let mut rest = expired;
    let ghost f0 = free@;
    let ghost e0 = active_regs(expired@);
    assert forall|i: int| 0 <= i < rest@.len() implies e0.contains(#[trigger] rest@[i].reg) by {
        assert(e0[i] == rest@[i].reg);
    }
    while rest.len() > 0
        invariant
            free@.len() + rest@.len() == f0.len() + e0.len(),
            regs_distinct(free@),
            regs_distinct(active_regs(rest@)),
            regs_disjoint(free@, active_regs(rest@)),
            forall|i: int| 0 <= i < free@.len() ==> f0.contains(#[trigger] free@[i]) || e0.contains(free@[i]),
            forall|i: int| 0 <= i < rest@.len() ==> e0.contains(#[trigger] rest@[i].reg),
        decreases rest@.len(),
    {
        let mut m: usize = 0;
        let mut i: usize = 1;
        while i < rest.len()
            invariant
                0 < rest@.len(),
                m < i <= rest@.len(),
            decreases rest@.len() - i,
        {
            if rest[i].end < rest[m].end {
                m = i;
            }
            i = i + 1;
        }
        let ghost r0 = rest@;
        let a = rest.remove(m);
        proof {
            assert(active_regs(r0)[m as int] == a.reg);
            assert(e0.contains(r0[m as int].reg));
            assert forall|i: int, j: int| 0 <= i < j < active_regs(rest@).len() implies
                #[trigger] active_regs(rest@)[i] != #[trigger] active_regs(rest@)[j] by {
                let ii = if i < m { i } else { i + 1 };
                let jj = if j < m { j } else { j + 1 };
                assert(active_regs(rest@)[i] == active_regs(r0)[ii]);
                assert(active_regs(rest@)[j] == active_regs(r0)[jj]);
            }
        }
        let ghost fr0 = free@;
        free.push(a.reg);
        proof {
            assert forall|i: int, j: int| 0 <= i < j < free@.len() implies #[trigger] free@[i] != #[trigger] free@[j] by {
                if j == free@.len() - 1 {
                    assert(active_regs(r0)[m as int] == a.reg);
                    assert(fr0[i] != active_regs(r0)[m as int]);
                }
            }
            assert forall|i: int, j: int| 0 <= i < free@.len() && 0 <= j < active_regs(rest@).len() implies
                #[trigger] free@[i] != #[trigger] active_regs(rest@)[j] by {
                let jj = if j < m { j } else { j + 1 };
                assert(active_regs(rest@)[j] == active_regs(r0)[jj]);
                if i == free@.len() - 1 {
                    assert(active_regs(r0)[m as int] == a.reg);
                } else {
                    assert(fr0[i] != active_regs(r0)[jj]);
                }
            }
            assert forall|i: int| 0 <= i < free@.len() implies f0.contains(#[trigger] free@[i]) || e0.contains(free@[i]) by {
                if i == free@.len() - 1 {
                    assert(e0.contains(r0[m as int].reg));
                } else {
                    assert(free@[i] == fr0[i]);
                }
            }
            assert forall|i: int| 0 <= i < rest@.len() implies e0.contains(#[trigger] rest@[i].reg) by {
                let ii = if i < m { i } else { i + 1 };
                assert(rest@[i] == r0[ii]);
            }
        }
    }
}


/// The state of the linear scan after the first `k` intervals.
pub open spec fn scan_state_ok(
    ivs: Seq<LiveInterval>, k: int, nv: int, flags: Seq<bool>, free: Seq<u8>, active: Seq<ActiveInterval>,
    act_idx: Seq<int>, locs: Seq<Loc>, spilled: Seq<usize>,
) -> bool {
    &&& 0 <= k <= ivs.len()
    &&& locs.len() == nv
    &&& flags == reg_flags(ivs, k)
    &&& flags.len() == k
    &&& free.len() + active.len() == NUM_REGS
    &&& regs_valid(free) && regs_valid(active_regs(active))
    &&& regs_distinct(free) && regs_distinct(active_regs(active)) && regs_disjoint(free, active_regs(active))
    &&& act_idx.len() == active.len()
    &&& forall|i: int, j: int| 0 <= i < j < act_idx.len() ==> #[trigger] act_idx[i] < #[trigger] act_idx[j]
    &&& forall|i: int| 0 <= i < act_idx.len() ==> {
        &&& 0 <= #[trigger] act_idx[i] < k
        &&& flags[act_idx[i]]
        &&& active[i].end == ivs[act_idx[i]].end
        &&& active[i].value == ivs[act_idx[i]].value
        &&& locs[ivs[act_idx[i]].value as int] == Loc::Reg(active[i].reg)
    }
    &&& forall|j: int| 0 <= j < k && flags[j] && (j + 1 == k || ivs[j].end >= ivs[k - 1].start) ==> #[trigger] act_idx.contains(j)
    &&& forall|j: int| 0 <= j < k ==> (flags[j] <==> (#[trigger] locs[ivs[j].value as int]) is Reg)
    &&& forall|j: int| 0 <= j < k && flags[j] ==> (#[trigger] locs[ivs[j].value as int])->Reg_0 < NUM_REGS
    &&& forall|v: int| 0 <= v < nv && (forall|j: int| 0 <= j < k ==> ivs[j].value != v) ==> #[trigger] locs[v] == Loc::Unassigned
    &&& forall|j1: int, j2: int| 0 <= j1 < j2 < k && (#[trigger] locs[ivs[j1].value as int]) is Reg
        && locs[ivs[j1].value as int] == #[trigger] locs[ivs[j2].value as int] ==> ivs[j1].end < ivs[j2].start
    &&& spilled == spilled_upto(ivs, flags, k)
    &&& forall|v: int| 0 <= v < nv ==> !(#[trigger] locs[v] is Slot)
}

/// The interval facts that the scan relies on.
pub open spec fn ivs_facts(ivs: Seq<LiveInterval>, nv: int) -> bool {
    &&& forall|j: int| 0 <= j < ivs.len() ==> (#[trigger] ivs[j]).value < nv
    &&& forall|j: int, k: int| 0 <= j < k < ivs.len() ==> (#[trigger] ivs[j]).value != (#[trigger] ivs[k]).value
    &&& forall|j: int, k: int| 0 <= j < k < ivs.len() ==> (#[trigger] ivs[j]).start < (#[trigger] ivs[k]).start
}

/// One step of the linear scan: frees the registers of the intervals that
/// ended before interval `k` starts, then gives it a free register or
/// spills it.
fn scan_step(
    ivs: &Vec<LiveInterval>, k: usize, free: &mut Vec<u8>, active: &mut Vec<ActiveInterval>,
    locs: &mut Vec<Loc>, spilled: &mut Vec<usize>, Ghost(act_idx): Ghost<Seq<int>>,
) -> (new_idx: Ghost<Seq<int>>)
    requires
        k < ivs@.len(),
        ivs_facts(ivs@, old(locs)@.len() as int),
        scan_state_ok(ivs@, k as int, old(locs)@.len() as int, reg_flags(ivs@, k as int), old(free)@, old(active)@, act_idx, old(locs)@, old(spilled)@),
    ensures
        scan_state_ok(ivs@, k + 1, old(locs)@.len() as int, reg_flags(ivs@, k + 1), final(free)@, final(active)@, new_idx@, final(locs)@, final(spilled)@),
{
    let ghost iv = ivs@;
    let ghost flags = reg_flags(iv, k as int);
    let ghost nv = locs@.len() as int;
    let cur = ivs[k];
    let (kept, expired, Ghost(kp), Ghost(ep)) = split_active(active, cur.start);
    let ghost a0 = active@;
    let ghost kept_idx = kp.map_values(|p: int| act_idx[p]);
    proof {
        lemma_reg_flags_len(iv, k as int);
        // the registers of `kept` and `expired` are those of distinct active intervals
        assert forall|t1: int, t2: int| 0 <= t1 < t2 < active_regs(kept@).len() implies
            #[trigger] active_regs(kept@)[t1] != #[trigger] active_regs(kept@)[t2] by {
            assert(kp[t1] < kp[t2]);
            assert(active_regs(a0)[kp[t1]] != active_regs(a0)[kp[t2]]);
        }
        assert forall|t1: int, t2: int| 0 <= t1 < t2 < active_regs(expired@).len() implies
            #[trigger] active_regs(expired@)[t1] != #[trigger] active_regs(expired@)[t2] by {
            assert(ep[t1] < ep[t2]);
            assert(active_regs(a0)[ep[t1]] != active_regs(a0)[ep[t2]]);
        }
        assert forall|i: int, t: int| 0 <= i < free@.len() && 0 <= t < active_regs(expired@).len() implies
            #[trigger] free@[i] != #[trigger] active_regs(expired@)[t] by {
            assert(active_regs(expired@)[t] == active_regs(a0)[ep[t]]);
        }
        // the live intervals at `k` are exactly those of `kept`
        assert forall|t1: int, t2: int| 0 <= t1 < t2 < kept_idx.len() implies #[trigger] kept_idx[t1] < #[trigger] kept_idx[t2] by {
            assert(kp[t1] < kp[t2]);
            assert(act_idx[kp[t1]] < act_idx[kp[t2]]);
        }
        assert forall|t: int| 0 <= t < kept_idx.len() implies 0 <= #[trigger] kept_idx[t] < k by {
            assert(0 <= act_idx[kp[t]] < k);
        }
        assert forall|t: int| 0 <= t < kept_idx.len() implies live_at(iv, flags, k as int, #[trigger] kept_idx[t]) by {
            assert(0 <= act_idx[kp[t]] < k);
            assert(a0[kp[t]].end == iv[act_idx[kp[t]]].end);
        }
        assert forall|x: int| 0 <= x < k && live_at(iv, flags, k as int, x) implies kept_idx.contains(x) by {
            assert(iv[k - 1].start < iv[k as int].start);
            assert(act_idx.contains(x));
            let i = choose|i: int| 0 <= i < act_idx.len() && act_idx[i] == x;
            assert(a0[i].end == iv[x].end);
            assert(kp.contains(i));
            let t = choose|t: int| 0 <= t < kp.len() && kp[t] == i;
            assert(kept_idx[t] == x);
        }
        lemma_count_sorted(kept_idx, iv, flags, k as int, k as int);
    }
    release_expired(free, expired);
    let ghost fr = free@;
    proof {
        assert forall|i: int, t: int| 0 <= i < fr.len() && 0 <= t < active_regs(kept@).len() implies
            #[trigger] fr[i] != #[trigger] active_regs(kept@)[t] by {
            assert(active_regs(kept@)[t] == active_regs(a0)[kp[t]]);
            if old(free)@.contains(fr[i]) {
                let i0 = choose|i0: int| 0 <= i0 < old(free)@.len() && old(free)@[i0] == fr[i];
                assert(old(free)@[i0] != active_regs(a0)[kp[t]]);
            } else {
                assert(active_regs(expired@).contains(fr[i]));
                let t0 = choose|t0: int| 0 <= t0 < active_regs(expired@).len() && active_regs(expired@)[t0] == fr[i];
                assert(active_regs(expired@)[t0] == active_regs(a0)[ep[t0]]);
                assert(ep[t0] != kp[t]);
            }
        }
        assert forall|i: int| 0 <= i < fr.len() implies #[trigger] fr[i] < NUM_REGS by {
            if old(free)@.contains(fr[i]) {
                let i0 = choose|i0: int| 0 <= i0 < old(free)@.len() && old(free)@[i0] == fr[i];
            } else {
                let t0 = choose|t0: int| 0 <= t0 < active_regs(expired@).len() && active_regs(expired@)[t0] == fr[i];
                assert(active_regs(expired@)[t0] == active_regs(a0)[ep[t0]]);
            }
        }
    }
    *active = kept;
    let ghost flags1 = reg_flags(iv, k + 1);
    proof {
        lemma_reg_flags_len(iv, k + 1);
        assert(flags1 == flags.push(kept_idx.len() < NUM_REGS));
    }
    let ghost l0 = locs@;
    match free.pop() {
        Some(r) => {
            locs.set(cur.value, Loc::Reg(r));
            active.push(ActiveInterval { end: cur.end, value: cur.value, reg: r });
            let ghost new_idx = kept_idx.push(k as int);
            proof {
                assert(fr[fr.len() - 1] == r);
                assert forall|j1: int, j2: int| 0 <= j1 < j2 < k + 1 && (#[trigger] locs@[iv[j1].value as int]) is Reg
                    && locs@[iv[j1].value as int] == #[trigger] locs@[iv[j2].value as int] implies iv[j1].end < iv[j2].start by {
                    if j2 == k {
                        assert(flags[j1]);
                        if live_at(iv, flags, k as int, j1) {
                            assert(kept_idx.contains(j1));
                            let t = choose|t: int| 0 <= t < kept_idx.len() && kept_idx[t] == j1;
                            assert(act_idx[kp[t]] == j1);
                            assert(active_regs(kept@)[t] == r);
                            assert(fr[fr.len() - 1] != active_regs(kept@)[t]);
                        }
                    }
                }
                assert forall|v: int| 0 <= v < nv && (forall|j: int| 0 <= j < k + 1 ==> iv[j].value != v) implies #[trigger] locs@[v] == Loc::Unassigned by {
                    assert(iv[k as int].value != v);
                }
                assert forall|j: int| 0 <= j < k + 1 && flags1[j] && (j + 1 == k + 1 || iv[j].end >= iv[k as int].start) implies #[trigger] new_idx.contains(j) by {
                    if j == k {
                        assert(new_idx[new_idx.len() - 1] == j);
                    } else {
                        assert(flags1[j] == flags[j]);
                        assert(live_at(iv, flags, k as int, j));
                        assert(kept_idx.contains(j));
                        let t = choose|t: int| 0 <= t < kept_idx.len() && kept_idx[t] == j;
                        assert(new_idx[t] == j);
                    }
                }
                assert forall|i: int| 0 <= i < new_idx.len() implies {
                    &&& 0 <= #[trigger] new_idx[i] < k + 1
                    &&& flags1[new_idx[i]]
                    &&& active@[i].end == iv[new_idx[i]].end
                    &&& active@[i].value == iv[new_idx[i]].value
                    &&& locs@[iv[new_idx[i]].value as int] == Loc::Reg(active@[i].reg)
                } by {
                    if i < kept_idx.len() {
                        assert(0 <= act_idx[kp[i]] < k);
                        assert(iv[act_idx[kp[i]]].value != iv[k as int].value);
                    }
                }
                assert forall|i: int, j: int| 0 <= i < j < new_idx.len() implies #[trigger] new_idx[i] < #[trigger] new_idx[j] by {
                    if j == new_idx.len() - 1 { assert(0 <= kept_idx[i] < k); }
                }
                assert forall|t1: int, t2: int| 0 <= t1 < t2 < active_regs(active@).len() implies
                    #[trigger] active_regs(active@)[t1] != #[trigger] active_regs(active@)[t2] by {
                    if t2 == active@.len() - 1 {
                        assert(fr[fr.len() - 1] != active_regs(kept@)[t1]);
                    } else {
                        assert(active_regs(kept@)[t1] != active_regs(kept@)[t2]);
                    }
                }
                assert forall|i: int, t: int| 0 <= i < free@.len() && 0 <= t < active_regs(active@).len() implies
                    #[trigger] free@[i] != #[trigger] active_regs(active@)[t] by {
                    if t == active@.len() - 1 {
                        assert(fr[i] != fr[fr.len() - 1]);
                    } else {
                        assert(fr[i] != active_regs(kept@)[t]);
                    }
                }
                assert forall|t: int| 0 <= t < active_regs(active@).len() implies #[trigger] active_regs(active@)[t] < NUM_REGS by {
                    if t < active@.len() - 1 {
                        assert(active_regs(kept@)[t] == active_regs(a0)[kp[t]]);
                    }
                }
                assert forall|j: int| 0 <= j < k + 1 implies (flags1[j] <==> (#[trigger] locs@[iv[j].value as int]) is Reg) by {
                    if j < k { assert(iv[j].value != iv[k as int].value); }
                }
                assert forall|j: int| 0 <= j < k + 1 && flags1[j] implies (#[trigger] locs@[iv[j].value as int])->Reg_0 < NUM_REGS by {
                    if j < k { assert(iv[j].value != iv[k as int].value); }
                }
                assert(spilled_upto(iv, flags1, k + 1) == spilled_upto(iv, flags1, k as int));
                assert(flags1.take(k as int) =~= flags);
                lemma_spilled_prefix(iv, flags1, flags, k as int);
            }
            Ghost(new_idx)
        },
        None => {
            spilled.push(cur.value);
            proof {
                assert forall|j: int| 0 <= j < k + 1 && flags1[j] && (j + 1 == k + 1 || iv[j].end >= iv[k as int].start) implies #[trigger] kept_idx.contains(j) by {
                    assert(live_at(iv, flags, k as int, j));
                }
                assert forall|v: int| 0 <= v < nv && (forall|j: int| 0 <= j < k + 1 ==> iv[j].value != v) implies #[trigger] locs@[v] == Loc::Unassigned by {
                    assert(forall|j: int| 0 <= j < k ==> iv[j].value != v);
                }
                assert forall|i: int| 0 <= i < kept_idx.len() implies {
                    &&& 0 <= #[trigger] kept_idx[i] < k + 1
                    &&& flags1[kept_idx[i]]
                    &&& active@[i].end == iv[kept_idx[i]].end
                    &&& active@[i].value == iv[kept_idx[i]].value
                    &&& locs@[iv[kept_idx[i]].value as int] == Loc::Reg(active@[i].reg)
                } by {
                    assert(0 <= act_idx[kp[i]] < k);
                }
                assert forall|t: int| 0 <= t < active_regs(active@).len() implies #[trigger] active_regs(active@)[t] < NUM_REGS by {
                    assert(active_regs(kept@)[t] == active_regs(a0)[kp[t]]);
                }
                assert(locs@[iv[k as int].value as int] == Loc::Unassigned);
                assert(flags1.take(k as int) =~= flags);
                lemma_spilled_prefix(iv, flags1, flags, k as int);
            }
            Ghost(kept_idx)
        },
    }
}

proof fn lemma_spilled_prefix(ivs: Seq<LiveInterval>, f1: Seq<bool>, f0: Seq<bool>, n: int)
    requires 0 <= n <= f1.len(), f1.take(n) == f0,
    ensures spilled_upto(ivs, f1, n) == spilled_upto(ivs, f0, n),
    decreases n,
{
    if n > 0 {
        assert(f1.take(n - 1) == f0.take(n - 1));
        lemma_spilled_prefix(ivs, f1, f0.take(n - 1), n - 1);
        lemma_spilled_prefix(ivs, f0, f0.take(n - 1), n - 1);
        assert(f0[n - 1] == f1[n - 1]);
    }
}


proof fn lemma_spilled_facts(ivs: Seq<LiveInterval>, flags: Seq<bool>, n: int)
    requires
        0 <= n <= ivs.len(), n <= flags.len(),
        forall|j: int, k: int| 0 <= j < k < ivs.len() ==> (#[trigger] ivs[j]).value != (#[trigger] ivs[k]).value,
    ensures
        forall|i: int| 0 <= i < spilled_upto(ivs, flags, n).len() ==>
            exists|j: int| 0 <= j < n && !flags[j] && #[trigger] spilled_upto(ivs, flags, n)[i] == ivs[j].value,
        forall|i1: int, i2: int| 0 <= i1 < i2 < spilled_upto(ivs, flags, n).len() ==>
            #[trigger] spilled_upto(ivs, flags, n)[i1] != #[trigger] spilled_upto(ivs, flags, n)[i2],
    decreases n,
{
    if n > 0 {
        lemma_spilled_facts(ivs, flags, n - 1);
        let s0 = spilled_upto(ivs, flags, n - 1);
        let s1 = spilled_upto(ivs, flags, n);
        if !flags[n - 1] {
            assert forall|i: int| 0 <= i < s1.len() implies
                exists|j: int| 0 <= j < n && !flags[j] && #[trigger] s1[i] == ivs[j].value by {
                if i < s0.len() {
                    assert(s1[i] == s0[i]);
                    let j = choose|j: int| 0 <= j < n - 1 && !flags[j] && s0[i] == ivs[j].value;
                } else {
                    assert(s1[i] == ivs[n - 1].value);
                }
            }
            assert forall|i1: int, i2: int| 0 <= i1 < i2 < s1.len() implies #[trigger] s1[i1] != #[trigger] s1[i2] by {
                if i2 == s1.len() - 1 {
                    assert(s1[i1] == s0[i1]);
                    let j = choose|j: int| 0 <= j < n - 1 && !flags[j] && s0[i1] == ivs[j].value;
                    assert(ivs[j].value != ivs[n - 1].value);
                } else {
                    assert(s1[i1] == s0[i1] && s1[i2] == s0[i2]);
                }
            }
        } else {
            assert forall|i: int| 0 <= i < s1.len() implies
                exists|j: int| 0 <= j < n && !flags[j] && #[trigger] s1[i] == ivs[j].value by {
                let j = choose|j: int| 0 <= j < n - 1 && !flags[j] && s0[i] == ivs[j].value;
            }
        }
    }
}

impl LinearScanAlloc {
    /// The allocator's state is consistent: registers are `a0`..`a7`, and
    /// stack slots lie within the frame.
    pub closed spec fn wf(&self) -> bool {
        forall|v: int| 0 <= v < self.locs@.len() ==> match #[trigger] self.locs@[v] {
            Loc::Reg(n) => n < NUM_REGS,
            Loc::Slot(s) => 4 <= s <= self.stack_count,
            Loc::Unassigned => true,
        }
    }

    /// A new allocator: registers `a0`..`a7` free, scratch registers `t5`
    /// and `t6` (`t6` handed out first).
    pub fn new() -> (r: Self)
        ensures
            r.is_fresh(), r.wf(),
            r.scratch() == seq!["t5"@, "t6"@],
            r.frame_size() == 0,
            r.locations().len() == 0,
    {
        let r = LinearScanAlloc {
            free_regs: vec![0u8, 1u8, 2u8, 3u8, 4u8, 5u8, 6u8, 7u8],
            locs: Vec::new(),
            stack_count: 0,
            scratch_regs: vec![String::from_str("t5"), String::from_str("t6")],
        };
        assert(r.scratch() =~= seq!["t5"@, "t6"@]);
        r
    }

    /// Computes the live intervals of `f` and places each value: a register
    /// of `a0`..`a7` by linear scan, or a stack slot for spilled values and
    /// local allocations. Fails where the function refers to a missing
    /// value, uses a global value as a register operand, or its frame does
    /// not fit in `usize`; then nothing changes.
    pub fn allocate(&mut self, f: &FunctionData) -> (r: Result<(), CompileError>)
        requires
            old(self).is_fresh(),
        ensures
            final(self).scratch() == old(self).scratch(),
            match r {
                Ok(()) => {
                    &&& scan_error(*f, num_points(*f)) is None
                    &&& 4 * stack_order(*f).len() <= usize::MAX
                    &&& final(self).placed(*f)
                    &&& final(self).wf()
                },
                Err(e) => {
                    &&& *final(self) == *old(self)
                    &&& (scan_error(*f, num_points(*f)) == Some(e) || (scan_error(*f, num_points(*f)) is None
                        && e == CompileError::Overflow && 4 * stack_order(*f).len() > usize::MAX))
                },
            },
    {
        let sc = match scan_points(f) {
            Ok(sc) => sc,
            Err(e) => return Err(e),
        };
        let (ivs, allocs) = collect_intervals(f, &sc);
        proof { lemma_interval_values(*f); }
        let ghost iv = ivs@;
        let nv = f.values.len();
        let mut locs: Vec<Loc> = Vec::new();
        let mut i: usize = 0;
        while i < nv
            invariant
                i <= nv, locs@.len() == i,
                forall|v: int| 0 <= v < i ==> #[trigger] locs@[v] == Loc::Unassigned,
            decreases nv - i,
        {
            locs.push(Loc::Unassigned);
            i = i + 1;
        }
        let mut free = self.free_regs.clone();
        assert(free@ =~= seq![0u8, 1u8, 2u8, 3u8, 4u8, 5u8, 6u8, 7u8]);
        let mut active: Vec<ActiveInterval> = Vec::new();
        let mut spilled: Vec<usize> = Vec::new();
        let ghost mut act_idx: Seq<int> = seq![];
        proof {
            assert(active_regs(active@) =~= seq![]);
            assert(intervals_ok(*f, iv));
            assert(ivs_facts(iv, nv as int));
        }
        let n = ivs.len();
        let mut k: usize = 0;
        while k < n
            invariant
                n == iv.len(), iv == ivs@, iv == live_intervals(*f),
                nv == f.values@.len(), locs@.len() == nv,
                k <= n,
                ivs_facts(iv, nv as int),
                scan_state_ok(iv, k as int, nv as int, reg_flags(iv, k as int), free@, active@, act_idx, locs@, spilled@),
            decreases n - k,
        {
            let Ghost(ni) = scan_step(&ivs, k, &mut free, &mut active, &mut locs, &mut spilled, Ghost(act_idx));
            proof { act_idx = ni; }
            k = k + 1;
        }
        let ghost flags = reg_flags(iv, n as int);
        let ghost l0 = locs@;
        proof {
            lemma_reg_flags_len(iv, n as int);
            assert(flags == register_flags(*f));
            lemma_spilled_facts(iv, flags, n as int);
        }
        let mut order = spilled;
        let mut al = allocs;
        order.append(&mut al);
        let no = order.len();
        if no > usize::MAX / 4 {
            return Err(CompileError::Overflow);
        }
        let stack_count = no * 4;
        let ghost ord = order@;
        proof {
            assert(ord == stack_order(*f));
            let sp = spilled_upto(iv, flags, n as int);
            let al0 = local_allocs(*f);
            assert(allocs_ok(*f, al0));
            assert forall|i1: int, i2: int| 0 <= i1 < i2 < ord.len() implies #[trigger] ord[i1] != #[trigger] ord[i2] by {
                if i2 < sp.len() {
                } else if i1 >= sp.len() {
                    assert(ord[i1] == al0[i1 - sp.len()] && ord[i2] == al0[i2 - sp.len()]);
                } else {
                    let j = choose|j: int| 0 <= j < n && !flags[j] && sp[i1] == iv[j].value;
                    assert(ord[i2] == al0[i2 - sp.len()]);
                    assert(iv[j].value != al0[i2 - sp.len()]);
                }
            }
            assert forall|i: int| 0 <= i < ord.len() implies #[trigger] ord[i] < nv && !(l0[ord[i] as int] is Reg) by {
                if i < sp.len() {
                    let j = choose|j: int| 0 <= j < n && !flags[j] && sp[i] == iv[j].value;
                    assert(!(l0[iv[j].value as int] is Reg));
                } else {
                    let a = al0[i - sp.len()];
                    assert(ord[i] == a);
                    if !(forall|j: int| 0 <= j < n ==> iv[j].value != a) {
                        let j = choose|j: int| !(0 <= j < n ==> iv[j].value != a);
                        assert(iv[j].value != al0[i - sp.len()]);
                    }
                }
            }
        }
        let mut idx: usize = 0;
        while idx < no
            invariant
                no == ord.len(), ord == order@, stack_count == 4 * no,
                idx <= no, locs@.len() == nv,
                forall|i1: int, i2: int| 0 <= i1 < i2 < ord.len() ==> #[trigger] ord[i1] != #[trigger] ord[i2],
                forall|i: int| 0 <= i < ord.len() ==> #[trigger] ord[i] < nv && !(l0[ord[i] as int] is Reg),
                forall|i: int| 0 <= i < idx ==> #[trigger] locs@[ord[i] as int] == Loc::Slot((4 * (no - i)) as usize),
                forall|v: int| 0 <= v < nv && !(exists|i: int| 0 <= i < idx && ord[i] == v) ==> #[trigger] locs@[v] == l0[v],
                l0.len() == nv,
            decreases no - idx,
        {
            let v = order[idx];
            let ghost lp = locs@;
            locs.set(v, Loc::Slot(stack_count - idx * 4));
            proof {
                assert forall|i: int| 0 <= i < idx + 1 implies #[trigger] locs@[ord[i] as int] == Loc::Slot((4 * (no - i)) as usize) by {
                    if i < idx { assert(ord[i] != ord[idx as int]); }
                }
                assert forall|w: int| 0 <= w < nv && !(exists|i: int| 0 <= i < idx + 1 && ord[i] == w) implies #[trigger] locs@[w] == l0[w] by {
                    assert(ord[idx as int] != w);
                    assert(!(exists|i: int| 0 <= i < idx && ord[i] == w));
                }
            }
            idx = idx + 1;
        }
        proof {
            let sp = spilled_upto(iv, flags, n as int);
            let al0 = local_allocs(*f);
            assert forall|v: int| 0 <= v < nv && !(exists|i: int| 0 <= i < no && ord[i] == v) implies #[trigger] locs@[v] == l0[v] by {}
            assert forall|k: int| 0 <= k < n implies (flags[k] <==> (#[trigger] locs@[iv[k].value as int]) is Reg) by {
                let v = iv[k].value as int;
                if exists|i: int| 0 <= i < no && ord[i] == v {
                    let i = choose|i: int| 0 <= i < no && ord[i] == v;
                    assert(!(l0[v] is Reg));
                } else {
                    assert(locs@[v] == l0[v]);
                }
            }
            assert forall|k: int| 0 <= k < n && flags[k] implies (#[trigger] locs@[iv[k].value as int])->Reg_0 < NUM_REGS by {
                let v = iv[k].value as int;
                if exists|i: int| 0 <= i < no && ord[i] == v {
                    let i = choose|i: int| 0 <= i < no && ord[i] == v;
                    assert(!(l0[v] is Reg));
                } else {
                    assert(locs@[v] == l0[v]);
                }
            }
            assert forall|v: int| 0 <= v < nv && (forall|k: int| 0 <= k < n ==> iv[k].value != v)
                && !al0.contains(v as usize) implies #[trigger] locs@[v] == Loc::Unassigned by {
                if exists|i: int| 0 <= i < no && ord[i] == v {
                    let i = choose|i: int| 0 <= i < no && ord[i] == v;
                    if i < sp.len() {
                        let j = choose|j: int| 0 <= j < n && !flags[j] && sp[i] == iv[j].value;
                    } else {
                        assert(al0[i - sp.len()] == v);
                    }
                } else {
                    assert(locs@[v] == l0[v]);
                }
            }
            assert forall|j: int, k: int| 0 <= j < k < n && (#[trigger] locs@[iv[j].value as int]) is Reg
                && locs@[iv[j].value as int] == #[trigger] locs@[iv[k].value as int] implies iv[j].end < iv[k].start by {
                let vj = iv[j].value as int;
                let vk = iv[k].value as int;
                if exists|i: int| 0 <= i < no && ord[i] == vj {
                    let i = choose|i: int| 0 <= i < no && ord[i] == vj;
                    assert(!(l0[vj] is Reg));
                }
                if exists|i: int| 0 <= i < no && ord[i] == vk {
                    let i = choose|i: int| 0 <= i < no && ord[i] == vk;
                    assert(!(l0[vk] is Reg));
                }
                assert(locs@[vj] == l0[vj] && locs@[vk] == l0[vk]);
            }
            assert forall|v: int| 0 <= v < locs@.len() implies match #[trigger] locs@[v] {
                Loc::Reg(r) => r < NUM_REGS,
                Loc::Slot(s) => 4 <= s <= stack_count,
                Loc::Unassigned => true,
            } by {
                if exists|i: int| 0 <= i < no && ord[i] == v {
                    let i = choose|i: int| 0 <= i < no && ord[i] == v;
                    assert(locs@[ord[i] as int] == Loc::Slot((4 * (no - i)) as usize));
                } else {
                    assert(locs@[v] == l0[v]);
                    assert(!(l0[v] is Slot));
                    if l0[v] is Reg {
                        if !(forall|j: int| 0 <= j < n ==> iv[j].value != v) {
                            let j = choose|j: int| !(0 <= j < n ==> iv[j].value != v);
                        }
                    }
                }
            }
        }
        self.free_regs = free;
        self.locs = locs;
        self.stack_count = stack_count;
        Ok(())
    }
}


/// The name of register `a<n>`.
pub open spec fn reg_name(n: u8) -> Seq<char> {
    seq!['a'] + dec_nat(n as nat)
}

/// `r` is where the allocation `locs` puts `v`: a register by its name, a
/// stack slot by its offset from `sp`, or nowhere (global values and values
/// that need no place).
pub open spec fn location_of(locs: Seq<Loc>, v: Value, r: VariableLocation) -> bool {
    match v {
        Value::Local(i) => if i < locs.len() {
            match locs[i as int] {
                Loc::Reg(n) => r matches VariableLocation::Register(s) && s@ == reg_name(n),
                Loc::Slot(s) => r == VariableLocation::Stack((s - 4) as usize),
                Loc::Unassigned => r is Nowhere,
            }
        } else {
            r is Nowhere
        },
        Value::Global(_) => r is Nowhere,
    }
}

impl LinearScanAlloc {
    /// The size of the stack frame in bytes.
    pub fn get_stack_count(&self) -> (r: usize)
        ensures r == self.frame_size(),
    {
        self.stack_count
    }

    /// Hands out the scratch register last given back (or `t6`, then `t5`
    /// on a new allocator).
    pub fn acquire_scratch(&mut self) -> (r: String)
        requires old(self).scratch().len() > 0,
        ensures
            r@ == old(self).scratch().last(),
            final(self).scratch() == old(self).scratch().drop_last(),
            final(self).locations() == old(self).locations(),
            final(self).frame_size() == old(self).frame_size(),
            old(self).wf() ==> final(self).wf(),
    {
        let ghost s0 = self.scratch_regs@;
        let r = match self.scratch_regs.pop() {
            Some(r) => r,
            None => String::new(),
        };
        assert(self.scratch() =~= old(self).scratch().drop_last());
        r
    }

    /// How many scratch registers are free.
    pub fn scratch_len(&self) -> (r: usize)
        ensures r == self.scratch().len(),
    {
        self.scratch_regs.len()
    }

    /// Gives a scratch register back.
    pub fn release_scratch(&mut self, reg: String)
        ensures
            final(self).scratch() == old(self).scratch().push(reg@),
            final(self).locations() == old(self).locations(),
            final(self).frame_size() == old(self).frame_size(),
            old(self).wf() ==> final(self).wf(),
    {
        let ghost v = reg@;
        self.scratch_regs.push(reg);
        assert(self.scratch() =~= old(self).scratch().push(v));
    }

    /// Where the code generator finds `value`.
    pub fn get_variable(&self, value: &Value) -> (r: VariableLocation)
        requires self.wf(),
        ensures location_of(self.locations(), *value, r),
    {
        match value {
            Value::Local(i) => {
                if *i < self.locs.len() {
                    match self.locs[*i] {
                        Loc::Reg(n) => {
                            let name = str_with_u64("a", n as u64);
                            proof {
                                reveal_strlit("a");
                                assert(name@ =~= reg_name(n));
                            }
                            VariableLocation::Register(name)
                        },
                        Loc::Slot(s) => {
                            proof { assert(match self.locs@[*i as int] {
                                Loc::Reg(n) => n < NUM_REGS,
                                Loc::Slot(s) => 4 <= s <= self.stack_count,
                                Loc::Unassigned => true,
                            }); }
                            VariableLocation::Stack(s - 4)
                        },
                        Loc::Unassigned => VariableLocation::Nowhere,
                    }
                } else {
                    VariableLocation::Nowhere
                }
            },
            Value::Global(_) => VariableLocation::Nowhere,
        }
    }
}


/// Under a placement that `allocate` may compute, the values on the stack
/// have slots of their own, four bytes apart, inside the frame; and no two
/// intervals that hold the same register overlap.
pub proof fn law_slots_and_registers(f: FunctionData, locs: Seq<Loc>, frame: nat)
    requires placement_ok(f, locs, frame),
    ensures
        forall|i: int| 0 <= i < stack_order(f).len() ==> (#[trigger] locs[stack_order(f)[i] as int]) is Slot
            && 4 <= locs[stack_order(f)[i] as int]->Slot_0 <= frame
            && locs[stack_order(f)[i] as int]->Slot_0 % 4 == 0,
        forall|i: int, j: int| 0 <= i < j < stack_order(f).len() ==>
            #[trigger] locs[stack_order(f)[i] as int] != #[trigger] locs[stack_order(f)[j] as int],
        forall|j: int, k: int| 0 <= j < k < live_intervals(f).len()
            && (#[trigger] locs[live_intervals(f)[j].value as int]) is Reg
            && locs[live_intervals(f)[j].value as int] == #[trigger] locs[live_intervals(f)[k].value as int]
            ==> live_intervals(f)[j].end < live_intervals(f)[k].start,
{
    let order = stack_order(f);
    assert forall|i: int| 0 <= i < order.len() implies (#[trigger] locs[order[i] as int]) is Slot
        && 4 <= locs[order[i] as int]->Slot_0 <= frame && locs[order[i] as int]->Slot_0 % 4 == 0 by {
        assert(locs[order[i] as int] == Loc::Slot((4 * (order.len() - i)) as usize));
    }
    assert forall|i: int, j: int| 0 <= i < j < order.len() implies
        #[trigger] locs[order[i] as int] != #[trigger] locs[order[j] as int] by {
        assert(locs[order[i] as int] == Loc::Slot((4 * (order.len() - i)) as usize));
        assert(locs[order[j] as int] == Loc::Slot((4 * (order.len() - j)) as usize));
    }
}

} // verus!
