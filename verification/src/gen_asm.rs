//! RISC-V text for whole functions and programs: the frame set up and torn
//! down around the body, block labels, each instruction in layout order, and
//! the data section of the global variables.
use crate::error::CompileError;
use crate::gen_asm_exp::{
    alloc_kept, bb_label, fn_names_view, branch_result, call_result, fits_i12_spec, ins1_text, ins2_text, kind_of, load_result, load_sp_text,
    loc_of, logic_result, names_view, process_alloc_inst, process_and_inst, process_branch_inst, process_call_inst,
    process_eq_inst, process_ge_inst, process_getelemptr_inst, process_getptr_inst, process_inst, process_jump_inst,
    process_le_inst, process_load_inst, process_neq_inst, process_or_inst, process_store_inst, ptr_inst_result,
    store_result, store_sp_text, strip_sigil, text_ins2, num_i32, value_kind, with_operands,
};
use crate::ir::{ty_size, BinaryOp, FunctionData, Program, Value, ValueData, ValueKind};
use crate::reg_alloc::{alloc_error, placement_ok, reg_name, LinearScanAlloc, Loc, VariableLocation};
use crate::util::{append_i32, append_isize, append_usize, dec_int, dec_nat, str_eq};
use vstd::prelude::*;
use vstd::string::StrSliceExecFns;

verus! {

/// Whether `x` fits in a 12-bit signed immediate.
fn fits_i12(x: isize) -> (r: bool)
    ensures r == fits_i12_spec(x as int),
{
    -2048 <= x && x <= 2047
}

/// `sp += delta`: nothing for zero, `addi` where it fits, else through `t0`.
pub open spec fn adjust_sp_text(delta: int) -> Seq<char> {
    if delta == 0 {
        Seq::<char>::empty()
    } else if fits_i12_spec(delta) {
        "\taddi sp, sp, "@ + dec_int(delta) + "\n"@
    } else {
        "\tli t0, "@ + dec_int(delta) + "\n\tadd sp, sp, t0\n"@
    }
}

/// `sp += delta`.
fn emit_adjust_sp(delta: isize) -> (r: String)
    ensures r@ == adjust_sp_text(delta as int),
{
    let mut s = String::new();
    if delta == 0 {
        return s;
    }
    if fits_i12(delta) {
        s.append("\taddi sp, sp, ");
        append_isize(&mut s, delta);
        s.append("\n");
    } else {
        s.append("\tli t0, ");
        append_isize(&mut s, delta);
        s.append("\n\tadd sp, sp, t0\n");
    }
    assert(s@ =~= adjust_sp_text(delta as int));
    s
}

/// `sw src, offset(sp)`, through `t0` for a large offset.
fn emit_store_to_sp(src: &str, offset: usize) -> (r: String)
    ensures r@ == store_sp_text(src@, offset, "t0"@),
{
    let mut s = String::new();
    if fits_i12(offset as isize) {
        s.append("\tsw ");
        s.append(src);
        s.append(", ");
        append_usize(&mut s, offset);
        s.append("(sp)\n");
    } else {
        s.append("\tli ");
        s.append("t0");
        s.append(", ");
        append_usize(&mut s, offset);
        s.append("\n\tadd ");
        s.append("t0");
        s.append(", sp, ");
        s.append("t0");
        s.append("\n\tsw ");
        s.append(src);
        s.append(", 0(");
        s.append("t0");
        s.append(")\n");
    }
    assert(s@ =~= store_sp_text(src@, offset, "t0"@));
    s
}

/// `lw dst, offset(sp)`, through `t0` for a large offset.
fn emit_load_from_sp(dst: &str, offset: usize) -> (r: String)
    ensures r@ == load_sp_text(dst@, offset, "t0"@),
{
    let mut s = String::new();
    if fits_i12(offset as isize) {
        s.append("\tlw ");
        s.append(dst);
        s.append(", ");
        append_usize(&mut s, offset);
        s.append("(sp)\n");
    } else {
        s.append("\tli ");
        s.append("t0");
        s.append(", ");
        append_usize(&mut s, offset);
        s.append("\n\tadd ");
        s.append("t0");
        s.append(", sp, ");
        s.append("t0");
        s.append("\n\tlw ");
        s.append(dst);
        s.append(", 0(");
        s.append("t0");
        s.append(")\n");
    }
    assert(s@ =~= load_sp_text(dst@, offset, "t0"@));
    s
}


/// The text of a binary operation into register `t`, by operator.
pub open spec fn binary_body(f: FunctionData, locs: Seq<Loc>, op: BinaryOp, lhs: Value, rhs: Value, t: Seq<char>,
    pool: Seq<Seq<char>>) -> Result<(Seq<char>, Seq<Seq<char>>), CompileError> {
    match op {
        BinaryOp::Add => with_operands(f, locs, lhs, rhs, pool, t, "add"@, None),
        BinaryOp::Sub => with_operands(f, locs, lhs, rhs, pool, t, "sub"@, None),
        BinaryOp::Mul => with_operands(f, locs, lhs, rhs, pool, t, "mul"@, None),
        BinaryOp::Div => with_operands(f, locs, lhs, rhs, pool, t, "div"@, None),
        BinaryOp::Mod => with_operands(f, locs, lhs, rhs, pool, t, "rem"@, None),
        BinaryOp::Lt => with_operands(f, locs, lhs, rhs, pool, t, "slt"@, None),
        BinaryOp::Gt => with_operands(f, locs, lhs, rhs, pool, t, "sgt"@, None),
        BinaryOp::Eq => with_operands(f, locs, lhs, rhs, pool, t, "xor"@, Some("seqz"@)),
        BinaryOp::NotEq => with_operands(f, locs, lhs, rhs, pool, t, "xor"@, Some("snez"@)),
        BinaryOp::Le => with_operands(f, locs, lhs, rhs, pool, t, "sgt"@, Some("seqz"@)),
        BinaryOp::Ge => with_operands(f, locs, lhs, rhs, pool, t, "slt"@, Some("seqz"@)),
        BinaryOp::And => logic_result(f, locs, lhs, rhs, pool, t, "and"@),
        BinaryOp::Or => logic_result(f, locs, lhs, rhs, pool, t, "or"@),
        _ => Err(CompileError::Unsupported),
    }
}

/// What a comparison written as RISC-V computes from the values `a` and `b`
/// of its operand registers: `op1` is `slt` (`a < b`), `sgt` (`a > b`) or
/// `xor` (`a ^ b`), and `op2`, when given, `seqz` (1 for zero) or `snez` (1
/// for nonzero) applied to that; nothing for another instruction.
pub open spec fn rv_compare(op1: Seq<char>, op2: Option<Seq<char>>, a: i32, b: i32) -> Option<int> {
    let first: Option<int> = if op1 == "slt"@ {
        Some(if a < b { 1int } else { 0int })
    } else if op1 == "sgt"@ {
        Some(if a > b { 1int } else { 0int })
    } else if op1 == "xor"@ {
        Some((a ^ b) as int)
    } else {
        None
    };
    match first {
        None => None,
        Some(x) => match op2 {
            None => Some(x),
            Some(o) => if o == "seqz"@ {
                Some(if x == 0 { 1int } else { 0int })
            } else if o == "snez"@ {
                Some(if x != 0 { 1int } else { 0int })
            } else {
                None
            },
        },
    }
}

/// A comparison of the IR becomes RISC-V instructions that compute it: the
/// text of `l op r` is the loading of the operands followed by one or two
/// instructions that, for every pair of operand values, leave in the target
/// exactly the value the IR gives the comparison (1 when it holds, 0 when
/// not).
pub proof fn law_comparison_text(f: FunctionData, locs: Seq<Loc>, op: BinaryOp, lhs: Value, rhs: Value, t: Seq<char>,
    pool: Seq<Seq<char>>)
    requires op is Eq || op is NotEq || op is Lt || op is Gt || op is Le || op is Ge,
    ensures
        exists|m1: Seq<char>, m2: Option<Seq<char>>|
            binary_body(f, locs, op, lhs, rhs, t, pool) == #[trigger] with_operands(f, locs, lhs, rhs, pool, t, m1, m2)
            && forall|a: i32, b: i32| #[trigger] rv_compare(m1, m2, a, b) == Some(crate::ir::ir_binop(op, a, b)->Some_0 as int),
{
    reveal_strlit("slt");
    reveal_strlit("sgt");
    reveal_strlit("xor");
    reveal_strlit("seqz");
    reveal_strlit("snez");
    assert(forall|a: i32, b: i32| #[trigger] (a ^ b) == 0i32 <==> a == b) by (bit_vector);
    assert("sgt"@ != "slt"@) by { assert("sgt"@[1] != "slt"@[1]); }
    assert("xor"@ != "slt"@ && "xor"@ != "sgt"@) by { assert("xor"@[0] != "slt"@[0] && "xor"@[0] != "sgt"@[0]); }
    assert("snez"@ != "seqz"@) by { assert("snez"@[1] != "seqz"@[1]); }
    let (m1, m2) = match op {
        BinaryOp::Eq => ("xor"@, Some("seqz"@)),
        BinaryOp::NotEq => ("xor"@, Some("snez"@)),
        BinaryOp::Lt => ("slt"@, None),
        BinaryOp::Gt => ("sgt"@, None),
        BinaryOp::Le => ("sgt"@, Some("seqz"@)),
        _ => ("slt"@, Some("seqz"@)),
    };
    assert forall|a: i32, b: i32| #[trigger] rv_compare(m1, m2, a, b) == Some(crate::ir::ir_binop(op, a, b)->Some_0 as int) by {
        assert(((a ^ b) == 0i32) <==> a == b);
        if op is Le {
            assert(rv_compare(m1, m2, a, b) == Some(if a > b { 0int } else { 1int }));
        } else if op is Ge {
            assert(rv_compare(m1, m2, a, b) == Some(if a < b { 0int } else { 1int }));
        }
    }
    assert(binary_body(f, locs, op, lhs, rhs, t, pool) == with_operands(f, locs, lhs, rhs, pool, t, m1, m2));
}

/// The arithmetic operators of the IR become the RISC-V instruction of the
/// same operation on the loaded operands: `add`, `sub`, `mul`, `div` and
/// `rem` (the signed remainder).
pub proof fn law_arith_text(f: FunctionData, locs: Seq<Loc>, lhs: Value, rhs: Value, t: Seq<char>, pool: Seq<Seq<char>>)
    ensures
        binary_body(f, locs, BinaryOp::Add, lhs, rhs, t, pool) == with_operands(f, locs, lhs, rhs, pool, t, "add"@, None),
        binary_body(f, locs, BinaryOp::Sub, lhs, rhs, t, pool) == with_operands(f, locs, lhs, rhs, pool, t, "sub"@, None),
        binary_body(f, locs, BinaryOp::Mul, lhs, rhs, t, pool) == with_operands(f, locs, lhs, rhs, pool, t, "mul"@, None),
        binary_body(f, locs, BinaryOp::Div, lhs, rhs, t, pool) == with_operands(f, locs, lhs, rhs, pool, t, "div"@, None),
        binary_body(f, locs, BinaryOp::Mod, lhs, rhs, t, pool) == with_operands(f, locs, lhs, rhs, pool, t, "rem"@, None),
{
}

/// A binary instruction number `i`: computed into its register, or into a
/// scratch register (the last of the pool) and stored into its slot.
pub open spec fn binary_result(f: FunctionData, locs: Seq<Loc>, i: usize, op: BinaryOp, lhs: Value, rhs: Value,
    pool: Seq<Seq<char>>) -> Result<(Seq<char>, Seq<Seq<char>>), CompileError> {
    match loc_of(locs, Value::Local(i)) {
        Loc::Reg(n) => binary_body(f, locs, op, lhs, rhs, reg_name(n), pool),
        Loc::Slot(o) => if pool.len() == 0 {
            Err(CompileError::NoScratchRegister)
        } else {
            match binary_body(f, locs, op, lhs, rhs, pool.last(), pool.drop_last()) {
                Err(e) => Err(e),
                Ok((t, p)) => Ok((t + store_sp_text(pool.last(), (o - 4) as usize, "t0"@), p.push(pool.last()))),
            }
        },
        Loc::Unassigned => Err(CompileError::NoLocation),
    }
}

/// `ret`: the value into `a0`, the frame released, `ret`.
pub open spec fn return_result(f: FunctionData, locs: Seq<Loc>, frame: nat, ret: Option<Value>) -> Result<Seq<char>, CompileError> {
    let part = match ret {
        None => Ok(Seq::<char>::empty()),
        Some(v) => match kind_of(f, v) {
            Err(e) => Err(e),
            Ok(ValueKind::Integer(n)) => Ok(ins2_text("li"@, "a0"@, dec_int(n as int))),
            Ok(_) => match loc_of(locs, v) {
                Loc::Reg(n) => Ok(ins2_text("mv"@, "a0"@, reg_name(n))),
                Loc::Slot(o) => Ok(load_sp_text("a0"@, (o - 4) as usize, "t0"@)),
                Loc::Unassigned => Err(CompileError::NoLocation),
            },
        },
    };
    match part {
        Err(e) => Err(e),
        Ok(t) => if frame > isize::MAX {
            Err(CompileError::Overflow)
        } else {
            Ok(t + (if frame > 0 { adjust_sp_text(frame as int) } else { Seq::<char>::empty() }) + "\tret\n"@)
        },
    }
}

/// A text that leaves the scratch pool as it was.
pub open spec fn same_pool(r: Result<Seq<char>, CompileError>, pool: Seq<Seq<char>>) -> Result<(Seq<char>, Seq<Seq<char>>), CompileError> {
    match r {
        Err(e) => Err(e),
        Ok(t) => Ok((t, pool)),
    }
}

/// The text of instruction number `i` of `f`, and the scratch pool it
/// leaves.
#[verifier::opaque]
pub open spec fn inst_result(f: FunctionData, locs: Seq<Loc>, frame: nat, fnames: Seq<Seq<char>>, gn: Seq<Option<Seq<char>>>,
    i: usize, pool: Seq<Seq<char>>) -> Result<(Seq<char>, Seq<Seq<char>>), CompileError> {
    if i >= f.values@.len() {
        Err(CompileError::InvalidHandle)
    } else {
        match f.values@[i as int].kind {
            ValueKind::Return(ret) => same_pool(return_result(f, locs, frame, ret), pool),
            ValueKind::Binary { op, lhs, rhs } => binary_result(f, locs, i, op, lhs, rhs, pool),
            ValueKind::Alloc => Ok((Seq::<char>::empty(), pool)),
            ValueKind::Load(src) => same_pool(load_result(f, locs, gn, Value::Local(i), src, pool), pool),
            ValueKind::Store { value, dest } => same_pool(store_result(f, locs, frame, gn, value, dest, pool), pool),
            ValueKind::GetElemPtr { src, index } => same_pool(ptr_inst_result(f, locs, gn, i, src, index, pool), pool),
            ValueKind::GetPtr { src, index } => same_pool(ptr_inst_result(f, locs, gn, i, src, index, pool), pool),
            ValueKind::Call { callee, args } => same_pool(call_result(f, locs, fnames, callee, args@, Value::Local(i), pool), pool),
            ValueKind::Branch { cond, true_bb, false_bb } => same_pool(branch_result(f, locs, cond, true_bb, false_bb, pool), pool),
            ValueKind::Jump(target) => match bb_label(f, target) {
                Err(e) => Err(e),
                Ok(n) => Ok((ins1_text("j"@, n), pool)),
            },
            _ => Err(CompileError::Unsupported),
        }
    }
}

fn binary_op_text(op: BinaryOp, lhs: Value, rhs: Value, f: &FunctionData, reg_alloc: &mut LinearScanAlloc, target: String)
    -> (r: Result<String, CompileError>)
    requires old(reg_alloc).wf(),
    ensures
        alloc_kept(*old(reg_alloc), *final(reg_alloc)),
        match r {
            Ok(s) => binary_body(*f, old(reg_alloc).locations(), op, lhs, rhs, target@, old(reg_alloc).scratch())
                == Ok::<(Seq<char>, Seq<Seq<char>>), CompileError>((s@, final(reg_alloc).scratch())),
            Err(e) => binary_body(*f, old(reg_alloc).locations(), op, lhs, rhs, target@, old(reg_alloc).scratch())
                == Err::<(Seq<char>, Seq<Seq<char>>), CompileError>(e),
        },
{
    match op {
        BinaryOp::Add => process_inst(lhs, rhs, f, reg_alloc, target, "add"),
        BinaryOp::Sub => process_inst(lhs, rhs, f, reg_alloc, target, "sub"),
        BinaryOp::Mul => process_inst(lhs, rhs, f, reg_alloc, target, "mul"),
        BinaryOp::Div => process_inst(lhs, rhs, f, reg_alloc, target, "div"),
        BinaryOp::Mod => process_inst(lhs, rhs, f, reg_alloc, target, "rem"),
        BinaryOp::Eq => process_eq_inst(lhs, rhs, f, reg_alloc, target),
        BinaryOp::NotEq => process_neq_inst(lhs, rhs, f, reg_alloc, target),
        BinaryOp::Lt => process_inst(lhs, rhs, f, reg_alloc, target, "slt"),
        BinaryOp::Gt => process_inst(lhs, rhs, f, reg_alloc, target, "sgt"),
        BinaryOp::Le => process_le_inst(lhs, rhs, f, reg_alloc, target),
        BinaryOp::Ge => process_ge_inst(lhs, rhs, f, reg_alloc, target),
        BinaryOp::And => process_and_inst(lhs, rhs, f, reg_alloc, target),
        BinaryOp::Or => process_or_inst(lhs, rhs, f, reg_alloc, target),
        _ => Err(CompileError::Unsupported),
    }
}

proof fn lemma_location(locs: Seq<Loc>, v: Value, r: VariableLocation)
    requires crate::reg_alloc::location_of(locs, v, r),
    ensures
        match loc_of(locs, v) {
            Loc::Reg(n) => r matches VariableLocation::Register(s) && s@ == reg_name(n),
            Loc::Slot(s) => r == VariableLocation::Stack((s - 4) as usize),
            Loc::Unassigned => r is Nowhere,
        },
{
}

/// The text of instruction number `i` of `f`.
fn translate_inst(i: usize, f: &FunctionData, reg_alloc: &mut LinearScanAlloc, func_names: &Vec<String>,
    global_names: &Vec<Option<String>>) -> (r: Result<String, CompileError>)
    requires old(reg_alloc).wf(),
    ensures
        alloc_kept(*old(reg_alloc), *final(reg_alloc)),
        match r {
            Ok(s) => inst_result(*f, old(reg_alloc).locations(), old(reg_alloc).frame_size(), fn_names_view(func_names@),
                names_view(global_names@), i, old(reg_alloc).scratch())
                == Ok::<(Seq<char>, Seq<Seq<char>>), CompileError>((s@, final(reg_alloc).scratch())),
            Err(e) => inst_result(*f, old(reg_alloc).locations(), old(reg_alloc).frame_size(), fn_names_view(func_names@),
                names_view(global_names@), i, old(reg_alloc).scratch())
                == Err::<(Seq<char>, Seq<Seq<char>>), CompileError>(e),
        },
{
    proof { reveal(inst_result); }
    if i >= f.values.len() {
        return Err(CompileError::InvalidHandle);
    }
    match &f.values[i].kind {
        ValueKind::Return(ret) => {
            let mut res = String::new();
            match ret {
                Some(v) => {
                    match value_kind(f, *v)? {
                        ValueKind::Integer(n) => {
                            let num = num_i32(*n);
                            res = text_ins2("li", "a0", num.as_str());
                        },
                        _ => {
                            let loc = reg_alloc.get_variable(v);
                            proof { lemma_location(reg_alloc.locations(), *v, loc); }
                            match loc {
                                VariableLocation::Register(reg) => {
                                    res = text_ins2("mv", "a0", reg.as_str());
                                },
                                VariableLocation::Stack(stack_offset) => {
                                    res = emit_load_from_sp("a0", stack_offset);
                                },
                                VariableLocation::Nowhere => return Err(CompileError::NoLocation),
                            }
                        },
                    }
                },
                None => {},
            }
            let stack_size = reg_alloc.get_stack_count();
            if stack_size > isize::MAX as usize {
                return Err(CompileError::Overflow);
            }
            if stack_size > 0 {
                let t = emit_adjust_sp(stack_size as isize);
                res.append(t.as_str());
            }
            res.append("\tret\n");
            Ok(res)
        },
        ValueKind::Binary { op, lhs, rhs } => {
            let loc = reg_alloc.get_variable(&Value::Local(i));
            proof { lemma_location(reg_alloc.locations(), Value::Local(i), loc); }
            match loc {
                VariableLocation::Register(reg) => binary_op_text(*op, *lhs, *rhs, f, reg_alloc, reg),
                VariableLocation::Stack(offset) => {
                    let ghost pool = reg_alloc.scratch();
                    if reg_alloc.scratch_len() == 0 {
                        return Err(CompileError::NoScratchRegister);
                    }
                    let target = reg_alloc.acquire_scratch();
                    let mut code = binary_op_text(*op, *lhs, *rhs, f, reg_alloc, target.clone())?;
                    let t = emit_store_to_sp(target.as_str(), offset);
                    code.append(t.as_str());
                    reg_alloc.release_scratch(target);
                    Ok(code)
                },
                VariableLocation::Nowhere => Err(CompileError::NoLocation),
            }
        },
        ValueKind::Alloc => Ok(process_alloc_inst()),
        ValueKind::Load(src) => process_load_inst(i, *src, f, reg_alloc, global_names),
        ValueKind::Store { value, dest } => process_store_inst(*value, *dest, f, reg_alloc, global_names),
        ValueKind::GetElemPtr { src, index } => process_getelemptr_inst(i, *src, *index, f, reg_alloc, global_names),
        ValueKind::GetPtr { src, index } => process_getptr_inst(i, *src, *index, f, reg_alloc, global_names),
        ValueKind::Call { callee, args } => process_call_inst(*callee, args, i, f, reg_alloc, func_names),
        ValueKind::Branch { cond, true_bb, false_bb } => process_branch_inst(*cond, *true_bb, *false_bb, f, reg_alloc),
        ValueKind::Jump(target) => process_jump_inst(*target, f),
        _ => Err(CompileError::Unsupported),
    }
}


/// The text of the first `n` instructions of `insts`, from scratch pool
/// `pool`, and the pool they leave.
pub open spec fn insts_text(f: FunctionData, locs: Seq<Loc>, frame: nat, fnames: Seq<Seq<char>>, gn: Seq<Option<Seq<char>>>,
    insts: Seq<usize>, n: int, pool: Seq<Seq<char>>) -> Result<(Seq<char>, Seq<Seq<char>>), CompileError>
    decreases n,
{
    if n <= 0 {
        Ok((Seq::<char>::empty(), pool))
    } else {
        match insts_text(f, locs, frame, fnames, gn, insts, n - 1, pool) {
            Err(e) => Err(e),
            Ok((t, p)) => match inst_result(f, locs, frame, fnames, gn, insts[n - 1], p) {
                Err(e) => Err(e),
                Ok((t2, p2)) => Ok((t + t2, p2)),
            },
        }
    }
}

/// The label line of block `bb`; the entry block has none.
pub open spec fn block_head(f: FunctionData, bb: usize) -> Result<Seq<char>, CompileError> {
    match bb_label(f, bb) {
        Err(e) => Err(e),
        Ok(l) => Ok(if l == "entry"@ { Seq::<char>::empty() } else { l + ":\n"@ }),
    }
}

/// The text of the first `n` blocks of the layout of `f`.
pub open spec fn blocks_text(f: FunctionData, locs: Seq<Loc>, frame: nat, fnames: Seq<Seq<char>>, gn: Seq<Option<Seq<char>>>,
    n: int, pool: Seq<Seq<char>>) -> Result<(Seq<char>, Seq<Seq<char>>), CompileError>
    decreases n,
{
    if n <= 0 {
        Ok((Seq::<char>::empty(), pool))
    } else {
        match blocks_text(f, locs, frame, fnames, gn, n - 1, pool) {
            Err(e) => Err(e),
            Ok((t, p)) => match block_head(f, f.layout@[n - 1].bb) {
                Err(e) => Err(e),
                Ok(h) => match insts_text(f, locs, frame, fnames, gn, f.layout@[n - 1].insts@, f.layout@[n - 1].insts@.len() as int, p) {
                    Err(e) => Err(e),
                    Ok((t2, p2)) => Ok((t + h + t2, p2)),
                },
            },
        }
    }
}

/// The `.globl` line and the label of function `f`: its name without `@`.
pub open spec fn func_head(f: FunctionData) -> Result<Seq<char>, CompileError> {
    if f.name@.len() >= 1 {
        let n = f.name@.drop_first();
        Ok("\t.globl "@ + n + "\n"@ + n + ":\n"@)
    } else {
        Err(CompileError::MissingName)
    }
}

/// The text of function `f` under the placement `locs` with a frame of
/// `frame` bytes: its head, the frame allocated, then its blocks in layout
/// order, starting from the scratch registers `t5`, `t6`.
pub open spec fn func_text(f: FunctionData, fnames: Seq<Seq<char>>, gn: Seq<Option<Seq<char>>>, locs: Seq<Loc>, frame: nat)
    -> Result<Seq<char>, CompileError> {
    match func_head(f) {
        Err(e) => Err(e),
        Ok(h) => if frame > isize::MAX {
            Err(CompileError::Overflow)
        } else {
            match blocks_text(f, locs, frame, fnames, gn, f.layout@.len() as int, seq!["t5"@, "t6"@]) {
                Err(e) => Err(e),
                Ok((t, _)) => Ok(h + (if frame > 0 { adjust_sp_text(-(frame as int)) } else { Seq::<char>::empty() }) + t),
            }
        },
    }
}

proof fn lemma_insts_err(f: FunctionData, locs: Seq<Loc>, frame: nat, fnames: Seq<Seq<char>>, gn: Seq<Option<Seq<char>>>,
    insts: Seq<usize>, k: int, n: int, pool: Seq<Seq<char>>)
    requires 0 <= k <= n, insts_text(f, locs, frame, fnames, gn, insts, k, pool) is Err,
    ensures insts_text(f, locs, frame, fnames, gn, insts, n, pool) == insts_text(f, locs, frame, fnames, gn, insts, k, pool),
    decreases n - k,
{
    if k < n {
        lemma_insts_err(f, locs, frame, fnames, gn, insts, k, n - 1, pool);
    }
}

proof fn lemma_blocks_err(f: FunctionData, locs: Seq<Loc>, frame: nat, fnames: Seq<Seq<char>>, gn: Seq<Option<Seq<char>>>,
    k: int, n: int, pool: Seq<Seq<char>>)
    requires 0 <= k <= n, blocks_text(f, locs, frame, fnames, gn, k, pool) is Err,
    ensures blocks_text(f, locs, frame, fnames, gn, n, pool) == blocks_text(f, locs, frame, fnames, gn, k, pool),
    decreases n - k,
{
    if k < n {
        lemma_blocks_err(f, locs, frame, fnames, gn, k, n - 1, pool);
    }
}

/// The text of the blocks of `f` under the allocation `reg_alloc`.
fn func_body(f: &FunctionData, reg_alloc: &mut LinearScanAlloc, func_names: &Vec<String>, global_names: &Vec<Option<String>>)
    -> (r: Result<String, CompileError>)
    requires old(reg_alloc).wf(),
    ensures
        match r {
            Ok(s) => blocks_text(*f, old(reg_alloc).locations(), old(reg_alloc).frame_size(), fn_names_view(func_names@),
                names_view(global_names@), f.layout@.len() as int, old(reg_alloc).scratch()) matches Ok((t, _)) && t == s@,
            Err(e) => blocks_text(*f, old(reg_alloc).locations(), old(reg_alloc).frame_size(), fn_names_view(func_names@),
                names_view(global_names@), f.layout@.len() as int, old(reg_alloc).scratch()) == Err::<(Seq<char>, Seq<Seq<char>>), CompileError>(e),
        },
{
    let ghost locs = reg_alloc.locations();
    let ghost frame = reg_alloc.frame_size();
    let ghost fnames = fn_names_view(func_names@);
    let ghost gn = names_view(global_names@);
    let ghost pool0 = reg_alloc.scratch();
    let mut code = String::new();
    let nb = f.layout.len();
    let mut b: usize = 0;
    while b < nb
        invariant
            nb == f.layout@.len(), b <= nb,
            reg_alloc.locations() == locs, reg_alloc.frame_size() == frame, reg_alloc.wf(),
            fnames == fn_names_view(func_names@), gn == names_view(global_names@),
            locs == old(reg_alloc).locations(), frame == old(reg_alloc).frame_size(), pool0 == old(reg_alloc).scratch(),
            blocks_text(*f, locs, frame, fnames, gn, b as int, pool0) == Ok::<(Seq<char>, Seq<Seq<char>>), CompileError>((code@, reg_alloc.scratch())),
        decreases nb - b,
    {
        let node = &f.layout[b];
        let ghost pb = reg_alloc.scratch();
        let ghost cb = code@;
        let label = match block_name(f, node.bb) {
            Ok(l) => l,
            Err(e) => {
                proof { lemma_blocks_err(*f, locs, frame, fnames, gn, b + 1, nb as int, pool0); }
                return Err(e);
            },
        };
        if !str_eq(label.as_str(), "entry") {
            code.append(label.as_str());
            code.append(":\n");
        }
        let t = match block_insts(&node.insts, f, reg_alloc, func_names, global_names) {
            Ok(t) => t,
            Err(e) => {
                proof { lemma_blocks_err(*f, locs, frame, fnames, gn, b + 1, nb as int, pool0); }
                return Err(e);
            },
        };
        code.append(t.as_str());
        proof {
            let h = block_head(*f, node.bb)->Ok_0;
            assert(code@ =~= cb + h + t@);
        }
        b = b + 1;
    }
    Ok(code)
}

/// The text of the instructions `insts` of `f`, in order.
fn block_insts(insts: &Vec<usize>, f: &FunctionData, reg_alloc: &mut LinearScanAlloc, func_names: &Vec<String>,
    global_names: &Vec<Option<String>>) -> (r: Result<String, CompileError>)
    requires old(reg_alloc).wf(),
    ensures
        alloc_kept(*old(reg_alloc), *final(reg_alloc)),
        match r {
            Ok(s) => insts_text(*f, old(reg_alloc).locations(), old(reg_alloc).frame_size(), fn_names_view(func_names@),
                names_view(global_names@), insts@, insts@.len() as int, old(reg_alloc).scratch())
                == Ok::<(Seq<char>, Seq<Seq<char>>), CompileError>((s@, final(reg_alloc).scratch())),
            Err(e) => insts_text(*f, old(reg_alloc).locations(), old(reg_alloc).frame_size(), fn_names_view(func_names@),
                names_view(global_names@), insts@, insts@.len() as int, old(reg_alloc).scratch())
                == Err::<(Seq<char>, Seq<Seq<char>>), CompileError>(e),
        },
{
    let ghost locs = reg_alloc.locations();
    let ghost frame = reg_alloc.frame_size();
    let ghost fnames = fn_names_view(func_names@);
    let ghost gn = names_view(global_names@);
    let ghost pool0 = reg_alloc.scratch();
    let mut code = String::new();
    let ni = insts.len();
    let mut k: usize = 0;
    while k < ni
        invariant
            ni == insts@.len(), k <= ni,
            reg_alloc.locations() == locs, reg_alloc.frame_size() == frame, reg_alloc.wf(),
            fnames == fn_names_view(func_names@), gn == names_view(global_names@),
            locs == old(reg_alloc).locations(), frame == old(reg_alloc).frame_size(), pool0 == old(reg_alloc).scratch(),
            insts_text(*f, locs, frame, fnames, gn, insts@, k as int, pool0)
                == Ok::<(Seq<char>, Seq<Seq<char>>), CompileError>((code@, reg_alloc.scratch())),
        decreases ni - k,
    {
        let ghost pk = reg_alloc.scratch();
        let ghost ck = code@;
        let t = match translate_inst(insts[k], f, reg_alloc, func_names, global_names) {
            Ok(t) => t,
            Err(e) => {
                proof {
                    lemma_insts_err(*f, locs, frame, fnames, gn, insts@, k + 1, ni as int, pool0);
                }
                return Err(e);
            },
        };
        code.append(t.as_str());
        k = k + 1;
    }
    Ok(code)
}

fn block_name(f: &FunctionData, bb: usize) -> (r: Result<String, CompileError>)
    ensures
        match r {
            Ok(s) => bb_label(*f, bb) == Ok::<Seq<char>, CompileError>(s@),
            Err(e) => bb_label(*f, bb) == Err::<Seq<char>, CompileError>(e),
        },
{
    if bb >= f.bbs.len() {
        return Err(CompileError::InvalidHandle);
    }
    match &f.bbs[bb].name {
        Some(n) => {
            if n.unicode_len() >= 1 {
                Ok(strip_sigil(n.as_str()))
            } else {
                Err(CompileError::MissingName)
            }
        },
        None => Err(CompileError::MissingName),
    }
}


/// What `gen_func_asm` gives for `f`: its text under some placement that
/// the allocator may compute (which of the free registers a value gets is
/// left open).
pub open spec fn func_asm_ok(f: FunctionData, fnames: Seq<Seq<char>>, gn: Seq<Option<Seq<char>>>, t: Seq<char>) -> bool {
    &&& func_head(f) is Ok
    &&& alloc_error(f) is None
    &&& exists|locs: Seq<Loc>, frame: nat| #[trigger] placement_ok(f, locs, frame)
        && func_text(f, fnames, gn, locs, frame) == Ok::<Seq<char>, CompileError>(t)
}

/// How `gen_func_asm` fails on `f` with `e`.
pub open spec fn func_asm_err(f: FunctionData, fnames: Seq<Seq<char>>, gn: Seq<Option<Seq<char>>>, e: CompileError) -> bool {
    match func_head(f) {
        Err(e2) => e == e2,
        Ok(_) => match alloc_error(f) {
            Some(e2) => e == e2,
            None => exists|locs: Seq<Loc>, frame: nat| #[trigger] placement_ok(f, locs, frame)
                && func_text(f, fnames, gn, locs, frame) == Err::<Seq<char>, CompileError>(e),
        },
    }
}

/// The text of one function: its head, the frame allocated, its blocks.
/// The frame and the places of the values come from the linear scan.
pub fn gen_func_asm(func_data: &FunctionData, func_names: &Vec<String>, global_names: &Vec<Option<String>>)
    -> (r: Result<String, CompileError>)
    ensures
        match r {
            Ok(s) => func_asm_ok(*func_data, fn_names_view(func_names@), names_view(global_names@), s@),
            Err(e) => func_asm_err(*func_data, fn_names_view(func_names@), names_view(global_names@), e),
        },
{
    let ghost fnames = fn_names_view(func_names@);
    let ghost gn = names_view(global_names@);
    if func_data.name.unicode_len() < 1 {
        return Err(CompileError::MissingName);
    }
    let name = strip_sigil(func_data.name.as_str());
    let mut text = String::new();
    text.append("\t.globl ");
    text.append(name.as_str());
    text.append("\n");
    text.append(name.as_str());
    text.append(":\n");
    assert(text@ =~= func_head(*func_data)->Ok_0);
    let mut reg_alloc = LinearScanAlloc::new();
    match reg_alloc.allocate(func_data) {
        Ok(()) => {},
        Err(e) => return Err(e),
    }
    let ghost locs = reg_alloc.locations();
    let ghost frame = reg_alloc.frame_size();
    proof { assert(placement_ok(*func_data, locs, frame)); }
    let stack_size = reg_alloc.get_stack_count();
    if stack_size > isize::MAX as usize {
        assert(func_text(*func_data, fnames, gn, locs, frame) == Err::<Seq<char>, CompileError>(CompileError::Overflow));
        return Err(CompileError::Overflow);
    }
    let ghost th = text@;
    if stack_size > 0 {
        let t = emit_adjust_sp(-(stack_size as isize));
        text.append(t.as_str());
    }
    let ghost tp = text@;
    let body = match func_body(func_data, &mut reg_alloc, func_names, global_names) {
        Ok(b) => b,
        Err(e) => {
            assert(func_text(*func_data, fnames, gn, locs, frame) == Err::<Seq<char>, CompileError>(e));
            return Err(e);
        },
    };
    text.append(body.as_str());
    proof {
        let pro = if frame > 0 { adjust_sp_text(-(frame as int)) } else { Seq::<char>::empty() };
        assert(tp =~= th + pro);
        assert(text@ =~= th + pro + body@);
        assert(func_text(*func_data, fnames, gn, locs, frame) == Ok::<Seq<char>, CompileError>(text@));
    }
    Ok(text)
}


/// The data directives of global constant number `g`: `.zero` with the
/// size of a zero initializer, `.word` for an integer, the elements in order
/// for an aggregate (whose elements come before it).
pub open spec fn init_text_at(globals: Seq<ValueData>, g: int) -> Result<Seq<char>, CompileError>
    decreases g + 1, 0int,
{
    if g < 0 || g >= globals.len() {
        Err(CompileError::InvalidHandle)
    } else {
        match globals[g].kind {
            ValueKind::ZeroInit => if ty_size(globals[g].ty) > usize::MAX {
                Err(CompileError::Overflow)
            } else {
                Ok("\t.zero "@ + dec_nat(ty_size(globals[g].ty)) + "\n"@)
            },
            ValueKind::Integer(n) => Ok("\t.word "@ + dec_int(n as int) + "\n"@),
            ValueKind::Aggregate(elems) => elems_init_text(globals, g, elems@, elems@.len() as int),
            _ => Err(CompileError::Unsupported),
        }
    }
}

/// The data directives of the first `n` elements of aggregate number `g`.
pub open spec fn elems_init_text(globals: Seq<ValueData>, g: int, elems: Seq<Value>, n: int) -> Result<Seq<char>, CompileError>
    decreases g, n,
{
    if n <= 0 {
        Ok(Seq::<char>::empty())
    } else {
        match elems_init_text(globals, g, elems, n - 1) {
            Err(e) => Err(e),
            Ok(t) => match elems[n - 1] {
                Value::Global(k) => if k < g {
                    match init_text_at(globals, k as int) {
                        Err(e) => Err(e),
                        Ok(t2) => Ok(t + t2),
                    }
                } else {
                    Err(CompileError::InvalidHandle)
                },
                Value::Local(_) => Err(CompileError::InvalidHandle),
            },
        }
    }
}

proof fn lemma_elems_err(globals: Seq<ValueData>, g: int, elems: Seq<Value>, k: int, n: int)
    requires 0 <= k <= n, elems_init_text(globals, g, elems, k) is Err,
    ensures elems_init_text(globals, g, elems, n) == elems_init_text(globals, g, elems, k),
    decreases n - k,
{
    if k < n {
        lemma_elems_err(globals, g, elems, k, n - 1);
    }
}

/// Appends the data directives of global constant number `g`.
fn emit_init_at(program: &Program, g: usize, out: &mut String) -> (r: Result<(), CompileError>)
    ensures
        match r {
            Ok(()) => init_text_at(program.globals@, g as int) == Ok::<Seq<char>, CompileError>(final(out)@.subrange(old(out)@.len() as int, final(out)@.len() as int))
                && final(out)@.subrange(0, old(out)@.len() as int) == old(out)@
                && old(out)@.len() <= final(out)@.len(),
            Err(e) => init_text_at(program.globals@, g as int) == Err::<Seq<char>, CompileError>(e),
        },
    decreases g,
{
    let ghost o0 = out@;
    if g >= program.globals.len() {
        return Err(CompileError::InvalidHandle);
    }
    let data = &program.globals[g];
    match &data.kind {
        ValueKind::ZeroInit => {
            let size = match data.ty.size() {
                Some(sz) => sz,
                None => return Err(CompileError::Overflow),
            };
            out.append("\t.zero ");
            append_usize(out, size);
            out.append("\n");
            assert(out@.subrange(o0.len() as int, out@.len() as int) =~= "\t.zero "@ + dec_nat(ty_size(data.ty)) + "\n"@);
            assert(out@.subrange(0, o0.len() as int) =~= o0);
            Ok(())
        },
        ValueKind::Integer(n) => {
            out.append("\t.word ");
            append_i32(out, *n);
            out.append("\n");
            assert(out@.subrange(o0.len() as int, out@.len() as int) =~= "\t.word "@ + dec_int(*n as int) + "\n"@);
            assert(out@.subrange(0, o0.len() as int) =~= o0);
            Ok(())
        },
        ValueKind::Aggregate(elems) => {
            let n = elems.len();
            let mut i: usize = 0;
            assert(out@.subrange(o0.len() as int, out@.len() as int) =~= Seq::<char>::empty());
            assert(out@.subrange(0, o0.len() as int) =~= o0);
            while i < n
                invariant
                    n == elems@.len(), i <= n, g < program.globals@.len(),
                    program.globals@[g as int].kind == ValueKind::Aggregate(*elems),
                    o0.len() <= out@.len(),
                    out@.subrange(0, o0.len() as int) == o0,
                    elems_init_text(program.globals@, g as int, elems@, i as int)
                        == Ok::<Seq<char>, CompileError>(out@.subrange(o0.len() as int, out@.len() as int)),
                decreases n - i,
            {
                let ghost o1 = out@;
                match elems[i] {
                    Value::Global(k) => {
                        if k >= g {
                            proof { lemma_elems_err(program.globals@, g as int, elems@, i + 1, n as int); }
                            return Err(CompileError::InvalidHandle);
                        }
                        match emit_init_at(program, k, out) {
                            Ok(()) => {},
                            Err(e) => {
                                proof { lemma_elems_err(program.globals@, g as int, elems@, i + 1, n as int); }
                                return Err(e);
                            },
                        }
                        proof {
                            let t = o1.subrange(o0.len() as int, o1.len() as int);
                            let t2 = out@.subrange(o1.len() as int, out@.len() as int);
                            assert(out@.subrange(0, o1.len() as int) == o1);
                            assert(out@.subrange(o0.len() as int, out@.len() as int) =~= t + t2);
                            assert(out@.subrange(0, o0.len() as int) =~= o1.subrange(0, o0.len() as int));
                        }
                    },
                    Value::Local(_) => {
                        proof { lemma_elems_err(program.globals@, g as int, elems@, i + 1, n as int); }
                        return Err(CompileError::InvalidHandle);
                    },
                }
                i = i + 1;
            }
            Ok(())
        },
        _ => Err(CompileError::Unsupported),
    }
}

/// The data directives of a global initializer.
pub open spec fn global_init_text(globals: Seq<ValueData>, v: Value) -> Result<Seq<char>, CompileError> {
    match v {
        Value::Global(g) => init_text_at(globals, g as int),
        Value::Local(_) => Err(CompileError::InvalidHandle),
    }
}

/// Appends the data directives of the global initializer `value`.
pub fn emit_global_initializer(program: &Program, value: Value, out: &mut String) -> (r: Result<(), CompileError>)
    ensures
        match r {
            Ok(()) => global_init_text(program.globals@, value) == Ok::<Seq<char>, CompileError>(final(out)@.subrange(old(out)@.len() as int, final(out)@.len() as int))
                && final(out)@.subrange(0, old(out)@.len() as int) == old(out)@
                && old(out)@.len() <= final(out)@.len(),
            Err(e) => global_init_text(program.globals@, value) == Err::<Seq<char>, CompileError>(e),
        },
{
    match value {
        Value::Global(g) => emit_init_at(program, g, out),
        Value::Local(_) => Err(CompileError::InvalidHandle),
    }
}


/// The data-section lines of global number `g` of the program's layout: for
/// a global allocation, `.globl`, its label (its name without `@`) and its
/// initializer; nothing for other values. Every entry needs a name.
pub open spec fn global_entry(p: Program, g: usize) -> Result<Seq<char>, CompileError> {
    if g >= p.globals@.len() {
        Err(CompileError::InvalidHandle)
    } else {
        match p.globals@[g as int].name {
            None => Err(CompileError::MissingName),
            Some(nm) => if nm@.len() < 1 {
                Err(CompileError::MissingName)
            } else {
                match p.globals@[g as int].kind {
                    ValueKind::GlobalAlloc(init) => match global_init_text(p.globals@, init) {
                        Err(e) => Err(e),
                        Ok(t) => Ok("\t.globl "@ + nm@.drop_first() + "\n"@ + nm@.drop_first() + ":\n"@ + t),
                    },
                    _ => Ok(Seq::<char>::empty()),
                }
            },
        }
    }
}

/// The data-section lines of the first `n` entries of the program's layout.
pub open spec fn globals_text(p: Program, n: int) -> Result<Seq<char>, CompileError>
    decreases n,
{
    if n <= 0 {
        Ok(Seq::<char>::empty())
    } else {
        match globals_text(p, n - 1) {
            Err(e) => Err(e),
            Ok(t) => match global_entry(p, p.inst_layout@[n - 1]) {
                Err(e) => Err(e),
                Ok(t2) => Ok(t + t2),
            },
        }
    }
}

/// The data section: none where there are no global allocations.
pub open spec fn data_section(t: Seq<char>) -> Seq<char> {
    if t.len() == 0 { Seq::<char>::empty() } else { "\t.data\n"@ + t + "\n"@ }
}

/// The names of the first `n` functions without `@`; each needs one.
pub open spec fn func_names_upto(p: Program, n: int) -> Result<Seq<Seq<char>>, CompileError>
    decreases n,
{
    if n <= 0 {
        Ok(Seq::<Seq<char>>::empty())
    } else {
        match func_names_upto(p, n - 1) {
            Err(e) => Err(e),
            Ok(ns) => if p.funcs@[n - 1].name@.len() < 1 {
                Err(CompileError::MissingName)
            } else {
                Ok(ns.push(p.funcs@[n - 1].name@.drop_first()))
            },
        }
    }
}

/// The names (without `@`) of the global values in the program's layout.
pub open spec fn global_names_of(p: Program) -> Seq<Option<Seq<char>>> {
    Seq::new(p.globals@.len(), |g: int|
        if (exists|i: int| 0 <= i < p.inst_layout@.len() && p.inst_layout@[i] == g) && p.globals@[g].name is Some
            && p.globals@[g].name->Some_0@.len() >= 1 {
            Some(p.globals@[g].name->Some_0@.drop_first())
        } else {
            None
        })
}

/// Some text is what `gen_func_asm` gives for `f`.
pub open spec fn func_asm_some(f: FunctionData, fnames: Seq<Seq<char>>, gn: Seq<Option<Seq<char>>>) -> bool {
    exists|t: Seq<char>| #[trigger] func_asm_ok(f, fnames, gn, t)
}

/// `ts` are the texts of the functions of `p`: nothing for a declaration,
/// what `gen_func_asm` gives for a definition.
pub open spec fn funcs_texts_ok(p: Program, fnames: Seq<Seq<char>>, gn: Seq<Option<Seq<char>>>, ts: Seq<Seq<char>>) -> bool {
    &&& ts.len() == p.funcs@.len()
    &&& forall|k: int| 0 <= k < ts.len() ==> if p.funcs@[k].layout@.len() == 0 {
        #[trigger] ts[k] == Seq::<char>::empty()
    } else {
        func_asm_ok(p.funcs@[k], fnames, gn, ts[k])
    }
}

/// What `gen_asm` gives for `p`: the data section of its global
/// allocations, `.text`, then the text of each function in order.
pub open spec fn program_asm_ok(p: Program, s: Seq<char>) -> bool {
    &&& globals_text(p, p.inst_layout@.len() as int) is Ok
    &&& func_names_upto(p, p.funcs@.len() as int) is Ok
    &&& exists|ts: Seq<Seq<char>>| funcs_texts_ok(p, func_names_upto(p, p.funcs@.len() as int)->Ok_0, global_names_of(p), ts)
        && s == data_section(globals_text(p, p.inst_layout@.len() as int)->Ok_0) + "\t.text\n"@ + #[trigger] ts.flatten()
}

/// How `gen_asm` fails on `p` with `e`: at a global, at a function's name,
/// or at the first function definition that fails.
pub open spec fn program_asm_err(p: Program, e: CompileError) -> bool {
    match globals_text(p, p.inst_layout@.len() as int) {
        Err(e2) => e == e2,
        Ok(_) => match func_names_upto(p, p.funcs@.len() as int) {
            Err(e2) => e == e2,
            Ok(fns) => exists|k: int| 0 <= k < p.funcs@.len() && p.funcs@[k].layout@.len() > 0
                && #[trigger] func_asm_err(p.funcs@[k], fns, global_names_of(p), e)
                && forall|j: int| 0 <= j < k && p.funcs@[j].layout@.len() > 0
                    ==> #[trigger] func_asm_some(p.funcs@[j], fns, global_names_of(p)),
        },
    }
}

/// Code generation for a whole program.
pub trait GenAsm {
    fn gen_asm(&self) -> Result<String, CompileError>;
}

impl GenAsm for Program {
    /// The data section of the global allocations, then `.text` and each
    /// function definition in order.
    fn gen_asm(&self) -> (r: Result<String, CompileError>)
        ensures
            match r {
                Ok(s) => program_asm_ok(*self, s@),
                Err(e) => program_asm_err(*self, e),
            },
    {
        let ghost p = *self;
        let mut global_str = String::new();
        let nl = self.inst_layout.len();
        let mut i: usize = 0;
        while i < nl
            invariant
                p == *self, nl == self.inst_layout@.len(), i <= nl,
                globals_text(p, i as int) == Ok::<Seq<char>, CompileError>(global_str@),
            decreases nl - i,
        {
            let g = self.inst_layout[i];
            if g >= self.globals.len() {
                proof { lemma_globals_err(p, i + 1, nl as int); }
                return Err(CompileError::InvalidHandle);
            }
            let data = &self.globals[g];
            let nm = match &data.name {
                Some(n) => n,
                None => {
                    proof { lemma_globals_err(p, i + 1, nl as int); }
                    return Err(CompileError::MissingName);
                },
            };
            if nm.unicode_len() < 1 {
                proof { lemma_globals_err(p, i + 1, nl as int); }
                return Err(CompileError::MissingName);
            }
            let global_name = strip_sigil(nm.as_str());
            match &data.kind {
                ValueKind::GlobalAlloc(init) => {
                    let ghost g0 = global_str@;
                    global_str.append("\t.globl ");
                    global_str.append(global_name.as_str());
                    global_str.append("\n");
                    global_str.append(global_name.as_str());
                    global_str.append(":\n");
                    let ghost g1 = global_str@;
                    match emit_global_initializer(self, *init, &mut global_str) {
                        Ok(()) => {},
                        Err(e) => {
                            proof { lemma_globals_err(p, i + 1, nl as int); }
                            return Err(e);
                        },
                    }
                    proof {
                        let t = global_str@.subrange(g1.len() as int, global_str@.len() as int);
                        assert(global_str@ =~= g1 + t);
                        assert(g1 =~= g0 + ("\t.globl "@ + nm@.drop_first() + "\n"@ + nm@.drop_first() + ":\n"@));
                        assert(global_str@ =~= g0 + ("\t.globl "@ + nm@.drop_first() + "\n"@ + nm@.drop_first() + ":\n"@ + t));
                    }
                },
                _ => {
                    assert(global_str@ =~= global_str@ + Seq::<char>::empty());
                },
            }
            i = i + 1;
        }
        let mut text = String::new();
        if global_str.unicode_len() > 0 {
            text.append("\t.data\n");
            text.append(global_str.as_str());
            text.append("\n");
        }
        text.append("\t.text\n");
        assert(text@ =~= data_section(global_str@) + "\t.text\n"@);
        let ghost gs = global_str@;
        let nf = self.funcs.len();
        let mut func_names: Vec<String> = Vec::new();
        assert(fn_names_view(func_names@) =~= Seq::<Seq<char>>::empty());
        let mut k: usize = 0;
        while k < nf
            invariant
                p == *self, nf == self.funcs@.len(), k <= nf,
                globals_text(p, p.inst_layout@.len() as int) == Ok::<Seq<char>, CompileError>(gs),
                func_names_upto(p, k as int) == Ok::<Seq<Seq<char>>, CompileError>(fn_names_view(func_names@)),
            decreases nf - k,
        {
            let name = &self.funcs[k].name;
            if name.unicode_len() < 1 {
                proof { lemma_fnames_err(p, k + 1, nf as int); }
                return Err(CompileError::MissingName);
            }
            let ghost fv = fn_names_view(func_names@);
            func_names.push(strip_sigil(name.as_str()));
            assert(fn_names_view(func_names@) =~= fv.push(name@.drop_first()));
            k = k + 1;
        }
        let global_names = collect_global_names(self);
        let ghost fns = fn_names_view(func_names@);
        let ghost gn = global_names_of(p);
        let ghost mut ts: Seq<Seq<char>> = seq![];
        let ghost t0 = text@;
        let mut k: usize = 0;
        while k < nf
            invariant
                p == *self, nf == self.funcs@.len(), k <= nf,
                globals_text(p, p.inst_layout@.len() as int) == Ok::<Seq<char>, CompileError>(gs),
                t0 == data_section(gs) + "\t.text\n"@,
                fns == fn_names_view(func_names@), gn == names_view(global_names@),
                func_names_upto(p, nf as int) == Ok::<Seq<Seq<char>>, CompileError>(fns),
                gn == global_names_of(p),
                ts.len() == k,
                forall|j: int| 0 <= j < k ==> if p.funcs@[j].layout@.len() == 0 {
                    #[trigger] ts[j] == Seq::<char>::empty()
                } else {
                    func_asm_ok(p.funcs@[j], fns, gn, ts[j])
                },
                text@ == t0 + ts.flatten(),
            decreases nf - k,
        {
            let f = &self.funcs[k];
            let ghost tk = text@;
            if f.layout.len() == 0 {
                proof {
                    let ts0 = ts;
                    ts = ts.push(Seq::<char>::empty());
                    lemma_flatten_push(ts0, Seq::<char>::empty());
                    assert(text@ =~= t0 + ts.flatten());
                }
            } else {
                let t = match gen_func_asm(f, &func_names, &global_names) {
                    Ok(t) => t,
                    Err(e) => {
                        proof {
                            assert forall|j: int| 0 <= j < k && p.funcs@[j].layout@.len() > 0 implies
                                #[trigger] func_asm_some(p.funcs@[j], fns, gn) by {
                                assert(func_asm_ok(p.funcs@[j], fns, gn, ts[j]));
                            }
                            assert(func_asm_err(self.funcs@[k as int], fns, global_names_of(*self), e));
                            assert(forall|j: int| 0 <= j < k && self.funcs@[j].layout@.len() > 0
                                ==> #[trigger] func_asm_some(self.funcs@[j], fns, global_names_of(*self)));
                            assert(func_names_upto(*self, self.funcs@.len() as int) == Ok::<Seq<Seq<char>>, CompileError>(fns));
                            assert(globals_text(*self, self.inst_layout@.len() as int) is Ok);
                            assert(exists|kk: int| 0 <= kk < self.funcs@.len() && self.funcs@[kk].layout@.len() > 0
                                && #[trigger] func_asm_err(self.funcs@[kk], fns, global_names_of(*self), e)
                                && forall|j: int| 0 <= j < kk && self.funcs@[j].layout@.len() > 0
                                    ==> #[trigger] func_asm_some(self.funcs@[j], fns, global_names_of(*self)));
                            assert(program_asm_err(*self, e)) by {
                                let fns2 = func_names_upto(*self, self.funcs@.len() as int)->Ok_0;
                                assert(fns2 == fns);
                                assert(func_asm_err(self.funcs@[k as int], fns2, global_names_of(*self), e));
                                assert(forall|j: int| 0 <= j < k && self.funcs@[j].layout@.len() > 0
                                    ==> #[trigger] func_asm_some(self.funcs@[j], fns2, global_names_of(*self)));
                            }
                        }
                        return Err(e);
                    },
                };
                text.append(t.as_str());
                proof {
                    let ts0 = ts;
                    ts = ts.push(t@);
                    lemma_flatten_push(ts0, t@);
                    assert(ts.drop_last() =~= ts0);
                    assert(text@ =~= t0 + ts.flatten());
                }
            }
            k = k + 1;
        }
        proof {
            assert(funcs_texts_ok(p, fns, gn, ts));
        }
        Ok(text)
    }
}

proof fn lemma_flatten_push(ts: Seq<Seq<char>>, t: Seq<char>)
    ensures ts.push(t).flatten() == ts.flatten() + t,
{
    ts.lemma_flatten_push(t);
}

proof fn lemma_globals_err(p: Program, k: int, n: int)
    requires 0 <= k <= n, globals_text(p, k) is Err,
    ensures globals_text(p, n) == globals_text(p, k),
    decreases n - k,
{
    if k < n {
        lemma_globals_err(p, k, n - 1);
    }
}

proof fn lemma_fnames_err(p: Program, k: int, n: int)
    requires 0 <= k <= n, func_names_upto(p, k) is Err,
    ensures func_names_upto(p, n) == func_names_upto(p, k),
    decreases n - k,
{
    if k < n {
        lemma_fnames_err(p, k, n - 1);
    }
}

/// The names of the global values in the program's layout.
fn collect_global_names(p: &Program) -> (r: Vec<Option<String>>)
    ensures names_view(r@) == global_names_of(*p),
{
    let ng = p.globals.len();
    let mut names: Vec<Option<String>> = Vec::new();
    let mut g: usize = 0;
    while g < ng
        invariant
            ng == p.globals@.len(), g <= ng, names@.len() == g,
            forall|j: int| 0 <= j < g ==> (#[trigger] names@[j]) is None,
        decreases ng - g,
    {
        names.push(None);
        g = g + 1;
    }
    let nl = p.inst_layout.len();
    let mut i: usize = 0;
    while i < nl
        invariant
            ng == p.globals@.len(), nl == p.inst_layout@.len(), i <= nl, names@.len() == ng,
            forall|j: int| 0 <= j < ng ==> names_view(names@)[j] == (
                if (exists|x: int| 0 <= x < i && p.inst_layout@[x] == j) && p.globals@[j].name is Some
                    && p.globals@[j].name->Some_0@.len() >= 1 {
                    Some(p.globals@[j].name->Some_0@.drop_first())
                } else {
                    None::<Seq<char>>
                }),
        decreases nl - i,
    {
        let g = p.inst_layout[i];
        if g < ng {
            match &p.globals[g].name {
                Some(n) => {
                    if n.unicode_len() >= 1 {
                        let ghost n0 = names@;
                        names.set(g, Some(strip_sigil(n.as_str())));
                        proof {
                            assert forall|j: int| 0 <= j < ng implies names_view(names@)[j] == (
                                if (exists|x: int| 0 <= x < i + 1 && p.inst_layout@[x] == j) && p.globals@[j].name is Some
                                    && p.globals@[j].name->Some_0@.len() >= 1 {
                                    Some(p.globals@[j].name->Some_0@.drop_first())
                                } else {
                                    None::<Seq<char>>
                                }) by {
                                if j != g {
                                    assert(names@[j] == n0[j]);
                                    assert(names_view(names@)[j] == names_view(n0)[j]);
                                    if exists|x: int| 0 <= x < i + 1 && p.inst_layout@[x] == j {
                                        let x = choose|x: int| 0 <= x < i + 1 && p.inst_layout@[x] == j;
                                        assert(x != i);
                                    }
                                } else {
                                    assert(p.inst_layout@[i as int] == j);
                                    assert(names_view(names@)[j] == Some(n@.drop_first()));
                                }
                            }
                        }
                    }
                },
                None => {},
            }
        }
        proof {
            assert forall|j: int| 0 <= j < ng implies names_view(names@)[j] == (
                if (exists|x: int| 0 <= x < i + 1 && p.inst_layout@[x] == j) && p.globals@[j].name is Some
                    && p.globals@[j].name->Some_0@.len() >= 1 {
                    Some(p.globals@[j].name->Some_0@.drop_first())
                } else {
                    None::<Seq<char>>
                }) by {
                if exists|x: int| 0 <= x < i + 1 && p.inst_layout@[x] == j {
                    let x = choose|x: int| 0 <= x < i + 1 && p.inst_layout@[x] == j;
                    if x == i {
                        assert(p.inst_layout@[i as int] == j);
                    }
                }
            }
        }
        i = i + 1;
    }
    assert(names_view(names@) =~= global_names_of(*p));
    names
}


/// A `ret` gives back to `sp` exactly what the head of its function took:
/// the prologue adds `-frame` and the return adds `frame`.
pub proof fn law_frame_restored(f: FunctionData, fnames: Seq<Seq<char>>, gn: Seq<Option<Seq<char>>>, locs: Seq<Loc>, frame: nat)
    requires 0 < frame <= isize::MAX, func_head(f) is Ok,
    ensures
        return_result(f, locs, frame, None) == Ok::<Seq<char>, CompileError>(adjust_sp_text(frame as int) + "\tret\n"@),
        func_text(f, fnames, gn, locs, frame) matches Ok(t) ==> t.subrange(0, (func_head(f)->Ok_0 + adjust_sp_text(-(frame as int))).len() as int)
            == func_head(f)->Ok_0 + adjust_sp_text(-(frame as int)),
        -(frame as int) + (frame as int) == 0,
{
    assert(Seq::<char>::empty() + adjust_sp_text(frame as int) + "\tret\n"@ =~= adjust_sp_text(frame as int) + "\tret\n"@);
    if let Ok(t) = func_text(f, fnames, gn, locs, frame) {
        let h = func_head(f)->Ok_0 + adjust_sp_text(-(frame as int));
        let (b, _) = blocks_text(f, locs, frame, fnames, gn, f.layout@.len() as int, seq!["t5"@, "t6"@])->Ok_0;
        assert(t == h + b);
        assert(t.subrange(0, h.len() as int) =~= h);
    }
}

} // verus!
