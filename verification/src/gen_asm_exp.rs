//! RISC-V text for single instructions: loads and stores relative to `sp`,
//! operands brought into registers, and the arithmetic, memory, call and
//! control-flow instructions of the IR.
//!
//! The code generator borrows scratch registers from the allocator's pool;
//! every text below is stated together with the pool it leaves behind.
use crate::error::CompileError;
use crate::ir::{ty_size, BasicBlock, Function, FunctionData, Ty, Value, ValueKind};
use crate::reg_alloc::{location_of, reg_name, LinearScanAlloc, Loc, VariableLocation};
use vstd::string::StrSliceExecFns;
use crate::util::{append_i32, append_isize, append_usize, dec_int, dec_nat, str_eq, str_with_u64};
use vstd::prelude::*;

verus! {

/// `x` fits in a 12-bit signed immediate.
pub open spec fn fits_i12_spec(x: int) -> bool {
    -2048 <= x <= 2047
}

/// The immediate check of the `sp`-relative helpers, on the offset as the
/// signed machine integer that `as isize` makes of it.
pub open spec fn offset_fits(off: usize) -> bool {
    fits_i12_spec((off as isize) as int)
}

/// Whether `x` fits in a 12-bit signed immediate.
pub fn fits_i12(x: isize) -> (r: bool)
    ensures r == fits_i12_spec(x as int),
{
    -2048 <= x && x <= 2047
}

/// `lw dst, off(sp)`, through register `addr` where the offset does not
/// fit in an immediate.
pub open spec fn load_sp_text(dst: Seq<char>, off: usize, addr: Seq<char>) -> Seq<char> {
    if offset_fits(off) {
        "\tlw "@ + dst + ", "@ + dec_nat(off as nat) + "(sp)\n"@
    } else {
        "\tli "@ + addr + ", "@ + dec_nat(off as nat) + "\n\tadd "@ + addr + ", sp, "@ + addr + "\n\tlw "@ + dst
            + ", 0("@ + addr + ")\n"@
    }
}

/// `sw src, off(sp)`, through register `addr` where the offset does not
/// fit in an immediate.
pub open spec fn store_sp_text(src: Seq<char>, off: usize, addr: Seq<char>) -> Seq<char> {
    if offset_fits(off) {
        "\tsw "@ + src + ", "@ + dec_nat(off as nat) + "(sp)\n"@
    } else {
        "\tli "@ + addr + ", "@ + dec_nat(off as nat) + "\n\tadd "@ + addr + ", sp, "@ + addr + "\n\tsw "@ + src
            + ", 0("@ + addr + ")\n"@
    }
}

/// `dst = sp + off`.
pub open spec fn addr_sp_text(dst: Seq<char>, off: usize) -> Seq<char> {
    if offset_fits(off) {
        "\taddi "@ + dst + ", sp, "@ + dec_nat(off as nat) + "\n"@
    } else {
        "\tli "@ + dst + ", "@ + dec_nat(off as nat) + "\n\tadd "@ + dst + ", sp, "@ + dst + "\n"@
    }
}

/// The text of a `sp`-relative load or store that borrows a scratch register
/// for a large offset, and the pool it leaves (the same pool), or the error
/// where none is free.
pub open spec fn sp_access(load: bool, reg: Seq<char>, off: usize, pool: Seq<Seq<char>>) -> Result<Seq<char>, CompileError> {
    if offset_fits(off) {
        Ok(if load { load_sp_text(reg, off, seq![]) } else { store_sp_text(reg, off, seq![]) })
    } else if pool.len() == 0 {
        Err(CompileError::NoScratchRegister)
    } else {
        Ok(if load { load_sp_text(reg, off, pool.last()) } else { store_sp_text(reg, off, pool.last()) })
    }
}

/// `lw dst, offset(sp)`; a large offset goes through a scratch register.
pub fn emit_load_from_sp(dst: &str, offset: usize, reg_alloc: &mut LinearScanAlloc) -> (r: Result<String, CompileError>)
    requires old(reg_alloc).wf(),
    ensures
        final(reg_alloc).scratch() == old(reg_alloc).scratch(),
        final(reg_alloc).locations() == old(reg_alloc).locations(),
        final(reg_alloc).frame_size() == old(reg_alloc).frame_size(),
        final(reg_alloc).wf(),
        match r {
            Ok(s) => sp_access(true, dst@, offset, old(reg_alloc).scratch()) == Ok::<Seq<char>, CompileError>(s@),
            Err(e) => sp_access(true, dst@, offset, old(reg_alloc).scratch()) == Err::<Seq<char>, CompileError>(e),
        },
{
    let mut s = String::new();
    if fits_i12(offset as isize) {
        s.append("\tlw ");
        s.append(dst);
        s.append(", ");
        append_usize(&mut s, offset);
        s.append("(sp)\n");
        assert(s@ =~= load_sp_text(dst@, offset, seq![]));
        Ok(s)
    } else {
        if reg_alloc.scratch_len() == 0 {
            return Err(CompileError::NoScratchRegister);
        }
        let addr = reg_alloc.acquire_scratch();
        s.append("\tli ");
        s.append(addr.as_str());
        s.append(", ");
        append_usize(&mut s, offset);
        s.append("\n\tadd ");
        s.append(addr.as_str());
        s.append(", sp, ");
        s.append(addr.as_str());
        s.append("\n\tlw ");
        s.append(dst);
        s.append(", 0(");
        s.append(addr.as_str());
        s.append(")\n");
        assert(s@ =~= load_sp_text(dst@, offset, addr@));
        reg_alloc.release_scratch(addr);
        assert(reg_alloc.scratch() =~= old(reg_alloc).scratch());
        Ok(s)
    }
}

/// `sw src, offset(sp)`; a large offset goes through a scratch register.
pub fn emit_store_to_sp(src: &str, offset: usize, reg_alloc: &mut LinearScanAlloc) -> (r: Result<String, CompileError>)
    requires old(reg_alloc).wf(),
    ensures
        final(reg_alloc).scratch() == old(reg_alloc).scratch(),
        final(reg_alloc).locations() == old(reg_alloc).locations(),
        final(reg_alloc).frame_size() == old(reg_alloc).frame_size(),
        final(reg_alloc).wf(),
        match r {
            Ok(s) => sp_access(false, src@, offset, old(reg_alloc).scratch()) == Ok::<Seq<char>, CompileError>(s@),
            Err(e) => sp_access(false, src@, offset, old(reg_alloc).scratch()) == Err::<Seq<char>, CompileError>(e),
        },
{
    let mut s = String::new();
    if fits_i12(offset as isize) {
        s.append("\tsw ");
        s.append(src);
        s.append(", ");
        append_usize(&mut s, offset);
        s.append("(sp)\n");
        assert(s@ =~= store_sp_text(src@, offset, seq![]));
        Ok(s)
    } else {
        if reg_alloc.scratch_len() == 0 {
            return Err(CompileError::NoScratchRegister);
        }
        let addr = reg_alloc.acquire_scratch();
        s.append("\tli ");
        s.append(addr.as_str());
        s.append(", ");
        append_usize(&mut s, offset);
        s.append("\n\tadd ");
        s.append(addr.as_str());
        s.append(", sp, ");
        s.append(addr.as_str());
        s.append("\n\tsw ");
        s.append(src);
        s.append(", 0(");
        s.append(addr.as_str());
        s.append(")\n");
        assert(s@ =~= store_sp_text(src@, offset, addr@));
        reg_alloc.release_scratch(addr);
        assert(reg_alloc.scratch() =~= old(reg_alloc).scratch());
        Ok(s)
    }
}

/// `dst = sp + offset`.
pub fn emit_addr_from_sp(dst: &str, offset: usize) -> (r: String)
    ensures r@ == addr_sp_text(dst@, offset),
{
    let mut s = String::new();
    if fits_i12(offset as isize) {
        s.append("\taddi ");
        s.append(dst);
        s.append(", sp, ");
        append_usize(&mut s, offset);
        s.append("\n");
    } else {
        s.append("\tli ");
        s.append(dst);
        s.append(", ");
        append_usize(&mut s, offset);
        s.append("\n\tadd ");
        s.append(dst);
        s.append(", sp, ");
        s.append(dst);
        s.append("\n");
    }
    assert(s@ =~= addr_sp_text(dst@, offset));
    s
}

/// Loads the stack slot at `offset` into `scratch`, which also carries a
/// large offset.
pub fn load_stack_to_scratch(offset: usize, scratch: &str) -> (r: String)
    ensures r@ == load_sp_text(scratch@, offset, scratch@),
{
    let mut s = String::new();
    if fits_i12(offset as isize) {
        s.append("\tlw ");
        s.append(scratch);
        s.append(", ");
        append_usize(&mut s, offset);
        s.append("(sp)\n");
    } else {
        s.append("\tli ");
        s.append(scratch);
        s.append(", ");
        append_usize(&mut s, offset);
        s.append("\n\tadd ");
        s.append(scratch);
        s.append(", sp, ");
        s.append(scratch);
        s.append("\n\tlw ");
        s.append(scratch);
        s.append(", 0(");
        s.append(scratch);
        s.append(")\n");
    }
    assert(s@ =~= load_sp_text(scratch@, offset, scratch@));
    s
}

/// Loads the stack slot of `value` into `scratch`; fails where the value is
/// not on the stack.
pub fn load_variable_stack_to_scratch(value: &Value, reg_alloc: &LinearScanAlloc, scratch: &str) -> (r: Result<String, CompileError>)
    requires reg_alloc.wf(),
    ensures
        match loc_of(reg_alloc.locations(), *value) {
            Loc::Slot(o) => r matches Ok(s) && s@ == load_sp_text(scratch@, (o - 4) as usize, scratch@),
            _ => r == Err::<String, CompileError>(CompileError::NoLocation),
        },
{
    let loc = reg_alloc.get_variable(value);
    proof { lemma_location(reg_alloc.locations(), *value, loc); }
    match loc {
        VariableLocation::Stack(offset) => Ok(load_stack_to_scratch(offset, scratch)),
        _ => Err(CompileError::NoLocation),
    }
}

/// An allocation needs no code: its slot is part of the frame.
pub fn process_alloc_inst() -> (r: String)
    ensures r@ == Seq::<char>::empty(),
{
    String::new()
}


/// The kind of `v` as the code generator of `f` reads it: a value of `f`
/// itself, or an error for a missing or a global value.
pub open spec fn kind_of(f: FunctionData, v: Value) -> Result<ValueKind, CompileError> {
    match v {
        Value::Local(i) => if i < f.values@.len() {
            Ok(f.values@[i as int].kind)
        } else {
            Err(CompileError::InvalidHandle)
        },
        Value::Global(_) => Err(CompileError::NotLocal),
    }
}

/// Where the allocation `locs` puts `v`.
pub open spec fn loc_of(locs: Seq<Loc>, v: Value) -> Loc {
    match v {
        Value::Local(i) => if i < locs.len() { locs[i as int] } else { Loc::Unassigned },
        Value::Global(_) => Loc::Unassigned,
    }
}

/// The kind of a value of `f`.
pub fn value_kind<'a>(f: &'a FunctionData, v: Value) -> (r: Result<&'a ValueKind, CompileError>)
    ensures
        match r {
            Ok(k) => kind_of(*f, v) == Ok::<ValueKind, CompileError>(*k),
            Err(e) => kind_of(*f, v) == Err::<ValueKind, CompileError>(e),
        },
{
    match v {
        Value::Local(i) => if i < f.values.len() {
            Ok(&f.values[i].kind)
        } else {
            Err(CompileError::InvalidHandle)
        },
        Value::Global(_) => Err(CompileError::NotLocal),
    }
}

proof fn lemma_location(locs: Seq<Loc>, v: Value, r: VariableLocation)
    requires location_of(locs, v, r),
    ensures
        match loc_of(locs, v) {
            Loc::Reg(n) => r matches VariableLocation::Register(s) && s@ == reg_name(n),
            Loc::Slot(s) => r == VariableLocation::Stack((s - 4) as usize),
            Loc::Unassigned => r is Nowhere,
        },
{
}

/// `op a, b` in the two-operand form `\top\ta, b`.
pub open spec fn op2_text(op: Seq<char>, a: Seq<char>, b: Seq<char>) -> Seq<char> {
    "\t"@ + op + "\t"@ + a + ", "@ + b + "\n"@
}

/// `op t, a, b` in the form `\top\tt, a, b`.
pub open spec fn op3_text(op: Seq<char>, t: Seq<char>, a: Seq<char>, b: Seq<char>) -> Seq<char> {
    "\t"@ + op + "\t"@ + t + ", "@ + a + ", "@ + b + "\n"@
}

/// An operand brought into a register: the code that loads it, the register
/// that holds it, and whether that is the scratch register `s`. Zero is
/// `x0`, other integers are loaded into `s`, values come from their register
/// or are loaded from their slot into `s`.
pub open spec fn materialize(f: FunctionData, locs: Seq<Loc>, v: Value, s: Seq<char>) -> Result<(Seq<char>, Seq<char>, bool), CompileError> {
    match kind_of(f, v) {
        Err(e) => Err(e),
        Ok(ValueKind::Integer(n)) => if n == 0 {
            Ok((seq![], "x0"@, false))
        } else {
            Ok(("\tli\t"@ + s + ", "@ + dec_int(n as int) + "\n"@, s, true))
        },
        Ok(_) => match loc_of(locs, v) {
            Loc::Reg(n) => Ok((seq![], reg_name(n), false)),
            Loc::Slot(o) => Ok((load_sp_text(s, (o - 4) as usize, s), s, true)),
            Loc::Unassigned => Err(CompileError::NoLocation),
        },
    }
}

/// Brings `value` into a register, using `preferred_scratch` where it is
/// not in one already.
pub fn materialize_operand(value: Value, f: &FunctionData, reg_alloc: &LinearScanAlloc, preferred_scratch: &str)
    -> (r: Result<(String, String, bool), CompileError>)
    requires reg_alloc.wf(),
    ensures
        match r {
            Ok((a, reg, u)) => materialize(*f, reg_alloc.locations(), value, preferred_scratch@)
                == Ok::<(Seq<char>, Seq<char>, bool), CompileError>((a@, reg@, u)),
            Err(e) => materialize(*f, reg_alloc.locations(), value, preferred_scratch@)
                == Err::<(Seq<char>, Seq<char>, bool), CompileError>(e),
        },
{
    let kind = value_kind(f, value)?;
    match kind {
        ValueKind::Integer(n) => {
            if *n == 0 {
                let x0 = String::from_str("x0");
                Ok((String::new(), x0, false))
            } else {
                let mut a = String::new();
                a.append("\tli\t");
                a.append(preferred_scratch);
                a.append(", ");
                append_i32(&mut a, *n);
                a.append("\n");
                assert(a@ =~= "\tli\t"@ + preferred_scratch@ + ", "@ + dec_int(*n as int) + "\n"@);
                Ok((a, String::from_str(preferred_scratch), true))
            }
        },
        _ => {
            let loc = reg_alloc.get_variable(&value);
            proof { lemma_location(reg_alloc.locations(), value, loc); }
            match loc {
                VariableLocation::Register(reg) => Ok((String::new(), reg, false)),
                VariableLocation::Stack(offset) => {
                    let a = load_stack_to_scratch(offset, preferred_scratch);
                    Ok((a, String::from_str(preferred_scratch), true))
                },
                VariableLocation::Nowhere => Err(CompileError::NoLocation),
            }
        },
    }
}

/// Both operands of a binary instruction in registers: the code, the two
/// registers, the scratch registers still borrowed, and the pool left. The
/// left operand may use the last scratch register of the pool, the right
/// one the one before it; a scratch register that its operand does not use
/// goes back to the pool at once.
pub open spec fn temp_operands(f: FunctionData, locs: Seq<Loc>, lhs: Value, rhs: Value, pool: Seq<Seq<char>>)
    -> Result<(Seq<char>, Seq<char>, Seq<char>, Seq<Seq<char>>, Seq<Seq<char>>), CompileError> {
    if pool.len() < 2 {
        Err(CompileError::NoScratchRegister)
    } else {
        let ls = pool.last();
        let rs = pool[pool.len() - 2];
        let p2 = pool.take(pool.len() - 2);
        match materialize(f, locs, lhs, ls) {
            Err(e) => Err(e),
            Ok((la, lr, lu)) => match materialize(f, locs, rhs, rs) {
                Err(e) => Err(e),
                Ok((ra, rr, ru)) => {
                    let p3 = if lu { p2 } else { p2.push(ls) };
                    let b1: Seq<Seq<char>> = if lu { seq![ls] } else { seq![] };
                    let p4 = if ru { p3 } else { p3.push(rs) };
                    let b2 = if ru { b1.push(rs) } else { b1 };
                    Ok((la + ra, lr, rr, b2, p4))
                },
            },
        }
    }
}

/// The operands of a binary instruction, loaded.
pub struct LoadedBinaryOperands {
    pub code: String,
    pub leftreg: String,
    pub rightreg: String,
    pub borrowed_scratch: Vec<String>,
}

/// Brings both operands into registers.
fn load_temp_int(lhs: Value, rhs: Value, f: &FunctionData, reg_alloc: &mut LinearScanAlloc)
    -> (r: Result<LoadedBinaryOperands, CompileError>)
    requires old(reg_alloc).wf(),
    ensures
        final(reg_alloc).locations() == old(reg_alloc).locations(),
        final(reg_alloc).frame_size() == old(reg_alloc).frame_size(),
        final(reg_alloc).wf(),
        match r {
            Ok(l) => temp_operands(*f, old(reg_alloc).locations(), lhs, rhs, old(reg_alloc).scratch())
                == Ok::<(Seq<char>, Seq<char>, Seq<char>, Seq<Seq<char>>, Seq<Seq<char>>), CompileError>(
                (l.code@, l.leftreg@, l.rightreg@, l.borrowed_scratch@.map_values(|s: String| s@), final(reg_alloc).scratch())),
            Err(e) => temp_operands(*f, old(reg_alloc).locations(), lhs, rhs, old(reg_alloc).scratch())
                == Err::<(Seq<char>, Seq<char>, Seq<char>, Seq<Seq<char>>, Seq<Seq<char>>), CompileError>(e),
        },
{
    let ghost pool = reg_alloc.scratch();
    if reg_alloc.scratch_len() < 2 {
        return Err(CompileError::NoScratchRegister);
    }
    let left_scratch = reg_alloc.acquire_scratch();
    let right_scratch = reg_alloc.acquire_scratch();
    proof {
        assert(pool.drop_last().last() == pool[pool.len() - 2]);
        assert(reg_alloc.scratch() =~= pool.take(pool.len() - 2));
    }
    let (left_asm, leftreg, left_uses_scratch) = materialize_operand(lhs, f, reg_alloc, left_scratch.as_str())?;
    let (right_asm, rightreg, right_uses_scratch) = materialize_operand(rhs, f, reg_alloc, right_scratch.as_str())?;
    let mut borrowed_scratch: Vec<String> = Vec::new();
    let ghost ls = left_scratch@;
    let ghost rs = right_scratch@;
    if left_uses_scratch {
        borrowed_scratch.push(left_scratch);
    } else {
        reg_alloc.release_scratch(left_scratch);
    }
    if right_uses_scratch {
        borrowed_scratch.push(right_scratch);
    } else {
        reg_alloc.release_scratch(right_scratch);
    }
    let mut code = left_asm;
    code.append(right_asm.as_str());
    proof {
        let b1: Seq<Seq<char>> = if left_uses_scratch { seq![ls] } else { seq![] };
        let b2 = if right_uses_scratch { b1.push(rs) } else { b1 };
        assert(borrowed_scratch@.map_values(|s: String| s@) =~= b2);
    }
    Ok(LoadedBinaryOperands { code, leftreg, rightreg, borrowed_scratch })
}

/// Gives the borrowed scratch registers back, in order.
fn release_scratch_regs(reg_alloc: &mut LinearScanAlloc, regs: Vec<String>)
    requires old(reg_alloc).wf(),
    ensures
        final(reg_alloc).scratch() == old(reg_alloc).scratch() + regs@.map_values(|s: String| s@),
        final(reg_alloc).locations() == old(reg_alloc).locations(),
        final(reg_alloc).frame_size() == old(reg_alloc).frame_size(),
        final(reg_alloc).wf(),
{
    let n = regs.len();
    let mut i: usize = 0;
    while i < n
        invariant
            n == regs@.len(), i <= n,
            reg_alloc.scratch() == old(reg_alloc).scratch() + regs@.take(i as int).map_values(|s: String| s@),
            reg_alloc.locations() == old(reg_alloc).locations(),
            reg_alloc.frame_size() == old(reg_alloc).frame_size(),
            reg_alloc.wf(),
        decreases n - i,
    {
        let r = regs[i].clone();
        reg_alloc.release_scratch(r);
        assert(regs@.take(i + 1).map_values(|s: String| s@) =~= regs@.take(i as int).map_values(|s: String| s@).push(regs@[i as int]@));
        i = i + 1;
    }
    assert(regs@.take(n as int) =~= regs@);
}


/// A binary instruction whose operands are first brought into registers:
/// the loading code, `op1 t, l, r`, and, if given, `op2 t, t`; and the pool
/// with the borrowed scratch registers given back.
pub open spec fn with_operands(f: FunctionData, locs: Seq<Loc>, lhs: Value, rhs: Value, pool: Seq<Seq<char>>,
    t: Seq<char>, op1: Seq<char>, op2: Option<Seq<char>>) -> Result<(Seq<char>, Seq<Seq<char>>), CompileError> {
    match temp_operands(f, locs, lhs, rhs, pool) {
        Err(e) => Err(e),
        Ok((a, l, r, b, p)) => Ok((
            a + op3_text(op1, t, l, r) + match op2 { Some(o) => op2_text(o, t, t), None => Seq::<char>::empty() },
            p + b,
        )),
    }
}

/// What the binary-instruction helpers promise of the allocator.
pub open spec fn alloc_kept(a0: LinearScanAlloc, a1: LinearScanAlloc) -> bool {
    &&& a1.locations() == a0.locations()
    &&& a1.frame_size() == a0.frame_size()
    &&& a1.wf()
}

/// A helper's result matches `spec`: the text on success (with the pool it
/// leaves), the error otherwise.
pub open spec fn text_result(r: Result<String, CompileError>, pool: Seq<Seq<char>>,
    spec: Result<(Seq<char>, Seq<Seq<char>>), CompileError>) -> bool {
    match r {
        Ok(s) => spec == Ok::<(Seq<char>, Seq<Seq<char>>), CompileError>((s@, pool)),
        Err(e) => spec == Err::<(Seq<char>, Seq<Seq<char>>), CompileError>(e),
    }
}

fn loaded_op(lhs: Value, rhs: Value, f: &FunctionData, reg_alloc: &mut LinearScanAlloc, target: &str, op1: &str, op2: Option<&str>)
    -> (r: Result<String, CompileError>)
    requires old(reg_alloc).wf(),
    ensures
        alloc_kept(*old(reg_alloc), *final(reg_alloc)),
        text_result(r, final(reg_alloc).scratch(), with_operands(*f, old(reg_alloc).locations(), lhs, rhs,
            old(reg_alloc).scratch(), target@, op1@, match op2 { Some(o) => Some(o@), None => None })),
{
    let loaded = load_temp_int(lhs, rhs, f, reg_alloc)?;
    let ghost l = loaded;
    let mut code = loaded.code;
    code.append("\t");
    code.append(op1);
    code.append("\t");
    code.append(target);
    code.append(", ");
    code.append(loaded.leftreg.as_str());
    code.append(", ");
    code.append(loaded.rightreg.as_str());
    code.append("\n");
    match op2 {
        Some(o) => {
            code.append("\t");
            code.append(o);
            code.append("\t");
            code.append(target);
            code.append(", ");
            code.append(target);
            code.append("\n");
        },
        None => {},
    }
    proof {
        let tail = match op2 { Some(o) => op2_text(o@, target@, target@), None => Seq::<char>::empty() };
        assert(code@ =~= l.code@ + op3_text(op1@, target@, l.leftreg@, l.rightreg@) + tail);
    }
    release_scratch_regs(reg_alloc, loaded.borrowed_scratch);
    Ok(code)
}

/// `op target, lhs, rhs` for an operation with a machine instruction of
/// its own.
pub fn process_inst(lhs: Value, rhs: Value, f: &FunctionData, reg_alloc: &mut LinearScanAlloc, target: String, inst: &str)
    -> (r: Result<String, CompileError>)
    requires old(reg_alloc).wf(),
    ensures
        alloc_kept(*old(reg_alloc), *final(reg_alloc)),
        text_result(r, final(reg_alloc).scratch(), with_operands(*f, old(reg_alloc).locations(), lhs, rhs,
            old(reg_alloc).scratch(), target@, inst@, None)),
{
    loaded_op(lhs, rhs, f, reg_alloc, target.as_str(), inst, None)
}

/// `target = (lhs == rhs)`: `xor` then `seqz`.
pub fn process_eq_inst(lhs: Value, rhs: Value, f: &FunctionData, reg_alloc: &mut LinearScanAlloc, target: String)
    -> (r: Result<String, CompileError>)
    requires old(reg_alloc).wf(),
    ensures
        alloc_kept(*old(reg_alloc), *final(reg_alloc)),
        text_result(r, final(reg_alloc).scratch(), with_operands(*f, old(reg_alloc).locations(), lhs, rhs,
            old(reg_alloc).scratch(), target@, "xor"@, Some("seqz"@))),
{
    loaded_op(lhs, rhs, f, reg_alloc, target.as_str(), "xor", Some("seqz"))
}

/// `target = (lhs != rhs)`: `xor` then `snez`.
pub fn process_neq_inst(lhs: Value, rhs: Value, f: &FunctionData, reg_alloc: &mut LinearScanAlloc, target: String)
    -> (r: Result<String, CompileError>)
    requires old(reg_alloc).wf(),
    ensures
        alloc_kept(*old(reg_alloc), *final(reg_alloc)),
        text_result(r, final(reg_alloc).scratch(), with_operands(*f, old(reg_alloc).locations(), lhs, rhs,
            old(reg_alloc).scratch(), target@, "xor"@, Some("snez"@))),
{
    loaded_op(lhs, rhs, f, reg_alloc, target.as_str(), "xor", Some("snez"))
}

/// `target = (lhs <= rhs)`: `sgt` then `seqz`.
pub fn process_le_inst(lhs: Value, rhs: Value, f: &FunctionData, reg_alloc: &mut LinearScanAlloc, target: String)
    -> (r: Result<String, CompileError>)
    requires old(reg_alloc).wf(),
    ensures
        alloc_kept(*old(reg_alloc), *final(reg_alloc)),
        text_result(r, final(reg_alloc).scratch(), with_operands(*f, old(reg_alloc).locations(), lhs, rhs,
            old(reg_alloc).scratch(), target@, "sgt"@, Some("seqz"@))),
{
    loaded_op(lhs, rhs, f, reg_alloc, target.as_str(), "sgt", Some("seqz"))
}

/// `target = (lhs >= rhs)`: `slt` then `seqz`.
pub fn process_ge_inst(lhs: Value, rhs: Value, f: &FunctionData, reg_alloc: &mut LinearScanAlloc, target: String)
    -> (r: Result<String, CompileError>)
    requires old(reg_alloc).wf(),
    ensures
        alloc_kept(*old(reg_alloc), *final(reg_alloc)),
        text_result(r, final(reg_alloc).scratch(), with_operands(*f, old(reg_alloc).locations(), lhs, rhs,
            old(reg_alloc).scratch(), target@, "slt"@, Some("seqz"@))),
{
    loaded_op(lhs, rhs, f, reg_alloc, target.as_str(), "slt", Some("seqz"))
}

/// A logical `and` or `or`: both operands copied into the two scratch
/// registers, each turned into 0 or 1, then combined by `op`. Both scratch
/// registers go back to the pool, the left one first.
pub open spec fn logic_result(f: FunctionData, locs: Seq<Loc>, lhs: Value, rhs: Value, pool: Seq<Seq<char>>,
    t: Seq<char>, op: Seq<char>) -> Result<(Seq<char>, Seq<Seq<char>>), CompileError> {
    if pool.len() < 2 {
        Err(CompileError::NoScratchRegister)
    } else {
        let ls = pool.last();
        let rs = pool[pool.len() - 2];
        let p2 = pool.take(pool.len() - 2);
        match materialize(f, locs, lhs, ls) {
            Err(e) => Err(e),
            Ok((la, lr, lu)) => match materialize(f, locs, rhs, rs) {
                Err(e) => Err(e),
                Ok((ra, rr, ru)) => Ok((
                    la + ra + (if lr != ls { op2_text("mv"@, ls, lr) } else { Seq::<char>::empty() })
                        + (if rr != rs { op2_text("mv"@, rs, rr) } else { Seq::<char>::empty() })
                        + op2_text("snez"@, ls, ls) + op2_text("snez"@, rs, rs) + op3_text(op, t, ls, rs),
                    p2.push(ls).push(rs),
                )),
            },
        }
    }
}

/// `\top\ta, b`.
pub fn text_op2(op: &str, a: &str, b: &str) -> (r: String)
    ensures r@ == op2_text(op@, a@, b@),
{
    let mut code = String::new();
    code.append("\t");
    code.append(op);
    code.append("\t");
    code.append(a);
    code.append(", ");
    code.append(b);
    code.append("\n");
    assert(code@ =~= op2_text(op@, a@, b@));
    code
}

/// `\top\tt, a, b`.
pub fn text_op3(op: &str, t: &str, a: &str, b: &str) -> (r: String)
    ensures r@ == op3_text(op@, t@, a@, b@),
{
    let mut code = String::new();
    code.append("\t");
    code.append(op);
    code.append("\t");
    code.append(t);
    code.append(", ");
    code.append(a);
    code.append(", ");
    code.append(b);
    code.append("\n");
    assert(code@ =~= op3_text(op@, t@, a@, b@));
    code
}

/// `mv dst, src` unless the two are the same register.
fn mv_if_differs(dst: &str, src: &str) -> (r: String)
    ensures r@ == (if src@ != dst@ { op2_text("mv"@, dst@, src@) } else { Seq::<char>::empty() }),
{
    if str_eq(src, dst) {
        String::new()
    } else {
        text_op2("mv", dst, src)
    }
}

fn logic_op(lhs: Value, rhs: Value, f: &FunctionData, reg_alloc: &mut LinearScanAlloc, target: &str, op: &str)
    -> (r: Result<String, CompileError>)
    requires old(reg_alloc).wf(),
    ensures
        alloc_kept(*old(reg_alloc), *final(reg_alloc)),
        text_result(r, final(reg_alloc).scratch(), logic_result(*f, old(reg_alloc).locations(), lhs, rhs,
            old(reg_alloc).scratch(), target@, op@)),
{
    let ghost pool = reg_alloc.scratch();
    if reg_alloc.scratch_len() < 2 {
        return Err(CompileError::NoScratchRegister);
    }
    let left_scratch = reg_alloc.acquire_scratch();
    let right_scratch = reg_alloc.acquire_scratch();
    proof {
        assert(pool.drop_last().last() == pool[pool.len() - 2]);
        assert(reg_alloc.scratch() =~= pool.take(pool.len() - 2));
    }
    let (left_code, leftreg, _) = materialize_operand(lhs, f, reg_alloc, left_scratch.as_str())?;
    let (right_code, rightreg, _) = materialize_operand(rhs, f, reg_alloc, right_scratch.as_str())?;
    let mut code = left_code;
    code.append(right_code.as_str());
    let m1 = mv_if_differs(left_scratch.as_str(), leftreg.as_str());
    code.append(m1.as_str());
    let m2 = mv_if_differs(right_scratch.as_str(), rightreg.as_str());
    code.append(m2.as_str());
    let t1 = text_op2("snez", left_scratch.as_str(), left_scratch.as_str());
    code.append(t1.as_str());
    let t2 = text_op2("snez", right_scratch.as_str(), right_scratch.as_str());
    code.append(t2.as_str());
    let t3 = text_op3(op, target, left_scratch.as_str(), right_scratch.as_str());
    code.append(t3.as_str());
    reg_alloc.release_scratch(left_scratch);
    reg_alloc.release_scratch(right_scratch);
    Ok(code)
}

/// `target = (lhs != 0) & (rhs != 0)`.
pub fn process_and_inst(lhs: Value, rhs: Value, f: &FunctionData, reg_alloc: &mut LinearScanAlloc, target: String)
    -> (r: Result<String, CompileError>)
    requires old(reg_alloc).wf(),
    ensures
        alloc_kept(*old(reg_alloc), *final(reg_alloc)),
        text_result(r, final(reg_alloc).scratch(), logic_result(*f, old(reg_alloc).locations(), lhs, rhs,
            old(reg_alloc).scratch(), target@, "and"@)),
{
    logic_op(lhs, rhs, f, reg_alloc, target.as_str(), "and")
}

/// `target = (lhs != 0) | (rhs != 0)`.
pub fn process_or_inst(lhs: Value, rhs: Value, f: &FunctionData, reg_alloc: &mut LinearScanAlloc, target: String)
    -> (r: Result<String, CompileError>)
    requires old(reg_alloc).wf(),
    ensures
        alloc_kept(*old(reg_alloc), *final(reg_alloc)),
        text_result(r, final(reg_alloc).scratch(), logic_result(*f, old(reg_alloc).locations(), lhs, rhs,
            old(reg_alloc).scratch(), target@, "or"@)),
{
    logic_op(lhs, rhs, f, reg_alloc, target.as_str(), "or")
}


/// `\top a, b` (operands after a space).
pub open spec fn ins2_text(op: Seq<char>, a: Seq<char>, b: Seq<char>) -> Seq<char> {
    "\t"@ + op + " "@ + a + ", "@ + b + "\n"@
}

/// `\top t, a, b` (operands after a space).
pub open spec fn ins3_text(op: Seq<char>, t: Seq<char>, a: Seq<char>, b: Seq<char>) -> Seq<char> {
    "\t"@ + op + " "@ + t + ", "@ + a + ", "@ + b + "\n"@
}

/// `\top r, 0(base)`.
pub open spec fn mem_text(op: Seq<char>, r: Seq<char>, base: Seq<char>) -> Seq<char> {
    "\t"@ + op + " "@ + r + ", 0("@ + base + ")\n"@
}

/// `\top target`.
pub open spec fn ins1_text(op: Seq<char>, target: Seq<char>) -> Seq<char> {
    "\t"@ + op + " "@ + target + "\n"@
}

/// `\top a, b`.
pub fn text_ins2(op: &str, a: &str, b: &str) -> (r: String)
    ensures r@ == ins2_text(op@, a@, b@),
{
    let mut code = String::new();
    code.append("\t");
    code.append(op);
    code.append(" ");
    code.append(a);
    code.append(", ");
    code.append(b);
    code.append("\n");
    assert(code@ =~= ins2_text(op@, a@, b@));
    code
}

/// `\top t, a, b`.
pub fn text_ins3(op: &str, t: &str, a: &str, b: &str) -> (r: String)
    ensures r@ == ins3_text(op@, t@, a@, b@),
{
    let mut code = String::new();
    code.append("\t");
    code.append(op);
    code.append(" ");
    code.append(t);
    code.append(", ");
    code.append(a);
    code.append(", ");
    code.append(b);
    code.append("\n");
    assert(code@ =~= ins3_text(op@, t@, a@, b@));
    code
}

/// `\top r, 0(base)`.
pub fn text_mem(op: &str, r: &str, base: &str) -> (s: String)
    ensures s@ == mem_text(op@, r@, base@),
{
    let mut code = String::new();
    code.append("\t");
    code.append(op);
    code.append(" ");
    code.append(r);
    code.append(", 0(");
    code.append(base);
    code.append(")\n");
    assert(code@ =~= mem_text(op@, r@, base@));
    code
}

/// `\top target`.
pub fn text_ins1(op: &str, target: &str) -> (r: String)
    ensures r@ == ins1_text(op@, target@),
{
    let mut code = String::new();
    code.append("\t");
    code.append(op);
    code.append(" ");
    code.append(target);
    code.append("\n");
    assert(code@ =~= ins1_text(op@, target@));
    code
}

/// The decimal form of an `i32`.
pub fn num_i32(n: i32) -> (r: String)
    ensures r@ == dec_int(n as int),
{
    let mut s = String::new();
    append_i32(&mut s, n);
    assert(s@ =~= dec_int(n as int));
    s
}

/// The decimal form of a `usize`.
pub fn num_usize(n: usize) -> (r: String)
    ensures r@ == dec_nat(n as nat),
{
    let mut s = String::new();
    append_usize(&mut s, n);
    assert(s@ =~= dec_nat(n as nat));
    s
}

/// Code that puts the address that `src` points to into `base`: the
/// pointer's register, the address of a local allocation's slot, a pointer
/// loaded from its slot, or the address of a named global.
pub open spec fn pointer_base(f: FunctionData, locs: Seq<Loc>, global_names: Seq<Option<Seq<char>>>, src: Value,
    base: Seq<char>, pool: Seq<Seq<char>>) -> Result<Seq<char>, CompileError> {
    match loc_of(locs, src) {
        Loc::Reg(n) => Ok(ins2_text("mv"@, base, reg_name(n))),
        Loc::Slot(o) => match kind_of(f, src) {
            Ok(ValueKind::Alloc) => Ok(addr_sp_text(base, (o - 4) as usize)),
            _ => sp_access(true, base, (o - 4) as usize, pool),
        },
        Loc::Unassigned => match src {
            Value::Global(g) => if g < global_names.len() && global_names[g as int] is Some {
                Ok(ins2_text("la"@, base, global_names[g as int]->Some_0))
            } else {
                Err(CompileError::NoLocation)
            },
            Value::Local(_) => Err(CompileError::NoLocation),
        },
    }
}

/// The names of the functions as plain text.
pub open spec fn fn_names_view(names: Seq<String>) -> Seq<Seq<char>> {
    names.map_values(|s: String| s@)
}

/// The names of the global values as plain text.
pub open spec fn names_view(names: Seq<Option<String>>) -> Seq<Option<Seq<char>>> {
    names.map_values(|n: Option<String>| match n { Some(s) => Some(s@), None => None })
}

/// Puts the address that `src` points to into `base_reg`.
pub fn load_pointer_base(src: Value, base_reg: &str, f: &FunctionData, reg_alloc: &mut LinearScanAlloc,
    global_names: &Vec<Option<String>>) -> (r: Result<String, CompileError>)
    requires old(reg_alloc).wf(),
    ensures
        alloc_kept(*old(reg_alloc), *final(reg_alloc)),
        final(reg_alloc).scratch() == old(reg_alloc).scratch(),
        match r {
            Ok(s) => pointer_base(*f, old(reg_alloc).locations(), names_view(global_names@), src, base_reg@,
                old(reg_alloc).scratch()) == Ok::<Seq<char>, CompileError>(s@),
            Err(e) => pointer_base(*f, old(reg_alloc).locations(), names_view(global_names@), src, base_reg@,
                old(reg_alloc).scratch()) == Err::<Seq<char>, CompileError>(e),
        },
{
    let loc = reg_alloc.get_variable(&src);
    proof { lemma_location(reg_alloc.locations(), src, loc); }
    match loc {
        VariableLocation::Register(reg) => Ok(text_ins2("mv", base_reg, reg.as_str())),
        VariableLocation::Stack(offset) => {
            let is_alloc = match value_kind(f, src) {
                Ok(ValueKind::Alloc) => true,
                _ => false,
            };
            if is_alloc {
                Ok(emit_addr_from_sp(base_reg, offset))
            } else {
                emit_load_from_sp(base_reg, offset, reg_alloc)
            }
        },
        VariableLocation::Nowhere => match src {
            Value::Global(g) => {
                if g < global_names.len() {
                    match &global_names[g] {
                        Some(name) => Ok(text_ins2("la", base_reg, name.as_str())),
                        None => Err(CompileError::NoLocation),
                    }
                } else {
                    Err(CompileError::NoLocation)
                }
            },
            Value::Local(_) => Err(CompileError::NoLocation),
        },
    }
}

/// Code that moves a value into register `dst` for an argument or an index:
/// an integer by `li`, a value from its register or its slot.
pub open spec fn value_into(f: FunctionData, locs: Seq<Loc>, v: Value, dst: Seq<char>, pool: Seq<Seq<char>>)
    -> Result<Seq<char>, CompileError> {
    match kind_of(f, v) {
        Err(e) => Err(e),
        Ok(ValueKind::Integer(n)) => Ok(ins2_text("li"@, dst, dec_int(n as int))),
        Ok(_) => match loc_of(locs, v) {
            Loc::Reg(n) => Ok(ins2_text("mv"@, dst, reg_name(n))),
            Loc::Slot(o) => sp_access(true, dst, (o - 4) as usize, pool),
            Loc::Unassigned => Err(CompileError::NoLocation),
        },
    }
}

fn move_value_into(v: Value, dst: &str, f: &FunctionData, reg_alloc: &mut LinearScanAlloc) -> (r: Result<String, CompileError>)
    requires old(reg_alloc).wf(),
    ensures
        alloc_kept(*old(reg_alloc), *final(reg_alloc)),
        final(reg_alloc).scratch() == old(reg_alloc).scratch(),
        match r {
            Ok(s) => value_into(*f, old(reg_alloc).locations(), v, dst@, old(reg_alloc).scratch()) == Ok::<Seq<char>, CompileError>(s@),
            Err(e) => value_into(*f, old(reg_alloc).locations(), v, dst@, old(reg_alloc).scratch()) == Err::<Seq<char>, CompileError>(e),
        },
{
    match value_kind(f, v)? {
        ValueKind::Integer(n) => {
            let num = num_i32(*n);
            Ok(text_ins2("li", dst, num.as_str()))
        },
        _ => {
            let loc = reg_alloc.get_variable(&v);
            proof { lemma_location(reg_alloc.locations(), v, loc); }
            match loc {
                VariableLocation::Register(reg) => Ok(text_ins2("mv", dst, reg.as_str())),
                VariableLocation::Stack(offset) => emit_load_from_sp(dst, offset, reg_alloc),
                VariableLocation::Nowhere => Err(CompileError::NoLocation),
            }
        },
    }
}

/// Code that stores register `src` into the place of `v`: a move into its
/// register or a store into its slot.
pub open spec fn result_into(locs: Seq<Loc>, v: Value, src: Seq<char>, pool: Seq<Seq<char>>) -> Result<Seq<char>, CompileError> {
    match loc_of(locs, v) {
        Loc::Reg(n) => Ok(ins2_text("mv"@, reg_name(n), src)),
        Loc::Slot(o) => sp_access(false, src, (o - 4) as usize, pool),
        Loc::Unassigned => Err(CompileError::NoLocation),
    }
}

fn store_result_of(v: Value, src: &str, reg_alloc: &mut LinearScanAlloc) -> (r: Result<String, CompileError>)
    requires old(reg_alloc).wf(),
    ensures
        alloc_kept(*old(reg_alloc), *final(reg_alloc)),
        final(reg_alloc).scratch() == old(reg_alloc).scratch(),
        match r {
            Ok(s) => result_into(old(reg_alloc).locations(), v, src@, old(reg_alloc).scratch()) == Ok::<Seq<char>, CompileError>(s@),
            Err(e) => result_into(old(reg_alloc).locations(), v, src@, old(reg_alloc).scratch()) == Err::<Seq<char>, CompileError>(e),
        },
{
    let loc = reg_alloc.get_variable(&v);
    proof { lemma_location(reg_alloc.locations(), v, loc); }
    match loc {
        VariableLocation::Register(reg) => Ok(text_ins2("mv", reg.as_str(), src)),
        VariableLocation::Stack(offset) => emit_store_to_sp(src, offset, reg_alloc),
        VariableLocation::Nowhere => Err(CompileError::NoLocation),
    }
}


/// The address `src + index * elem_size` computed into the place of `inst`,
/// with three scratch registers (base, index, scale: the last three of the
/// pool), all given back.
pub open spec fn ptr_calc_result(f: FunctionData, locs: Seq<Loc>, gn: Seq<Option<Seq<char>>>, src: Value, index: Value,
    inst: Value, elem_size: usize, pool: Seq<Seq<char>>) -> Result<Seq<char>, CompileError> {
    if pool.len() < 3 {
        Err(CompileError::NoScratchRegister)
    } else {
        let base = pool.last();
        let idx = pool[pool.len() - 2];
        let scale = pool[pool.len() - 3];
        let p3 = pool.take(pool.len() - 3);
        match pointer_base(f, locs, gn, src, base, p3) {
            Err(e) => Err(e),
            Ok(t1) => match value_into(f, locs, index, idx, p3) {
                Err(e) => Err(e),
                Ok(t2) => match result_into(locs, inst, base, p3) {
                    Err(e) => Err(e),
                    Ok(t4) => Ok(t1 + t2 + ins2_text("li"@, scale, dec_nat(elem_size as nat)) + ins3_text("mul"@, idx, idx, scale)
                        + ins3_text("add"@, base, base, idx) + t4),
                },
            },
        }
    }
}

/// What the instruction helpers promise when they give back every scratch
/// register they borrow.
pub open spec fn pool_kept(a0: LinearScanAlloc, a1: LinearScanAlloc) -> bool {
    alloc_kept(a0, a1) && a1.scratch() == a0.scratch()
}

/// The result of a helper that gives back its scratch registers.
pub open spec fn seq_result(r: Result<String, CompileError>, spec: Result<Seq<char>, CompileError>) -> bool {
    match r {
        Ok(s) => spec == Ok::<Seq<char>, CompileError>(s@),
        Err(e) => spec == Err::<Seq<char>, CompileError>(e),
    }
}

/// Computes `src + index * elem_size` into the place of `inst`.
fn lower_ptr_calc(src: Value, index: Value, inst: Value, elem_size: usize, f: &FunctionData, reg_alloc: &mut LinearScanAlloc,
    global_names: &Vec<Option<String>>) -> (r: Result<String, CompileError>)
    requires old(reg_alloc).wf(),
    ensures
        r is Ok ==> pool_kept(*old(reg_alloc), *final(reg_alloc)),
        alloc_kept(*old(reg_alloc), *final(reg_alloc)),
        seq_result(r, ptr_calc_result(*f, old(reg_alloc).locations(), names_view(global_names@), src, index, inst, elem_size,
            old(reg_alloc).scratch())),
{
    let ghost pool = reg_alloc.scratch();
    if reg_alloc.scratch_len() < 3 {
        return Err(CompileError::NoScratchRegister);
    }
    let base = reg_alloc.acquire_scratch();
    let idx = reg_alloc.acquire_scratch();
    let scale = reg_alloc.acquire_scratch();
    proof {
        assert(pool.drop_last().last() == pool[pool.len() - 2]);
        assert(pool.drop_last().drop_last().last() == pool[pool.len() - 3]);
        assert(reg_alloc.scratch() =~= pool.take(pool.len() - 3));
    }
    let mut code = load_pointer_base(src, base.as_str(), f, reg_alloc, global_names)?;
    let t2 = move_value_into(index, idx.as_str(), f, reg_alloc)?;
    code.append(t2.as_str());
    let num = num_usize(elem_size);
    let t3 = text_ins2("li", scale.as_str(), num.as_str());
    code.append(t3.as_str());
    let t4 = text_ins3("mul", idx.as_str(), idx.as_str(), scale.as_str());
    code.append(t4.as_str());
    let t5 = text_ins3("add", base.as_str(), base.as_str(), idx.as_str());
    code.append(t5.as_str());
    let t6 = store_result_of(inst, base.as_str(), reg_alloc)?;
    code.append(t6.as_str());
    reg_alloc.release_scratch(scale);
    reg_alloc.release_scratch(idx);
    reg_alloc.release_scratch(base);
    assert(reg_alloc.scratch() =~= pool);
    Ok(code)
}

/// The size of what a pointer-typed instruction points to.
pub open spec fn pointee_size(f: FunctionData, i: usize) -> Result<usize, CompileError> {
    match f.values@[i as int].ty {
        Ty::Pointer(b) => if ty_size(*b) <= usize::MAX { Ok(ty_size(*b) as usize) } else { Err(CompileError::Overflow) },
        _ => Err(CompileError::IrTypeMismatch),
    }
}

fn elem_size_of(f: &FunctionData, i: usize) -> (r: Result<usize, CompileError>)
    requires i < f.values@.len(),
    ensures r == pointee_size(*f, i),
{
    match &f.values[i].ty {
        Ty::Pointer(b) => match b.size() {
            Some(s) => Ok(s),
            None => Err(CompileError::Overflow),
        },
        _ => Err(CompileError::IrTypeMismatch),
    }
}

/// The text of an address computation `getelemptr`/`getptr` number `i`.
pub open spec fn ptr_inst_result(f: FunctionData, locs: Seq<Loc>, gn: Seq<Option<Seq<char>>>, i: usize, src: Value,
    index: Value, pool: Seq<Seq<char>>) -> Result<Seq<char>, CompileError> {
    match pointee_size(f, i) {
        Err(e) => Err(e),
        Ok(size) => ptr_calc_result(f, locs, gn, src, index, Value::Local(i), size, pool),
    }
}

/// `getelemptr`: the address of element `index` of the array at `src`.
pub fn process_getelemptr_inst(i: usize, src: Value, index: Value, f: &FunctionData, reg_alloc: &mut LinearScanAlloc,
    global_names: &Vec<Option<String>>) -> (r: Result<String, CompileError>)
    requires old(reg_alloc).wf(), i < f.values@.len(),
    ensures
        r is Ok ==> pool_kept(*old(reg_alloc), *final(reg_alloc)),
        alloc_kept(*old(reg_alloc), *final(reg_alloc)),
        seq_result(r, ptr_inst_result(*f, old(reg_alloc).locations(), names_view(global_names@), i, src, index, old(reg_alloc).scratch())),
{
    let elem_size = elem_size_of(f, i)?;
    lower_ptr_calc(src, index, Value::Local(i), elem_size, f, reg_alloc, global_names)
}

/// `getptr`: the address `index` elements after `src`.
pub fn process_getptr_inst(i: usize, src: Value, index: Value, f: &FunctionData, reg_alloc: &mut LinearScanAlloc,
    global_names: &Vec<Option<String>>) -> (r: Result<String, CompileError>)
    requires old(reg_alloc).wf(), i < f.values@.len(),
    ensures
        r is Ok ==> pool_kept(*old(reg_alloc), *final(reg_alloc)),
        alloc_kept(*old(reg_alloc), *final(reg_alloc)),
        seq_result(r, ptr_inst_result(*f, old(reg_alloc).locations(), names_view(global_names@), i, src, index, old(reg_alloc).scratch())),
{
    let elem_size = elem_size_of(f, i)?;
    lower_ptr_calc(src, index, Value::Local(i), elem_size, f, reg_alloc, global_names)
}

/// Whether a memory access through `v` goes to the slot of a local
/// allocation (`true`) or through an address (`false`: a global, or a
/// pointer computed in `f`); an error for a handle that `f` lacks.
pub open spec fn alloc_target(f: FunctionData, v: Value) -> Result<bool, CompileError> {
    match v {
        Value::Global(_) => Ok(false),
        Value::Local(_) => match kind_of(f, v) {
            Err(e) => Err(e),
            Ok(ValueKind::Alloc) => Ok(true),
            Ok(_) => Ok(false),
        },
    }
}

/// Whether a memory access through `v` goes to the slot of a local
/// allocation.
fn is_alloc_target(f: &FunctionData, v: Value) -> (r: Result<bool, CompileError>)
    ensures
        match r {
            Ok(b) => alloc_target(*f, v) == Ok::<bool, CompileError>(b),
            Err(e) => alloc_target(*f, v) == Err::<bool, CompileError>(e),
        },
{
    match v {
        Value::Global(_) => Ok(false),
        Value::Local(_) => match value_kind(f, v)? {
            ValueKind::Alloc => Ok(true),
            _ => Ok(false),
        },
    }
}

/// `load`: the value at `src` into the place of `inst`, through scratch
/// register `vt` (the last of the pool): from the slot of a local
/// allocation, or through an address register (the one before it), which
/// for a global holds its address.
pub open spec fn load_result(f: FunctionData, locs: Seq<Loc>, gn: Seq<Option<Seq<char>>>, inst: Value, src: Value,
    pool: Seq<Seq<char>>) -> Result<Seq<char>, CompileError> {
    if pool.len() == 0 {
        Err(CompileError::NoScratchRegister)
    } else {
        let vt = pool.last();
        let p1 = pool.drop_last();
        let first = match alloc_target(f, src) {
            Err(e) => Err(e),
            Ok(true) => match loc_of(locs, src) {
                Loc::Slot(o) => sp_access(true, vt, (o - 4) as usize, p1),
                _ => Err(CompileError::NoLocation),
            },
            Ok(false) => if p1.len() == 0 {
                Err(CompileError::NoScratchRegister)
            } else {
                match pointer_base(f, locs, gn, src, p1.last(), p1.drop_last()) {
                    Err(e) => Err(e),
                    Ok(t) => Ok(t + mem_text("lw"@, vt, p1.last())),
                }
            },
        };
        match first {
            Err(e) => Err(e),
            Ok(t1) => match result_into(locs, inst, vt, p1) {
                Err(e) => Err(e),
                Ok(t2) => Ok(t1 + t2),
            },
        }
    }
}

/// `load` number `i` from `src`.
pub fn process_load_inst(i: usize, src: Value, f: &FunctionData, reg_alloc: &mut LinearScanAlloc,
    global_names: &Vec<Option<String>>) -> (r: Result<String, CompileError>)
    requires old(reg_alloc).wf(),
    ensures
        r is Ok ==> pool_kept(*old(reg_alloc), *final(reg_alloc)),
        alloc_kept(*old(reg_alloc), *final(reg_alloc)),
        seq_result(r, load_result(*f, old(reg_alloc).locations(), names_view(global_names@), Value::Local(i), src, old(reg_alloc).scratch())),
{
    let ghost pool = reg_alloc.scratch();
    if reg_alloc.scratch_len() == 0 {
        return Err(CompileError::NoScratchRegister);
    }
    let val_tmp = reg_alloc.acquire_scratch();
    let ghost p1 = reg_alloc.scratch();
    let mut code = if is_alloc_target(f, src)? {
        let loc = reg_alloc.get_variable(&src);
        proof { lemma_location(reg_alloc.locations(), src, loc); }
        match loc {
            VariableLocation::Stack(offset) => emit_load_from_sp(val_tmp.as_str(), offset, reg_alloc)?,
            _ => return Err(CompileError::NoLocation),
        }
    } else {
        if reg_alloc.scratch_len() == 0 {
            return Err(CompileError::NoScratchRegister);
        }
        let addr = reg_alloc.acquire_scratch();
        let mut t = load_pointer_base(src, addr.as_str(), f, reg_alloc, global_names)?;
        let t2 = text_mem("lw", val_tmp.as_str(), addr.as_str());
        t.append(t2.as_str());
        reg_alloc.release_scratch(addr);
        assert(reg_alloc.scratch() =~= p1);
        t
    };
    let t3 = store_result_of(Value::Local(i), val_tmp.as_str(), reg_alloc)?;
    code.append(t3.as_str());
    reg_alloc.release_scratch(val_tmp);
    assert(reg_alloc.scratch() =~= pool);
    Ok(code)
}

/// `store`: the value (through scratch register `vr`, the last of the
/// pool) into the slot of a local allocation or through an address register
/// (for a global, its address).
/// Integers are loaded directly, zero from `x0`; function arguments come
/// from `a0`..`a7` or, from the ninth on, from the caller's frame above this
/// one.
pub open spec fn store_result(f: FunctionData, locs: Seq<Loc>, frame: nat, gn: Seq<Option<Seq<char>>>, value: Value, dest: Value,
    pool: Seq<Seq<char>>) -> Result<Seq<char>, CompileError> {
    if pool.len() == 0 {
    Err(CompileError::NoScratchRegister)
    } else {
    let vr = pool.last();
    let p1 = pool.drop_last();
    let first = match kind_of(f, value) {
        Err(e) => Err(e),
        Ok(ValueKind::Integer(n)) => if n == 0 {
            Ok(ins2_text("mv"@, vr, "x0"@))
        } else {
            Ok(ins2_text("li"@, vr, dec_int(n as int)))
        },
        Ok(ValueKind::FuncArgRef(idx)) => if idx < 8 {
            Ok(ins2_text("mv"@, vr, "a"@ + dec_nat(idx as nat)))
        } else if frame + (idx - 8) * 4 > usize::MAX {
            Err(CompileError::Overflow)
        } else {
            sp_access(true, vr, (frame + (idx - 8) * 4) as usize, p1)
        },
        Ok(_) => match loc_of(locs, value) {
            Loc::Reg(n) => Ok(ins2_text("mv"@, vr, reg_name(n))),
            Loc::Slot(o) => sp_access(true, vr, (o - 4) as usize, p1),
            Loc::Unassigned => Err(CompileError::NoLocation),
        },
    };
    match first {
        Err(e) => Err(e),
        Ok(t1) => match alloc_target(f, dest) {
            Err(e) => Err(e),
            Ok(true) => match loc_of(locs, dest) {
                Loc::Slot(o) => match sp_access(false, vr, (o - 4) as usize, p1) {
                    Err(e) => Err(e),
                    Ok(t2) => Ok(t1 + t2),
                },
                _ => Err(CompileError::NoLocation),
            },
            Ok(false) => if p1.len() == 0 {
                Err(CompileError::NoScratchRegister)
            } else {
                match pointer_base(f, locs, gn, dest, p1.last(), p1.drop_last()) {
                    Err(e) => Err(e),
                    Ok(t2) => Ok(t1 + t2 + mem_text("sw"@, vr, p1.last())),
                }
            },
        },
    }
    }
}

/// `store value, dest`.
pub fn process_store_inst(value: Value, dest: Value, f: &FunctionData, reg_alloc: &mut LinearScanAlloc,
    global_names: &Vec<Option<String>>) -> (r: Result<String, CompileError>)
    requires old(reg_alloc).wf(),
    ensures
    r is Ok ==> pool_kept(*old(reg_alloc), *final(reg_alloc)),
    alloc_kept(*old(reg_alloc), *final(reg_alloc)),
    seq_result(r, store_result(*f, old(reg_alloc).locations(), old(reg_alloc).frame_size(), names_view(global_names@),
        value, dest, old(reg_alloc).scratch())),
{
    let ghost pool = reg_alloc.scratch();
    if reg_alloc.scratch_len() == 0 {
    return Err(CompileError::NoScratchRegister);
    }
    let val_reg = reg_alloc.acquire_scratch();
    let ghost p1 = reg_alloc.scratch();
    let mut code = match value_kind(f, value)? {
    ValueKind::Integer(n) => {
        if *n == 0 {
            text_ins2("mv", val_reg.as_str(), "x0")
        } else {
            let num = num_i32(*n);
            text_ins2("li", val_reg.as_str(), num.as_str())
        }
    },
    ValueKind::FuncArgRef(idx) => {
        if *idx < 8 {
            let a = str_with_u64("a", *idx as u64);
            text_ins2("mv", val_reg.as_str(), a.as_str())
        } else {
            let frame = reg_alloc.get_stack_count();
            if (*idx - 8) > (usize::MAX - frame) / 4 {
                return Err(CompileError::Overflow);
            }
            let caller_arg_offset = frame + (*idx - 8) * 4;
            emit_load_from_sp(val_reg.as_str(), caller_arg_offset, reg_alloc)?
        }
    },
    _ => {
        let loc = reg_alloc.get_variable(&value);
        proof { lemma_location(reg_alloc.locations(), value, loc); }
        match loc {
            VariableLocation::Register(reg) => text_ins2("mv", val_reg.as_str(), reg.as_str()),
            VariableLocation::Stack(offset) => emit_load_from_sp(val_reg.as_str(), offset, reg_alloc)?,
            VariableLocation::Nowhere => return Err(CompileError::NoLocation),
        }
    },
    };
    if is_alloc_target(f, dest)? {
        let loc = reg_alloc.get_variable(&dest);
        proof { lemma_location(reg_alloc.locations(), dest, loc); }
        match loc {
            VariableLocation::Stack(offset) => {
                let t = emit_store_to_sp(val_reg.as_str(), offset, reg_alloc)?;
                code.append(t.as_str());
            },
            _ => return Err(CompileError::NoLocation),
        }
    } else {
        if reg_alloc.scratch_len() == 0 {
            return Err(CompileError::NoScratchRegister);
        }
        let addr = reg_alloc.acquire_scratch();
        let t = load_pointer_base(dest, addr.as_str(), f, reg_alloc, global_names)?;
        code.append(t.as_str());
        let t2 = text_mem("sw", val_reg.as_str(), addr.as_str());
        code.append(t2.as_str());
        reg_alloc.release_scratch(addr);
        assert(reg_alloc.scratch() =~= p1);
    }
    reg_alloc.release_scratch(val_reg);
    assert(reg_alloc.scratch() =~= pool);
    Ok(code)
}


/// The label of block `bb`: its name without the leading `%`.
pub open spec fn bb_label(f: FunctionData, bb: BasicBlock) -> Result<Seq<char>, CompileError> {
    if bb >= f.bbs@.len() {
        Err(CompileError::InvalidHandle)
    } else {
        match f.bbs@[bb as int].name {
            Some(n) => if n@.len() >= 1 { Ok(n@.drop_first()) } else { Err(CompileError::MissingName) },
            None => Err(CompileError::MissingName),
        }
    }
}

/// A name without its first character (the `@` or `%` of the IR).
pub fn strip_sigil(s: &str) -> (r: String)
    requires s@.len() >= 1,
    ensures r@ == s@.drop_first(),
{
    let n = s.unicode_len();
    let t = s.substring_char(1, n);
    let r = String::from_str(t);
    assert(r@ =~= s@.drop_first());
    r
}

fn block_label(f: &FunctionData, bb: BasicBlock) -> (r: Result<String, CompileError>)
    ensures
        match r {
            Ok(s) => bb_label(*f, bb) == Ok::<Seq<char>, CompileError>(s@),
            Err(e) => bb_label(*f, bb) == Err::<Seq<char>, CompileError>(e),
        },
{
    if bb >= f.bbs.len() {
        return Err(CompileError::InvalidHandle);
    }
    match &f.bbs[bb].name {
        Some(n) => {
            if n.unicode_len() >= 1 {
                Ok(strip_sigil(n.as_str()))
            } else {
                Err(CompileError::MissingName)
            }
        },
        None => Err(CompileError::MissingName),
    }
}

/// `br cond, then, else`: the condition in a register (a scratch register
/// where needed), `bnez` to `then`, `j` to `else`.
pub open spec fn branch_result(f: FunctionData, locs: Seq<Loc>, cond: Value, then_bb: BasicBlock, else_bb: BasicBlock,
    pool: Seq<Seq<char>>) -> Result<Seq<char>, CompileError> {
    match bb_label(f, then_bb) {
        Err(e) => Err(e),
        Ok(tn) => match bb_label(f, else_bb) {
            Err(e) => Err(e),
            Ok(en) => if pool.len() == 0 {
                Err(CompileError::NoScratchRegister)
            } else {
                match materialize(f, locs, cond, pool.last()) {
                    Err(e) => Err(e),
                    Ok((ca, cr, _)) => Ok(ca + ins2_text("bnez"@, cr, tn) + ins1_text("j"@, en)),
                }
            },
        },
    }
}

/// Whether the RISC-V conditional branch `op` is taken on a register
/// holding `x`: `bnez` when `x` is nonzero, `beqz` when it is zero; never for
/// another instruction.
pub open spec fn rv_branch_taken(op: Seq<char>, x: i32) -> bool {
    if op == "bnez"@ {
        x != 0
    } else if op == "beqz"@ {
        x == 0
    } else {
        false
    }
}

/// A branch of the IR becomes RISC-V that goes where the IR says: after the
/// code that brings the condition into a register `c`, a conditional branch
/// on `c` to the `then` label that is taken exactly when the condition is
/// nonzero, followed by an unconditional jump `j` to the `else` label.
pub proof fn law_branch_text(f: FunctionData, locs: Seq<Loc>, cond: Value, then_bb: BasicBlock, else_bb: BasicBlock,
    pool: Seq<Seq<char>>)
    requires branch_result(f, locs, cond, then_bb, else_bb, pool) is Ok,
    ensures
        exists|pre: Seq<char>, m: Seq<char>, c: Seq<char>|
            #[trigger] branch_result(f, locs, cond, then_bb, else_bb, pool)
                == Ok::<Seq<char>, CompileError>(pre + ins2_text(m, c, bb_label(f, then_bb)->Ok_0) + ins1_text("j"@, bb_label(f, else_bb)->Ok_0))
            && forall|x: i32| #[trigger] rv_branch_taken(m, x) == (x != 0),
{
    reveal_strlit("bnez");
    reveal_strlit("beqz");
    assert("bnez"@ != "beqz"@) by { assert("bnez"@[1] != "beqz"@[1]); }
    let (ca, cr, u) = materialize(f, locs, cond, pool.last())->Ok_0;
    assert(branch_result(f, locs, cond, then_bb, else_bb, pool)
        == Ok::<Seq<char>, CompileError>(ca + ins2_text("bnez"@, cr, bb_label(f, then_bb)->Ok_0) + ins1_text("j"@, bb_label(f, else_bb)->Ok_0)));
    assert(forall|x: i32| #[trigger] rv_branch_taken("bnez"@, x) == (x != 0));
}

/// `br cond, then, else`.
pub fn process_branch_inst(cond: Value, then_bb: BasicBlock, else_bb: BasicBlock, f: &FunctionData, reg_alloc: &mut LinearScanAlloc)
    -> (r: Result<String, CompileError>)
    requires old(reg_alloc).wf(),
    ensures
        r is Ok ==> pool_kept(*old(reg_alloc), *final(reg_alloc)),
        alloc_kept(*old(reg_alloc), *final(reg_alloc)),
        seq_result(r, branch_result(*f, old(reg_alloc).locations(), cond, then_bb, else_bb, old(reg_alloc).scratch())),
{
    let ghost pool = reg_alloc.scratch();
    let then_name = block_label(f, then_bb)?;
    let else_name = block_label(f, else_bb)?;
    if reg_alloc.scratch_len() == 0 {
        return Err(CompileError::NoScratchRegister);
    }
    let scratch = reg_alloc.acquire_scratch();
    let (mut code, cond_reg, _) = materialize_operand(cond, f, reg_alloc, scratch.as_str())?;
    let t1 = text_ins2("bnez", cond_reg.as_str(), then_name.as_str());
    code.append(t1.as_str());
    let t2 = text_ins1("j", else_name.as_str());
    code.append(t2.as_str());
    reg_alloc.release_scratch(scratch);
    assert(reg_alloc.scratch() =~= pool);
    Ok(code)
}

/// `jump target`.
pub fn process_jump_inst(target: BasicBlock, f: &FunctionData) -> (r: Result<String, CompileError>)
    ensures
        seq_result(r, match bb_label(*f, target) {
            Err(e) => Err(e),
            Ok(n) => Ok(ins1_text("j"@, n)),
        }),
{
    let name = block_label(f, target)?;
    Ok(text_ins1("j", name.as_str()))
}

/// The text that passes argument number `idx`: into `a<idx>` for the first
/// eight, onto the outgoing area at `sp + (idx - 8) * 4` for the others.
pub open spec fn arg_text(f: FunctionData, locs: Seq<Loc>, idx: int, arg: Value, pool: Seq<Seq<char>>) -> Result<Seq<char>, CompileError> {
    if idx < 8 {
        value_into(f, locs, arg, "a"@ + dec_nat(idx as nat), pool)
    } else if (idx - 8) * 4 > usize::MAX {
        Err(CompileError::Overflow)
    } else {
        let so = ((idx - 8) * 4) as usize;
        match kind_of(f, arg) {
            Err(e) => Err(e),
            Ok(ValueKind::Integer(n)) => if pool.len() == 0 {
                Err(CompileError::NoScratchRegister)
            } else {
                match sp_access(false, pool.last(), so, pool.drop_last()) {
                    Err(e) => Err(e),
                    Ok(t) => Ok(ins2_text("li"@, pool.last(), dec_int(n as int)) + t),
                }
            },
            Ok(_) => match loc_of(locs, arg) {
                Loc::Reg(r) => sp_access(false, reg_name(r), so, pool),
                Loc::Slot(o) => if pool.len() == 0 {
                    Err(CompileError::NoScratchRegister)
                } else {
                    match sp_access(true, pool.last(), (o - 4) as usize, pool.drop_last()) {
                        Err(e) => Err(e),
                        Ok(t1) => match sp_access(false, pool.last(), so, pool.drop_last()) {
                            Err(e) => Err(e),
                            Ok(t2) => Ok(t1 + t2),
                        },
                    }
                },
                Loc::Unassigned => Err(CompileError::NoLocation),
            },
        }
    }
}

/// The text that passes the first `n` arguments, in order.
pub open spec fn args_text(f: FunctionData, locs: Seq<Loc>, args: Seq<Value>, n: int, pool: Seq<Seq<char>>) -> Result<Seq<char>, CompileError>
    decreases n,
{
    if n <= 0 {
        Ok(Seq::<char>::empty())
    } else {
        match args_text(f, locs, args, n - 1, pool) {
            Err(e) => Err(e),
            Ok(t) => match arg_text(f, locs, n - 1, args[n - 1], pool) {
                Err(e) => Err(e),
                Ok(a) => Ok(t + a),
            },
        }
    }
}

/// `call callee(args)`: the arguments passed, `call`, and the result moved
/// from `a0` into the place of `inst` where it has one.
pub open spec fn call_result(f: FunctionData, locs: Seq<Loc>, func_names: Seq<Seq<char>>, callee: Function, args: Seq<Value>,
    inst: Value, pool: Seq<Seq<char>>) -> Result<Seq<char>, CompileError> {
    match args_text(f, locs, args, args.len() as int, pool) {
        Err(e) => Err(e),
        Ok(t) => if callee >= func_names.len() {
            Err(CompileError::UndefinedFunction)
        } else {
            let c = t + ins1_text("call"@, func_names[callee as int]);
            match loc_of(locs, inst) {
                Loc::Reg(n) => Ok(c + ins2_text("mv"@, reg_name(n), "a0"@)),
                Loc::Slot(o) => match sp_access(false, "a0"@, (o - 4) as usize, pool) {
                    Err(e) => Err(e),
                    Ok(t2) => Ok(c + t2),
                },
                Loc::Unassigned => Ok(c),
            }
        },
    }
}

fn pass_arg(idx: usize, arg: Value, f: &FunctionData, reg_alloc: &mut LinearScanAlloc) -> (r: Result<String, CompileError>)
    requires old(reg_alloc).wf(),
    ensures
        r is Ok ==> pool_kept(*old(reg_alloc), *final(reg_alloc)),
        alloc_kept(*old(reg_alloc), *final(reg_alloc)),
        seq_result(r, arg_text(*f, old(reg_alloc).locations(), idx as int, arg, old(reg_alloc).scratch())),
{
    let ghost pool = reg_alloc.scratch();
    if idx < 8 {
        let a_reg = str_with_u64("a", idx as u64);
        return move_value_into(arg, a_reg.as_str(), f, reg_alloc);
    }
    if idx - 8 > usize::MAX / 4 {
        return Err(CompileError::Overflow);
    }
    let stack_off = (idx - 8) * 4;
    match value_kind(f, arg)? {
        ValueKind::Integer(n) => {
            if reg_alloc.scratch_len() == 0 {
                return Err(CompileError::NoScratchRegister);
            }
            let scratch = reg_alloc.acquire_scratch();
            let num = num_i32(*n);
            let mut code = text_ins2("li", scratch.as_str(), num.as_str());
            let t = emit_store_to_sp(scratch.as_str(), stack_off, reg_alloc)?;
            code.append(t.as_str());
            reg_alloc.release_scratch(scratch);
            assert(reg_alloc.scratch() =~= pool);
            Ok(code)
        },
        _ => {
            let loc = reg_alloc.get_variable(&arg);
            proof { lemma_location(reg_alloc.locations(), arg, loc); }
            match loc {
                VariableLocation::Register(reg) => emit_store_to_sp(reg.as_str(), stack_off, reg_alloc),
                VariableLocation::Stack(offset) => {
                    if reg_alloc.scratch_len() == 0 {
                        return Err(CompileError::NoScratchRegister);
                    }
                    let scratch = reg_alloc.acquire_scratch();
                    let mut code = emit_load_from_sp(scratch.as_str(), offset, reg_alloc)?;
                    let t = emit_store_to_sp(scratch.as_str(), stack_off, reg_alloc)?;
                    code.append(t.as_str());
                    reg_alloc.release_scratch(scratch);
                    assert(reg_alloc.scratch() =~= pool);
                    Ok(code)
                },
                VariableLocation::Nowhere => Err(CompileError::NoLocation),
            }
        },
    }
}

/// `call callee(args)` for the instruction number `i`.
pub fn process_call_inst(callee: Function, args: &Vec<Value>, i: usize, f: &FunctionData, reg_alloc: &mut LinearScanAlloc,
    func_names: &Vec<String>) -> (r: Result<String, CompileError>)
    requires old(reg_alloc).wf(),
    ensures
        r is Ok ==> pool_kept(*old(reg_alloc), *final(reg_alloc)),
        alloc_kept(*old(reg_alloc), *final(reg_alloc)),
        seq_result(r, call_result(*f, old(reg_alloc).locations(), fn_names_view(func_names@), callee, args@,
            Value::Local(i), old(reg_alloc).scratch())),
{
    let ghost pool = reg_alloc.scratch();
    let ghost locs = reg_alloc.locations();
    let mut code = String::new();
    let n = args.len();
    let mut idx: usize = 0;
    while idx < n
        invariant
            n == args@.len(), idx <= n,
            reg_alloc.scratch() == pool, reg_alloc.locations() == locs,
            pool == old(reg_alloc).scratch(), locs == old(reg_alloc).locations(),
            reg_alloc.frame_size() == old(reg_alloc).frame_size(),
            reg_alloc.wf(),
            args_text(*f, locs, args@, idx as int, pool) == Ok::<Seq<char>, CompileError>(code@),
        decreases n - idx,
    {
        let t = match pass_arg(idx, args[idx], f, reg_alloc) {
            Ok(t) => t,
            Err(e) => {
                proof { lemma_args_text_err(*f, locs, args@, idx as int + 1, n as int, pool); }
                return Err(e);
            },
        };
        code.append(t.as_str());
        idx = idx + 1;
    }
    if callee >= func_names.len() {
        return Err(CompileError::UndefinedFunction);
    }
    let t = text_ins1("call", func_names[callee].as_str());
    code.append(t.as_str());
    let loc = reg_alloc.get_variable(&Value::Local(i));
    proof { lemma_location(reg_alloc.locations(), Value::Local(i), loc); }
    match loc {
        VariableLocation::Register(reg) => {
            let t2 = text_ins2("mv", reg.as_str(), "a0");
            code.append(t2.as_str());
        },
        VariableLocation::Stack(offset) => {
            let t2 = emit_store_to_sp("a0", offset, reg_alloc)?;
            code.append(t2.as_str());
        },
        VariableLocation::Nowhere => {},
    }
    Ok(code)
}

proof fn lemma_args_text_err(f: FunctionData, locs: Seq<Loc>, args: Seq<Value>, k: int, n: int, pool: Seq<Seq<char>>)
    requires 0 <= k <= n, args_text(f, locs, args, k, pool) is Err,
    ensures args_text(f, locs, args, n, pool) == args_text(f, locs, args, k, pool),
    decreases n - k,
{
    if k < n {
        lemma_args_text_err(f, locs, args, k, n - 1, pool);
    }
}

} // verus!
