//! Translation of a SysY program into IR: global declarations, functions,
//! blocks and statements, and the layout of array initializers.
use crate::ast::{
    spec_eval, Block, BlockItem, CompUnit, CompUnitItem, ConstDef, ConstExp, ConstInitVal, Decl, EvalExp, Exp, FuncDef,
    FuncFParam, InitVal, RawType, Stmt, VarDef, IF,
};
use crate::error::CompileError;
use crate::gen_ir_exp::{const_exp, exp_size, exp_to_ir, same_symbols, straight, lowered, exp_post, FuncMap};
use crate::gen_ir_variables::{lookup_const, lookup_var, SymbolInfo, Variables, VariablesView};
use crate::ir::{
    find_layout, bb_named, lemma_value_ty_extends, lemma_in_layout_extends, value_ty, in_layout, denote, lemma_denote_prefix, emit_fails, appended, lemma_close, lemma_step_emit, lemma_step_refl, lemma_step_trans, lemma_step_values, step_ok, all_terminated, block_terminated, is_const_kind, emitted, extends, is_term_kind, layout_unique, lemma_emitted_keeps,
    lemma_extends_refl, lemma_extends_trans, lemma_step_keeps, lemma_wt_emit, lemma_wt_values, lemma_wt_mono, lemma_no_insts_wt, no_insts, is_inst_kind, well_typed, typed_ok, globals_ext,
    node_terminated, others_terminated, BasicBlock,
    BlockNode, Function, FunctionData, Program, Ty, Value, ValueData, ValueKind,
};
use crate::util::{append_u64, dec_nat, str_with_u64};
use vstd::prelude::*;
use vstd::string::*;

verus! {

/// The product of a sequence of lengths.
pub open spec fn seq_prod(s: Seq<usize>) -> int
    decreases s.len(),
{
    if s.len() == 0 { 1 } else { s[0] * seq_prod(s.drop_first()) }
}

/// The linear position of a multi-index in an array of the given dimensions
/// (row-major order).
pub open spec fn mixed_radix(idx: Seq<usize>, dims: Seq<usize>) -> int
    decreases idx.len(),
{
    if idx.len() == 0 || dims.len() == 0 {
        0
    } else {
        idx[0] * seq_prod(dims.drop_first()) + mixed_radix(idx.drop_first(), dims.drop_first())
    }
}

/// The IR type of an array with base type `base` and dimensions `dims`,
/// outermost first.
pub open spec fn array_ty(base: Ty, dims: Seq<usize>) -> Ty
    decreases dims.len(),
{
    if dims.len() == 0 { base } else { Ty::Array(Box::new(array_ty(base, dims.drop_first())), dims[0]) }
}

/// The IR type of a source type.
pub open spec fn spec_type_to_ir(t: RawType) -> Ty {
    match t {
        RawType::Int => Ty::I32,
        RawType::Void => Ty::Unit,
    }
}

pub fn type_to_ir(typ: &RawType) -> (r: Ty)
    ensures r == spec_type_to_ir(*typ),
{
    match typ {
        RawType::Int => Ty::I32,
        RawType::Void => Ty::Unit,
    }
}

proof fn lemma_prod_pos(s: Seq<usize>)
    requires forall|i: int| 0 <= i < s.len() ==> #[trigger] s[i] > 0,
    ensures seq_prod(s) > 0,
    decreases s.len(),
{
    if s.len() > 0 {
        lemma_prod_pos(s.drop_first());
        assert(s[0] > 0);
        let p = seq_prod(s.drop_first());
        assert(s[0] * p > 0) by (nonlinear_arith) requires s[0] > 0, p > 0;
    }
}

/// Evaluates the dimensions of an array declaration; each must be a
/// positive constant.
pub fn eval_array_lens(lens: &Vec<ConstExp>, var_map: &Variables) -> (r: Result<Vec<usize>, CompileError>)
    ensures
        r is Ok <==> forall|i: int| 0 <= i < lens@.len() ==>
            (spec_eval((#[trigger] lens@[i]).exp, var_map@.scopes) matches Some(v) && v > 0),
        r matches Ok(d) ==> d@.len() == lens@.len() && forall|i: int| 0 <= i < lens@.len() ==>
            Some((#[trigger] d@[i]) as i32) == spec_eval(lens@[i].exp, var_map@.scopes) && d@[i] > 0 && d@[i] <= i32::MAX,
{
    let mut dims: Vec<usize> = Vec::new();
    let n = lens.len();
    let mut i: usize = 0;
    while i < n
        invariant
            n == lens@.len(),
            i <= n,
            dims@.len() == i,
            forall|j: int| 0 <= j < i ==>
                (spec_eval((#[trigger] lens@[j]).exp, var_map@.scopes) matches Some(v) && v > 0),
            forall|j: int| 0 <= j < i ==>
                Some((#[trigger] dims@[j]) as i32) == spec_eval(lens@[j].exp, var_map@.scopes) && dims@[j] > 0 && dims@[j] <= i32::MAX,
        decreases n - i,
    {
        let v = match crate::ast::try_eval_exp(&lens[i].exp, var_map) {
            Some(v) => v,
            None => return Err(CompileError::InvalidConstExp),
        };
        if v <= 0 {
            return Err(CompileError::NonPositiveArrayLen);
        }
        dims.push(v as usize);
        i = i + 1;
    }
    Ok(dims)
}

/// The array type with base `base` and dimensions `dims[from..]`.
pub fn build_array_type(base: Ty, dims: &Vec<usize>, from: usize) -> (r: Ty)
    requires from <= dims@.len(),
    ensures r == array_ty(base, dims@.subrange(from as int, dims@.len() as int)),
{
    let mut ty = base;
    let mut i = dims.len();
    assert(dims@.subrange(i as int, dims@.len() as int).len() == 0);
    while i > from
        invariant
            from <= i <= dims@.len(),
            ty == array_ty(base, dims@.subrange(i as int, dims@.len() as int)),
        decreases i - from,
    {
        i = i - 1;
        let ghost rest = dims@.subrange(i as int, dims@.len() as int);
        assert(rest.drop_first() =~= dims@.subrange(i + 1, dims@.len() as int));
        ty = Ty::Array(Box::new(ty), dims[i]);
    }
    ty
}

/// The IR type of a formal parameter: the base type, or a pointer to the
/// array of the remaining dimensions for an array parameter.
pub fn func_param_type_to_ir(param: &FuncFParam, var_map: &Variables) -> (r: Result<Ty, CompileError>)
    ensures
        !param.is_array ==> r == Ok::<Ty, CompileError>(spec_type_to_ir(param.bt)),
        param.is_array ==> (r is Ok <==> forall|i: int| 0 <= i < param.array_lens@.len() ==>
            (spec_eval((#[trigger] param.array_lens@[i]).exp, var_map@.scopes) matches Some(v) && v > 0)),
        param.is_array && r is Ok ==> r == Ok::<Ty, CompileError>(Ty::Pointer(Box::new(array_ty(spec_type_to_ir(param.bt),
            param.array_lens@.map_values(|c: ConstExp| spec_eval(c.exp, var_map@.scopes)->Some_0 as usize))))),
{
    let base = type_to_ir(&param.bt);
    if !param.is_array {
        Ok(base)
    } else {
        let dims = eval_array_lens(&param.array_lens, var_map)?;
        let elem_ty = build_array_type(base, &dims, 0);
        proof {
            assert(dims@.subrange(0, dims@.len() as int) =~= dims@);
            assert(dims@ =~= param.array_lens@.map_values(|c: ConstExp| spec_eval(c.exp, var_map@.scopes)->Some_0 as usize)) by {
                assert forall|i: int| 0 <= i < dims@.len() implies dims@[i] == spec_eval(param.array_lens@[i].exp, var_map@.scopes)->Some_0 as usize by {
                    assert(Some(dims@[i] as i32) == spec_eval(param.array_lens@[i].exp, var_map@.scopes));
                }
            }
        }
        Ok(Ty::Pointer(Box::new(elem_ty)))
    }
}

/// The product of `dims[from..]`, if it fits in a `usize`.
pub fn suffix_product(dims: &Vec<usize>, from: usize) -> (r: Option<usize>)
    requires
        from <= dims@.len(),
        forall|i: int| 0 <= i < dims@.len() ==> #[trigger] dims@[i] > 0,
    ensures
        r matches Some(p) ==> p == seq_prod(dims@.subrange(from as int, dims@.len() as int)),
        r is None <==> seq_prod(dims@.subrange(from as int, dims@.len() as int)) > usize::MAX,
{
    let mut p: usize = 1;
    let mut i = dims.len();
    assert(dims@.subrange(i as int, dims@.len() as int).len() == 0);
    while i > from
        invariant
            from <= i <= dims@.len(),
            p == seq_prod(dims@.subrange(i as int, dims@.len() as int)),
            forall|k: int| 0 <= k < dims@.len() ==> #[trigger] dims@[k] > 0,
        decreases i - from,
    {
        i = i - 1;
        let ghost rest = dims@.subrange(i as int, dims@.len() as int);
        assert(rest.drop_first() =~= dims@.subrange(i + 1, dims@.len() as int));
        match dims[i].checked_mul(p) {
            Some(q) => p = q,
            None => {
                proof {
                    lemma_prod_suffix_mono(dims@, from as int, i as int);
                }
                return None;
            },
        }
    }
    Some(p)
}

/// With positive factors, a longer suffix has a product at least as large.
proof fn lemma_prod_suffix_mono(dims: Seq<usize>, from: int, i: int)
    requires
        0 <= from <= i <= dims.len(),
        forall|k: int| 0 <= k < dims.len() ==> #[trigger] dims[k] > 0,
    ensures seq_prod(dims.subrange(from, dims.len() as int)) >= seq_prod(dims.subrange(i, dims.len() as int)),
    decreases i - from,
{
    if from < i {
        lemma_prod_suffix_mono(dims, from + 1, i);
        let s = dims.subrange(from, dims.len() as int);
        assert(s.drop_first() =~= dims.subrange(from + 1, dims.len() as int));
        let a = dims[from] as int;
        let b = seq_prod(dims.subrange(from + 1, dims.len() as int));
        assert(b >= 0) by {
            assert forall|k: int| 0 <= k < dims.subrange(from + 1, dims.len() as int).len() implies
                #[trigger] dims.subrange(from + 1, dims.len() as int)[k] > 0 by {}
            lemma_prod_pos(dims.subrange(from + 1, dims.len() as int));
        }
        assert(a * b >= b) by (nonlinear_arith) requires a >= 1, b >= 0;
    }
}

/// The number of elements of an array with the given dimensions.
pub fn total_elems(dims: &Vec<usize>) -> (r: Option<usize>)
    requires forall|i: int| 0 <= i < dims@.len() ==> #[trigger] dims@[i] > 0,
    ensures
        r matches Some(p) ==> p == seq_prod(dims@),
        r is None <==> seq_prod(dims@) > usize::MAX,
{
    let r = suffix_product(dims, 0);
    assert(dims@.subrange(0, dims@.len() as int) =~= dims@);
    r
}

proof fn lemma_mixed_step(p: int, d: int, q: int, r: int, big: int, m: int)
    requires d > 0, q == p / d, r == p % d, big >= 0,
    ensures p * big + m == q * (d * big) + (r * big + m),
{
    assert(p == q * d + r) by (nonlinear_arith) requires d > 0, q == p / d, r == p % d;
    assert(p * big == q * (d * big) + r * big) by (nonlinear_arith) requires p == q * d + r;
}

/// The multi-index of linear position `pos` in an array of dimensions
/// `dims`; each index is below its dimension, and the multi-index denotes
/// `pos` again.
pub fn linear_to_indices(pos: usize, dims: &Vec<usize>) -> (idx: Vec<usize>)
    requires
        forall|i: int| 0 <= i < dims@.len() ==> #[trigger] dims@[i] > 0,
        pos < seq_prod(dims@),
    ensures
        idx@.len() == dims@.len(),
        forall|i: int| 0 <= i < dims@.len() ==> #[trigger] idx@[i] < dims@[i],
        mixed_radix(idx@, dims@) == pos,
{
    let n = dims.len();
    let mut idx: Vec<usize> = vec![0; n];
    let mut p = pos;
    let mut i = n;
    assert(dims@.subrange(n as int, n as int).len() == 0);
    assert(idx@.subrange(n as int, n as int).len() == 0);
    while i > 0
        invariant
            n == dims@.len(),
            idx@.len() == n,
            i <= n,
            forall|j: int| 0 <= j < dims@.len() ==> #[trigger] dims@[j] > 0,
            forall|j: int| i <= j < n ==> #[trigger] idx@[j] < dims@[j],
            pos == p * seq_prod(dims@.subrange(i as int, n as int))
                + mixed_radix(idx@.subrange(i as int, n as int), dims@.subrange(i as int, n as int)),
        decreases i,
    {
        i = i - 1;
        let d = dims[i];
        let r = p % d;
        let q = p / d;
        let ghost old_idx = idx@;
        idx[i] = r;
        proof {
            let ds = dims@.subrange(i as int, n as int);
            let is = idx@.subrange(i as int, n as int);
            assert(ds.drop_first() =~= dims@.subrange(i + 1, n as int));
            assert(is.drop_first() =~= old_idx.subrange(i + 1, n as int));
            assert(is.drop_first() =~= idx@.subrange(i + 1, n as int));
            lemma_prod_pos(dims@.subrange(i + 1, n as int));
            lemma_mixed_step(p as int, d as int, q as int, r as int, seq_prod(dims@.subrange(i + 1, n as int)),
                mixed_radix(idx@.subrange(i + 1, n as int), dims@.subrange(i + 1, n as int)));
        }
        p = q;
    }
    proof {
        assert(dims@.subrange(0, n as int) =~= dims@);
        assert(idx@.subrange(0, n as int) =~= idx@);
        lemma_prod_pos(dims@);
        lemma_mixed_nonneg(idx@, dims@);
        let big = seq_prod(dims@);
        assert(p == 0) by (nonlinear_arith)
            requires pos == p * big + mixed_radix(idx@, dims@), pos < big, big > 0, mixed_radix(idx@, dims@) >= 0, p >= 0;
    }
    idx
}

proof fn lemma_mixed_nonneg(idx: Seq<usize>, dims: Seq<usize>)
    requires forall|i: int| 0 <= i < dims.len() ==> #[trigger] dims[i] > 0,
    ensures mixed_radix(idx, dims) >= 0,
    decreases idx.len(),
{
    if idx.len() > 0 && dims.len() > 0 {
        lemma_mixed_nonneg(idx.drop_first(), dims.drop_first());
        lemma_prod_pos(dims.drop_first());
        let a = idx[0] as int;
        let b = seq_prod(dims.drop_first());
        assert(a * b >= 0) by (nonlinear_arith) requires a >= 0, b > 0;
    }
}

/// An initializer list made of expressions only (no nested list).
pub open spec fn flat_const_list(items: Seq<ConstInitVal>) -> bool {
    forall|i: int| 0 <= i < items.len() ==> (#[trigger] items[i]) is Exp
}

/// Whether a sub-array of the dimensions `dims[from + k..]` starts at the
/// relative position `rel`: its size fits in `usize` and divides `rel`.
pub open spec fn aligned_at(dims: Seq<usize>, from: int, rel: int, k: int) -> bool {
    &&& seq_prod(dims.subrange(from + k, dims.len() as int)) <= usize::MAX
    &&& rel % seq_prod(dims.subrange(from + k, dims.len() as int)) == 0
}

/// The first `k` in `1..dims.len()` (relative to `from`) such that `rel` is a
/// multiple of the product of the dimensions from `k` on.
fn choose_sub_aggregate(dims: &Vec<usize>, from: usize, rel: usize) -> (r: Option<usize>)
    requires
        from <= dims@.len(),
        forall|i: int| 0 <= i < dims@.len() ==> #[trigger] dims@[i] > 0,
    ensures
        r matches Some(k) ==> 1 <= k && from + k < dims@.len()
            && seq_prod(dims@.subrange(from + k, dims@.len() as int)) > 0
            && rel as int % seq_prod(dims@.subrange(from + k, dims@.len() as int)) == 0,
        r matches Some(k) ==> aligned_at(dims@, from as int, rel as int, k as int)
            && forall|j: int| 1 <= j < k ==> !#[trigger] aligned_at(dims@, from as int, rel as int, j),
        r is None ==> forall|j: int| 1 <= j < dims@.len() - from ==> !#[trigger] aligned_at(dims@, from as int, rel as int, j),
{
    let n = dims.len() - from;
    let mut k: usize = 1;
    while k < n
        invariant
            n == dims@.len() - from,
            1 <= k,
            from <= dims@.len(),
            from + n == dims@.len(),
            dims@.len() <= usize::MAX,
            forall|i: int| 0 <= i < dims@.len() ==> #[trigger] dims@[i] > 0,
            forall|j: int| 1 <= j < k ==> !#[trigger] aligned_at(dims@, from as int, rel as int, j),
        decreases n - k,
    {
        match suffix_product(dims, from + k) {
            Some(block) => {
                proof {
                    lemma_prod_pos(dims@.subrange(from + k, dims@.len() as int));
                }
                if rel % block == 0 {
                    return Some(k);
                }
            },
            None => {},
        }
        k = k + 1;
    }
    None
}

/// Places the constant initializer `items` of an array of dimensions
/// `dims[from..]` into `out`, starting at `*cursor`, within the aggregate
/// `[agg_start, agg_end)`: an expression fills the next element, a nested
/// list fills the largest sub-array aligned at the cursor.
pub fn flatten_const_list_into(
    items: &Vec<ConstInitVal>,
    dims: &Vec<usize>,
    from: usize,
    var_map: &Variables,
    out: &mut Vec<i32>,
    cursor: &mut usize,
    agg_start: usize,
    agg_end: usize,
) -> (r: Result<(), CompileError>)
    requires
        from < dims@.len(),
        forall|i: int| 0 <= i < dims@.len() ==> #[trigger] dims@[i] > 0,
        agg_start <= *old(cursor) <= agg_end <= old(out)@.len(),
    ensures
        final(out)@.len() == old(out)@.len(),
        r is Ok ==> *old(cursor) <= *final(cursor) <= agg_end,
        r is Ok ==> forall|i: int| 0 <= i < old(out)@.len() && !(*old(cursor) <= i < *final(cursor)) ==>
            #[trigger] final(out)@[i] == old(out)@[i],
        flat_const_list(items@) ==> (r is Ok <==> (items@.len() <= agg_end - *old(cursor)
            && forall|i: int| 0 <= i < items@.len() ==> spec_eval((#[trigger] items@[i])->Exp_0.exp, var_map@.scopes) is Some)),
        flat_const_list(items@) && r is Ok ==> *final(cursor) == *old(cursor) + items@.len()
            && forall|i: int| 0 <= i < items@.len() ==>
                Some(#[trigger] final(out)@[*old(cursor) + i]) == spec_eval(items@[i]->Exp_0.exp, var_map@.scopes),
    decreases items@,
{
    let n = items.len();
    let ghost c0 = *cursor;
    let mut j: usize = 0;
    while j < n
        invariant
            n == items@.len(),
            j <= n,
            from < dims@.len(),
            forall|i: int| 0 <= i < dims@.len() ==> #[trigger] dims@[i] > 0,
            agg_start <= c0 <= *cursor <= agg_end <= out@.len(),
            out@.len() == old(out)@.len(),
            forall|i: int| 0 <= i < old(out)@.len() && !(c0 <= i < *cursor) ==> #[trigger] out@[i] == old(out)@[i],
            c0 == *old(cursor),
            flat_const_list(items@) ==> *cursor == c0 + j
                && forall|i: int| 0 <= i < j ==> spec_eval((#[trigger] items@[i])->Exp_0.exp, var_map@.scopes) is Some
                && forall|i: int| 0 <= i < j ==> Some(#[trigger] out@[c0 + i]) == spec_eval(items@[i]->Exp_0.exp, var_map@.scopes),
        decreases n - j,
    {
        if *cursor >= agg_end {
            return Err(CompileError::TooManyInitializers);
        }
        match &items[j] {
            ConstInitVal::Exp(exp) => {
                let v = match crate::ast::try_eval_exp(&exp.exp, var_map) {
                    Some(v) => v,
                    None => return Err(CompileError::InvalidConstExp),
                };
                let c = *cursor;
                out.set(c, v);
                *cursor = c + 1;
            },
            ConstInitVal::List(sub) => {
                if dims.len() - from <= 1 {
                    return Err(CompileError::BracesAroundScalar);
                }
                let rel = *cursor - agg_start;
                let k = match choose_sub_aggregate(dims, from, rel) {
                    Some(k) => k,
                    None => return Err(CompileError::UnalignedInitializer),
                };
                let block = match suffix_product(dims, from + k) {
                    Some(b) => b,
                    None => return Err(CompileError::Overflow),
                };
                let sub_start = *cursor;
                let sub_end = match sub_start.checked_add(block) {
                    Some(e) => if e < agg_end { e } else { agg_end },
                    None => return Err(CompileError::Overflow),
                };
                let ghost before = out@;
                assert(decreases_to!(items@ => sub@)) by {
                    assert(decreases_to!(items@ => items@[j as int]));
                }
                flatten_const_list_into(sub, dims, from + k, var_map, out, cursor, sub_start, sub_end)?;
                *cursor = sub_end;
            },
        }
        j = j + 1;
    }
    Ok(())
}

/// The elements of a constant array initializer in row-major order, with
/// zeros where the initializer says nothing.
pub fn flatten_const_init(init: &ConstInitVal, dims: &Vec<usize>, var_map: &Variables) -> (r: Result<Vec<i32>, CompileError>)
    requires
        dims@.len() > 0,
        forall|i: int| 0 <= i < dims@.len() ==> #[trigger] dims@[i] > 0,
    ensures
        r matches Ok(out) ==> out@.len() == seq_prod(dims@),
        init is Exp ==> r is Err,
        init is List && flat_const_list(init->List_0@) ==> ({
            let items = init->List_0@;
            &&& r is Ok <==> (seq_prod(dims@) <= usize::MAX && items.len() <= seq_prod(dims@)
                && forall|i: int| 0 <= i < items.len() ==> spec_eval((#[trigger] items[i])->Exp_0.exp, var_map@.scopes) is Some)
            &&& r matches Ok(out) ==> forall|i: int| 0 <= i < out@.len() ==> Some(#[trigger] out@[i]) == (if i < items.len() {
                spec_eval(items[i]->Exp_0.exp, var_map@.scopes) } else { Some(0i32) })
        }),
{
    let total = match total_elems(dims) {
        Some(t) => t,
        None => return Err(CompileError::Overflow),
    };
    let mut out: Vec<i32> = vec![0; total];
    let ghost zeros = out@;
    assert(forall|i: int| 0 <= i < zeros.len() ==> zeros[i] == 0i32);
    let mut cursor: usize = 0;
    match init {
        ConstInitVal::Exp(_) => Err(CompileError::ArrayNeedsList),
        ConstInitVal::List(items) => {
            match flatten_const_list_into(items, dims, 0, var_map, &mut out, &mut cursor, 0, total) {
                Ok(()) => {
                    proof {
                        if flat_const_list(items@) {
                            assert forall|i: int| 0 <= i < out@.len() implies Some(#[trigger] out@[i]) == (if i < items@.len() {
                                spec_eval(items@[i]->Exp_0.exp, var_map@.scopes) } else { Some(0i32) }) by {
                                if i >= items@.len() {
                                    assert(cursor == items@.len());
                                    assert(out@[i] == zeros[i]);
                                } else {
                                    let k = i;
                                    assert(0 + k == i);
                                    assert(Some(out@[0 + k]) == spec_eval(items@[k]->Exp_0.exp, var_map@.scopes));
                                }
                            }
                        }
                    }
                    Ok(out)
                },
                Err(e) => Err(e),
            }
        },
    }
}

/// An initializer list made of expressions only (no nested list).
pub open spec fn flat_init_list(items: Seq<InitVal>) -> bool {
    forall|i: int| 0 <= i < items.len() ==> (#[trigger] items[i]) is Exp
}

/// Records in `slots`, starting at `*cursor`, which expression of the
/// initializer `items` initializes each element of the aggregate
/// `[agg_start, agg_end)` of an array of dimensions `dims[from..]`; the
/// placement is that of `flatten_const_list_into`.
pub fn flatten_init_list_into<'a>(
    items: &'a Vec<InitVal>,
    dims: &Vec<usize>,
    from: usize,
    slots: &mut Vec<Option<&'a Exp>>,
    cursor: &mut usize,
    agg_start: usize,
    agg_end: usize,
) -> (r: Result<(), CompileError>)
    requires
        from < dims@.len(),
        forall|i: int| 0 <= i < dims@.len() ==> #[trigger] dims@[i] > 0,
        agg_start <= *old(cursor) <= agg_end <= old(slots)@.len(),
    ensures
        final(slots)@.len() == old(slots)@.len(),
        r is Ok ==> *old(cursor) <= *final(cursor) <= agg_end,
        r is Ok ==> forall|i: int| 0 <= i < old(slots)@.len() && !(*old(cursor) <= i < *final(cursor)) ==>
            #[trigger] final(slots)@[i] == old(slots)@[i],
        flat_init_list(items@) ==> (r is Ok <==> items@.len() <= agg_end - *old(cursor)),
        flat_init_list(items@) && r is Ok ==> *final(cursor) == *old(cursor) + items@.len()
            && forall|i: int| 0 <= i < items@.len() ==>
                #[trigger] final(slots)@[*old(cursor) + i] == Some(&items@[i]->Exp_0),
    decreases items@,
{
    let n = items.len();
    let ghost c0 = *cursor;
    let mut j: usize = 0;
    while j < n
        invariant
            n == items@.len(),
            j <= n,
            from < dims@.len(),
            forall|i: int| 0 <= i < dims@.len() ==> #[trigger] dims@[i] > 0,
            agg_start <= c0 <= *cursor <= agg_end <= slots@.len(),
            slots@.len() == old(slots)@.len(),
            forall|i: int| 0 <= i < old(slots)@.len() && !(c0 <= i < *cursor) ==> #[trigger] slots@[i] == old(slots)@[i],
            c0 == *old(cursor),
            flat_init_list(items@) ==> *cursor == c0 + j
                && forall|i: int| 0 <= i < j ==> #[trigger] slots@[c0 + i] == Some(&items@[i]->Exp_0),
        decreases n - j,
    {
        if *cursor >= agg_end {
            return Err(CompileError::TooManyInitializers);
        }
        match &items[j] {
            InitVal::Exp(exp) => {
                let c = *cursor;
                slots.set(c, Some(exp));
                *cursor = c + 1;
            },
            InitVal::List(sub) => {
                if dims.len() - from <= 1 {
                    return Err(CompileError::BracesAroundScalar);
                }
                let rel = *cursor - agg_start;
                let k = match choose_sub_aggregate(dims, from, rel) {
                    Some(k) => k,
                    None => return Err(CompileError::UnalignedInitializer),
                };
                let block = match suffix_product(dims, from + k) {
                    Some(b) => b,
                    None => return Err(CompileError::Overflow),
                };
                let sub_start = *cursor;
                let sub_end = match sub_start.checked_add(block) {
                    Some(e) => if e < agg_end { e } else { agg_end },
                    None => return Err(CompileError::Overflow),
                };
                assert(decreases_to!(items@ => sub@)) by {
                    assert(decreases_to!(items@ => items@[j as int]));
                }
                flatten_init_list_into(sub, dims, from + k, slots, cursor, sub_start, sub_end)?;
                *cursor = sub_end;
            },
        }
        j = j + 1;
    }
    Ok(())
}

/// Which expression initializes each element of an array with the given
/// dimensions, in row-major order.
fn flatten_init_slots<'a>(init: &'a InitVal, dims: &Vec<usize>) -> (r: Result<Vec<Option<&'a Exp>>, CompileError>)
    requires
        dims@.len() > 0,
        forall|i: int| 0 <= i < dims@.len() ==> #[trigger] dims@[i] > 0,
    ensures
        r matches Ok(slots) ==> slots@.len() == seq_prod(dims@),
        init is Exp ==> r is Err,
        init is List && flat_init_list(init->List_0@) ==> ({
            let items = init->List_0@;
            &&& r is Ok <==> (seq_prod(dims@) <= usize::MAX && items.len() <= seq_prod(dims@))
            &&& r matches Ok(slots) ==> forall|i: int| 0 <= i < slots@.len() ==> #[trigger] slots@[i] == (if i < items.len() {
                Some(&items[i]->Exp_0) } else { None })
        }),
{
    let total = match total_elems(dims) {
        Some(t) => t,
        None => return Err(CompileError::Overflow),
    };
    let mut slots: Vec<Option<&'a Exp>> = Vec::new();
    let mut i: usize = 0;
    while i < total
        invariant i <= total, slots@.len() == i, forall|k: int| 0 <= k < i ==> #[trigger] slots@[k] is None,
        decreases total - i,
    {
        slots.push(None);
        i = i + 1;
    }
    let ghost empty = slots@;
    let mut cursor: usize = 0;
    match init {
        InitVal::Exp(_) => Err(CompileError::ArrayNeedsList),
        InitVal::List(items) => {
            match flatten_init_list_into(items, dims, 0, &mut slots, &mut cursor, 0, total) {
                Ok(()) => {
                    proof {
                        if flat_init_list(items@) {
                            assert forall|i: int| 0 <= i < slots@.len() implies #[trigger] slots@[i] == (if i < items@.len() {
                                Some(&items@[i]->Exp_0) } else { None }) by {
                                if i >= items@.len() {
                                    assert(cursor == items@.len());
                                    assert(slots@[i] == empty[i]);
                                } else {
                                    let k = i;
                                    assert(0 + k == i);
                                    assert(slots@[0 + k] == Some(&items@[k]->Exp_0));
                                }
                            }
                        }
                    }
                    Ok(slots)
                },
                Err(e) => Err(e),
            }
        },
    }
}

/// The elements of a global array initializer in row-major order: the value
/// of the expression placed at each element, or zero.
pub fn flatten_global_init_from_initval(init: &InitVal, dims: &Vec<usize>, var_map: &Variables) -> (r: Result<Vec<i32>, CompileError>)
    requires
        dims@.len() > 0,
        forall|i: int| 0 <= i < dims@.len() ==> #[trigger] dims@[i] > 0,
    ensures
        r matches Ok(out) ==> out@.len() == seq_prod(dims@),
        init is Exp ==> r is Err,
        init is List && flat_init_list(init->List_0@) ==> ({
            let items = init->List_0@;
            &&& r is Ok <==> (seq_prod(dims@) <= usize::MAX && items.len() <= seq_prod(dims@)
                && forall|i: int| 0 <= i < items.len() ==> spec_eval((#[trigger] items[i])->Exp_0, var_map@.scopes) is Some)
            &&& r matches Ok(out) ==> forall|i: int| 0 <= i < out@.len() ==> Some(#[trigger] out@[i]) == (if i < items.len() {
                spec_eval(items[i]->Exp_0, var_map@.scopes) } else { Some(0i32) })
        }),
{
    let slots = match flatten_init_slots(init, dims) {
        Ok(s) => s,
        Err(e) => return Err(e),
    };
    let ghost flat = init is List && flat_init_list(init->List_0@);
    let ghost items = init->List_0@;
    let mut out: Vec<i32> = Vec::new();
    let n = slots.len();
    let mut i: usize = 0;
    while i < n
        invariant
            n == slots@.len(), i <= n, out@.len() == i,
            flat == (init is List && flat_init_list(init->List_0@)),
            items == init->List_0@,
            flat ==> n == seq_prod(dims@) && items.len() <= n
                && forall|k: int| 0 <= k < n ==> #[trigger] slots@[k] == (if k < items.len() { Some(&items[k]->Exp_0) } else { None }),
            flat ==> forall|k: int| 0 <= k < i && k < items.len() ==> spec_eval((#[trigger] items[k])->Exp_0, var_map@.scopes) is Some,
            flat ==> forall|k: int| 0 <= k < i ==> Some(#[trigger] out@[k]) == (if k < items.len() {
                spec_eval(items[k]->Exp_0, var_map@.scopes) } else { Some(0i32) }),
        decreases n - i,
    {
        let v = match slots[i] {
            None => 0,
            Some(e) => match crate::ast::try_eval_exp(e, var_map) {
                Some(v) => v,
                None => {
                    proof {
                        if flat {
                            assert(slots@[i as int] == Some(&items[i as int]->Exp_0));
                            assert(spec_eval(items[i as int]->Exp_0, var_map@.scopes) is None);
                        }
                    }
                    return Err(CompileError::InvalidConstExp);
                },
            },
        };
        out.push(v);
        i = i + 1;
    }
    Ok(out)
}

/// A global aggregate of integers `flat[*cursor..]` shaped by the
/// dimensions `dims[from..]`; the cursor moves past the elements used.
pub fn build_global_aggregate_from_flat(
    program: &mut Program,
    dims: &Vec<usize>,
    from: usize,
    flat: &Vec<i32>,
    cursor: &mut usize,
) -> (r: Result<Value, CompileError>)
    requires
        from < dims@.len(),
        forall|i: int| 0 <= i < dims@.len() ==> #[trigger] dims@[i] > 0,
    ensures
        final(program).funcs == old(program).funcs,
        final(program).inst_layout == old(program).inst_layout,
        old(program).globals@.len() <= final(program).globals@.len(),
        forall|i: int| 0 <= i < old(program).globals@.len() ==> #[trigger] final(program).globals@[i] == old(program).globals@[i],
        r matches Ok(v) ==> v is Global && v->Global_0 < final(program).globals@.len()
            && final(program).globals@[v->Global_0 as int].ty == array_ty(Ty::I32, dims@.subrange(from as int, dims@.len() as int))
            && is_const_kind(final(program).globals@[v->Global_0 as int].kind),
        r is Ok ==> *final(cursor) == *old(cursor) + seq_prod(dims@.subrange(from as int, dims@.len() as int)),
        r is Err ==> *old(cursor) + seq_prod(dims@.subrange(from as int, dims@.len() as int)) > flat@.len()
            || final(program).globals@.len() >= usize::MAX,
    decreases dims@.len() - from,
{
    let n = dims[from];
    let dl = dims.len();
    let mut elems: Vec<Value> = Vec::new();
    let ghost g0 = program.globals@;
    let ghost c0 = *cursor;
    let ghost sub_dims = dims@.subrange(from + 1, dims@.len() as int);
    let ghost sub = seq_prod(sub_dims);
    proof {
        let full = dims@.subrange(from as int, dims@.len() as int);
        assert(full.drop_first() =~= sub_dims);
        lemma_prod_pos(sub_dims);
        if from + 1 == dims@.len() { assert(sub_dims.len() == 0); }
    }
    let ghost elem_ty = if from + 1 == dims@.len() { Ty::I32 } else { array_ty(Ty::I32, sub_dims) };
    let mut i: usize = 0;
    while i < n
        invariant
            n == dims@[from as int],
            from < dims@.len(),
            dl == dims@.len(),
            forall|k: int| 0 <= k < dims@.len() ==> #[trigger] dims@[k] > 0,
            i <= n,
            elems@.len() == i,
            program.funcs == old(program).funcs,
            program.inst_layout == old(program).inst_layout,
            g0 == old(program).globals@,
            g0.len() <= program.globals@.len(),
            forall|k: int| 0 <= k < g0.len() ==> #[trigger] program.globals@[k] == g0[k],
            sub_dims == dims@.subrange(from + 1, dims@.len() as int),
            elem_ty == (if from + 1 == dims@.len() { Ty::I32 } else { array_ty(Ty::I32, sub_dims) }),
            forall|k: int| 0 <= k < i ==> {
                &&& (#[trigger] elems@[k]) is Global
                &&& elems@[k]->Global_0 < program.globals@.len()
                &&& program.globals@[elems@[k]->Global_0 as int].ty == elem_ty
                &&& is_const_kind(program.globals@[elems@[k]->Global_0 as int].kind)
            },
            c0 == *old(cursor),
            sub == seq_prod(sub_dims),
            sub >= 1,
            from + 1 == dims@.len() ==> sub == 1,
            *cursor == c0 + i * sub,
            seq_prod(dims@.subrange(from as int, dims@.len() as int)) == n * sub,
        decreases n - i,
    {
        let ghost before = program.globals@;
        proof {
            assert((i + 1) * sub <= n * sub) by (nonlinear_arith) requires i < n, sub >= 1;
            assert((i + 1) * sub == i * sub + sub) by (nonlinear_arith);
        }
        let e = if from + 1 == dl {
            let c = *cursor;
            if c >= flat.len() {
                return Err(CompileError::InvalidHandle);
            }
            let e = program.global_integer(flat[c])?;
            *cursor = c + 1;
            e
        } else {
            build_global_aggregate_from_flat(program, dims, from + 1, flat, cursor)?
        };
        proof {
            if from + 1 < dims@.len() {
                assert(dims@.subrange(from + 1, dims@.len() as int) == sub_dims);
            }
            assert forall|k: int| 0 <= k < i implies {
                &&& (#[trigger] elems@[k]) is Global
                &&& elems@[k]->Global_0 < program.globals@.len()
                &&& program.globals@[elems@[k]->Global_0 as int].ty == elem_ty
                &&& is_const_kind(program.globals@[elems@[k]->Global_0 as int].kind)
            } by {
                assert(program.globals@[elems@[k]->Global_0 as int] == before[elems@[k]->Global_0 as int]);
            }
        }
        elems.push(e);
        i = i + 1;
    }
    let ghost before = program.globals@;
    let ghost es = elems@;
    proof {
        assert(elem_ty !is Unit);
        assert(es.len() > 0);
        let g = program.globals@;
        assert(g[es[0]->Global_0 as int].ty == elem_ty);
        assert forall|k: int| 0 <= k < es.len() implies {
            &&& (#[trigger] es[k]) is Global
            &&& es[k]->Global_0 < g.len()
            &&& is_const_kind(g[es[k]->Global_0 as int].kind)
            &&& g[es[k]->Global_0 as int].ty == g[es[0]->Global_0 as int].ty
        } by {}
    }
    let v = program.global_aggregate(elems)?;
    proof {
        let full = dims@.subrange(from as int, dims@.len() as int);
        assert(full.drop_first() =~= sub_dims);
        if from + 1 == dims@.len() {
            assert(sub_dims.len() == 0);
            assert(array_ty(Ty::I32, sub_dims) == Ty::I32);
        }
        assert(before[es[0]->Global_0 as int].ty == elem_ty);
    }
    Ok(v)
}

/// A pointer to the element at linear position `linear_idx` of the array
/// that `base_ptr` points to, computed in block `*bb` by one element-pointer
/// step per dimension.
/// `v` is reached from `base` by one `getelemptr` per index of `idx`, in
/// order, each indexing by an integer constant equal to that index.
pub open spec fn gep_chain(vals: Seq<ValueData>, v: Value, base: Value, idx: Seq<usize>) -> bool
    decreases idx.len(),
{
    if idx.len() == 0 {
        v == base
    } else {
        &&& v is Local && v->Local_0 < vals.len()
        &&& vals[v->Local_0 as int].kind matches ValueKind::GetElemPtr { src, index }
        &&& index is Local && index->Local_0 < vals.len()
        &&& vals[index->Local_0 as int].kind == ValueKind::Integer(idx.last() as i32)
        &&& gep_chain(vals, src, base, idx.drop_last())
    }
}

proof fn lemma_gep_chain_prefix(vals: Seq<ValueData>, more: Seq<ValueData>, v: Value, base: Value, idx: Seq<usize>)
    requires
        gep_chain(vals, v, base, idx),
        vals.len() <= more.len(),
        forall|j: int| 0 <= j < vals.len() ==> #[trigger] more[j] == vals[j],
    ensures gep_chain(more, v, base, idx),
    decreases idx.len(),
{
    if idx.len() > 0 {
        match vals[v->Local_0 as int].kind {
            ValueKind::GetElemPtr { src, index } => {
                lemma_gep_chain_prefix(vals, more, src, base, idx.drop_last());
            },
            _ => {},
        }
    }
}

pub fn emit_ptr_at_linear_index(
    func_data: &mut FunctionData,
    globals: &Vec<ValueData>,
    bb: &mut BasicBlock,
    base_ptr: Value,
    dims: &Vec<usize>,
    linear_idx: usize,
) -> (r: Result<Value, CompileError>)
    requires
        forall|i: int| 0 <= i < dims@.len() ==> #[trigger] dims@[i] > 0 && dims@[i] <= i32::MAX,
        linear_idx < seq_prod(dims@),
    ensures
        r is Ok ==> step_ok(globals@, *old(func_data), *final(func_data), *old(bb), *final(bb)),
        *final(bb) == *old(bb),
        r matches Ok(v) ==> exists|idx: Seq<usize>| {
            &&& idx.len() == dims@.len()
            &&& (forall|i: int| 0 <= i < dims@.len() ==> #[trigger] idx[i] < dims@[i])
            &&& mixed_radix(idx, dims@) == linear_idx
            &&& #[trigger] gep_chain(final(func_data).values@, v, base_ptr, idx)
        },
        r is Err ==> value_ty(globals@, *old(func_data), base_ptr) != Some(Ty::Pointer(Box::new(array_ty(Ty::I32, dims@))))
            || !in_layout(*old(func_data), *old(bb))
            || old(func_data).values@.len() + 2 * dims@.len() >= usize::MAX,
        r is Ok && value_ty(globals@, *old(func_data), base_ptr) == Some(Ty::Pointer(Box::new(array_ty(Ty::I32, dims@))))
            && in_layout(*old(func_data), *old(bb)) && old(func_data).values@.len() + 2 * dims@.len() < usize::MAX ==> {
            &&& value_ty(globals@, *final(func_data), r->Ok_0) == Some(Ty::Pointer(Box::new(Ty::I32)))
            &&& final(func_data).values@.len() == old(func_data).values@.len() + 2 * dims@.len()
            &&& final(func_data).layout@.len() == old(func_data).layout@.len()
        },
{
    let idx = linear_to_indices(linear_idx, dims);
    let mut ptr = base_ptr;
    let ghost f0 = *func_data;
    let ghost good = value_ty(globals@, f0, base_ptr) == Some(Ty::Pointer(Box::new(array_ty(Ty::I32, dims@))))
        && in_layout(f0, *bb) && f0.values@.len() + 2 * dims@.len() < usize::MAX;
    assert(dims@.subrange(0, dims@.len() as int) =~= dims@);
    proof { lemma_step_refl(globals@, f0, *bb); }
    let n = idx.len();
    let mut k: usize = 0;
    while k < n
        invariant
            n == idx@.len(),
            idx@.len() == dims@.len(),
            forall|i: int| 0 <= i < dims@.len() ==> #[trigger] dims@[i] > 0 && dims@[i] <= i32::MAX,
            forall|i: int| 0 <= i < dims@.len() ==> #[trigger] idx@[i] < dims@[i],
            k <= n,
            step_ok(globals@, f0, *func_data, *bb, *bb),
            *bb == *old(bb),
            f0 == *old(func_data),
            gep_chain(func_data.values@, ptr, base_ptr, idx@.take(k as int)),
            good == (value_ty(globals@, f0, base_ptr) == Some(Ty::Pointer(Box::new(array_ty(Ty::I32, dims@))))
                && in_layout(f0, *bb) && f0.values@.len() + 2 * dims@.len() < usize::MAX),
            good ==> value_ty(globals@, *func_data, ptr) == Some(Ty::Pointer(Box::new(array_ty(Ty::I32, dims@.subrange(k as int, n as int)))))
                && func_data.values@.len() == f0.values@.len() + 2 * k
                && in_layout(*func_data, *bb)
                && func_data.layout@.len() == f0.layout@.len(),
        decreases n - k,
    {
        let ghost f1 = *func_data;
        let ghost p1 = ptr;
        proof {
            if good {
                let sd = dims@.subrange(k as int, n as int);
                assert(sd.drop_first() =~= dims@.subrange(k + 1, n as int));
                assert(sd[0] == dims@[k as int]);
            }
        }
        let i = idx[k];
        assert(idx@[k as int] < dims@[k as int]);
        let idx_val = func_data.integer(i as i32)?;
        let ghost f2 = *func_data;
        let elem_ptr = func_data.emit(globals, *bb, ValueKind::GetElemPtr { src: ptr, index: idx_val })?;
        proof {
            lemma_step_values(globals@, f1, f2, *bb);
            lemma_step_emit(globals@, f2, *func_data, *bb, elem_ptr, func_data.values@.last());
            lemma_step_trans(globals@, f0, f1, f2, *bb, *bb, *bb);
            lemma_step_trans(globals@, f0, f2, *func_data, *bb, *bb, *bb);
            lemma_gep_chain_prefix(f1.values@, func_data.values@, p1, base_ptr, idx@.take(k as int));
            assert(idx@.take(k + 1).drop_last() =~= idx@.take(k as int));
            assert(func_data.values@[idx_val->Local_0 as int] == f2.values@[idx_val->Local_0 as int]);
        }
        ptr = elem_ptr;
        k = k + 1;
    }
    proof {
        assert(idx@.take(n as int) =~= idx@);
        assert(dims@.subrange(n as int, n as int) =~= Seq::<usize>::empty());
    }
    Ok(ptr)
}

/// Symbol-table changes allowed to a block item: only the innermost scope
/// changes, the loops are as before and the id counter has not gone back.
pub open spec fn frame_symbols(a: VariablesView, b: VariablesView) -> bool {
    &&& b.scopes.len() == a.scopes.len()
    &&& b.scopes.drop_last() == a.scopes.drop_last()
    &&& b.loops == a.loops
    &&& a.counter <= b.counter
}

/// The first node of block `bb` in the layout ends with a terminator.
pub open spec fn first_node_terminated(f: FunctionData, bb: BasicBlock) -> bool {
    exists|k: int| 0 <= k < f.layout@.len() && (#[trigger] f.layout@[k]).bb == bb
        && (forall|j: int| 0 <= j < k ==> (#[trigger] f.layout@[j]).bb != bb)
        && node_terminated(f, f.layout@[k])
}

pub fn is_bb_terminated(func_data: &FunctionData, bb: &BasicBlock) -> (r: bool)
    ensures
        layout_unique(*func_data) ==> r == block_terminated(*func_data, *bb),
        r == first_node_terminated(*func_data, *bb),
{
    match find_layout(&func_data.layout, *bb) {
        None => false,
        Some(k) => {
            let insts = &func_data.layout[k].insts;
            let n = insts.len();
            if n == 0 {
                false
            } else {
                let last = insts[n - 1];
                if last >= func_data.values.len() {
                    false
                } else {
                    let r = match func_data.values[last].kind {
                        ValueKind::Return(_) | ValueKind::Jump(_) | ValueKind::Branch { .. } => true,
                        _ => false,
                    };
                    proof {
                        if layout_unique(*func_data) && !r {
                            assert forall|j: int| 0 <= j < func_data.layout@.len() && (#[trigger] func_data.layout@[j]).bb == *bb
                                implies !node_terminated(*func_data, func_data.layout@[j]) by {
                                if j != k {
                                    assert(func_data.layout@[j].bb != func_data.layout@[k as int].bb);
                                }
                            }
                        }
                    }
                    r
                }
            }
        },
    }
}

/// The name `@<ident>_<id>` of a local allocation.
fn local_name(ident: &String, id: u64) -> (r: String)
    ensures r@ == seq!['@'] + ident@ + seq!['_'] + crate::util::dec_nat(id as nat),
{
    let mut s = String::new();
    crate::util::push_char(&mut s, '@');
    s.append(ident.as_str());
    crate::util::push_char(&mut s, '_');
    append_u64(&mut s, id);
    assert(s@ =~= seq!['@'] + ident@ + seq!['_'] + crate::util::dec_nat(id as nat));
    s
}

/// Stores the initializer of a local array, element by element in row-major
/// order, zeros where the initializer says nothing.
/// Element `k` (in row-major order) of the array of dimensions `dims` at
/// `ptr` is written by a store in `f`, through one `getelemptr` per
/// dimension indexing by the digits of `k`.
pub open spec fn element_stored(f: FunctionData, ptr: Value, dims: Seq<usize>, k: int) -> bool {
    exists|i: int, idx: Seq<usize>| 0 <= i < f.values@.len() && #[trigger] f.values@[i].kind is Store
        && idx.len() == dims.len() && mixed_radix(idx, dims) == k
        && #[trigger] gep_chain(f.values@, f.values@[i].kind->Store_dest, ptr, idx)
}

proof fn lemma_element_stored_extends(f: FunctionData, g: FunctionData, ptr: Value, dims: Seq<usize>, k: int)
    requires element_stored(f, ptr, dims, k), extends(f, g),
    ensures element_stored(g, ptr, dims, k),
{
    let (i, idx) = choose|i: int, idx: Seq<usize>| 0 <= i < f.values@.len() && #[trigger] f.values@[i].kind is Store
        && idx.len() == dims.len() && mixed_radix(idx, dims) == k
        && #[trigger] gep_chain(f.values@, f.values@[i].kind->Store_dest, ptr, idx);
    assert(g.values@[i] == f.values@[i]);
    lemma_gep_chain_prefix(f.values@, g.values@, f.values@[i].kind->Store_dest, ptr, idx);
}

/// What the store of an array element with initializer `item` writes in
/// `f`: for an expression, the value it was lowered to in `scopes` (with the
/// value of the expression itself where it is a straight-line constant
/// expression); where there is no initializer, an integer zero.
pub open spec fn init_value_ok(gl: Seq<ValueData>, f: FunctionData, v: Value, item: Option<Exp>,
    scopes: Seq<Map<Seq<char>, SymbolInfo>>) -> bool {
    match item {
        None => v is Local && v->Local_0 < f.values@.len() && f.values@[v->Local_0 as int].kind == ValueKind::Integer(0),
        Some(e) => {
            &&& exists|fa: FunctionData, fb: FunctionData, ba: BasicBlock, bm: BasicBlock|
                #[trigger] lowered(gl, e, fa, fb, ba, bm, scopes, Ok::<Value, CompileError>(v)) && extends(fb, f)
            &&& v is Local && v->Local_0 < f.values@.len()
            &&& (straight(e) && spec_eval(e, scopes) is Some ==> denote(f.values@, v) == spec_eval(e, scopes))
        },
    }
}

/// Element `k` (in row-major order) of the array of dimensions `dims` at
/// `ptr` is written by a store in `f`, through one `getelemptr` per
/// dimension indexing by the digits of `k`, of what `init_value_ok` says
/// for its initializer `item`.
pub open spec fn element_init_stored(gl: Seq<ValueData>, f: FunctionData, ptr: Value, dims: Seq<usize>, k: int,
    item: Option<Exp>, scopes: Seq<Map<Seq<char>, SymbolInfo>>) -> bool {
    exists|i: int, idx: Seq<usize>| 0 <= i < f.values@.len() && #[trigger] f.values@[i].kind is Store
        && idx.len() == dims.len() && mixed_radix(idx, dims) == k
        && #[trigger] gep_chain(f.values@, f.values@[i].kind->Store_dest, ptr, idx)
        && init_value_ok(gl, f, f.values@[i].kind->Store_value, item, scopes)
}

proof fn lemma_element_init_stored_extends(gl: Seq<ValueData>, f: FunctionData, g: FunctionData, ptr: Value,
    dims: Seq<usize>, k: int, item: Option<Exp>, scopes: Seq<Map<Seq<char>, SymbolInfo>>)
    requires element_init_stored(gl, f, ptr, dims, k, item, scopes), extends(f, g),
    ensures element_init_stored(gl, g, ptr, dims, k, item, scopes),
{
    let (i, idx) = choose|i: int, idx: Seq<usize>| 0 <= i < f.values@.len() && #[trigger] f.values@[i].kind is Store
        && idx.len() == dims.len() && mixed_radix(idx, dims) == k
        && #[trigger] gep_chain(f.values@, f.values@[i].kind->Store_dest, ptr, idx)
        && init_value_ok(gl, f, f.values@[i].kind->Store_value, item, scopes);
    assert(g.values@[i] == f.values@[i]);
    lemma_gep_chain_prefix(f.values@, g.values@, f.values@[i].kind->Store_dest, ptr, idx);
    let v = f.values@[i].kind->Store_value;
    match item {
        None => {
            assert(g.values@[v->Local_0 as int] == f.values@[v->Local_0 as int]);
        },
        Some(e) => {
            let (fa, fb, ba, bm) = choose|fa: FunctionData, fb: FunctionData, ba: BasicBlock, bm: BasicBlock|
                #[trigger] lowered(gl, e, fa, fb, ba, bm, scopes, Ok::<Value, CompileError>(v)) && extends(fb, f);
            lemma_extends_trans(fb, f, g);
            lemma_denote_prefix(f.values@, g.values@, v->Local_0 as nat);
        },
    }
    assert(init_value_ok(gl, g, g.values@[i].kind->Store_value, item, scopes));
}

/// The initializer of element `k` of a flat list of expressions: the `k`-th
/// expression, or none past the end of the list.
pub open spec fn list_item(items: Seq<InitVal>, k: int) -> Option<Exp> {
    if k < items.len() { Some(items[k]->Exp_0) } else { None }
}

/// The expression an element slot names, if any.
pub open spec fn slot_item(s: Option<&Exp>) -> Option<Exp> {
    match s {
        Some(e) => Some(*e),
        None => None,
    }
}

/// Room to fill an array of dimensions `dims` at `alloc_ptr` with zeros from
/// block `bb` of `f`: the array has fewer than `usize::MAX` elements,
/// `alloc_ptr` points to such an array, the block is placed, and the value
/// arena has room for `2 * dims.len() + 2` values per element.
pub open spec fn zero_init_room(gl: Seq<ValueData>, f: FunctionData, bb: BasicBlock, alloc_ptr: Value, dims: Seq<usize>) -> bool {
    &&& seq_prod(dims) <= usize::MAX
    &&& value_ty(gl, f, alloc_ptr) == Some(Ty::Pointer(Box::new(array_ty(Ty::I32, dims))))
    &&& in_layout(f, bb)
    &&& f.values@.len() + seq_prod(dims) * (2 * dims.len() + 2) < usize::MAX
}

fn emit_local_array_init(
    func_data: &mut FunctionData,
    globals: &Vec<ValueData>,
    bb: &mut BasicBlock,
    var_map: &mut Variables,
    func_map: &FuncMap,
    alloc_ptr: Value,
    dims: &Vec<usize>,
    init: &InitVal,
) -> (r: Result<(), CompileError>)
    requires
        dims@.len() > 0,
        forall|i: int| 0 <= i < dims@.len() ==> #[trigger] dims@[i] > 0 && dims@[i] <= i32::MAX,
    ensures
        r is Ok ==> step_ok(globals@, *old(func_data), *final(func_data), *old(bb), *final(bb)),
        r is Ok ==> same_symbols(old(var_map)@, final(var_map)@),
        init is List && init->List_0@.len() == 0 && zero_init_room(globals@, *old(func_data), *old(bb), alloc_ptr, dims@) ==> r is Ok,
        r is Ok ==> forall|k: int| 0 <= k < seq_prod(dims@) ==> #[trigger] element_stored(*final(func_data), alloc_ptr, dims@, k),
        r is Ok && init is List && flat_init_list(init->List_0@) ==> forall|k: int| 0 <= k < seq_prod(dims@) ==>
            #[trigger] element_init_stored(globals@, *final(func_data), alloc_ptr, dims@, k,
                list_item(init->List_0@, k), old(var_map)@.scopes),
{
    let ghost good = init is List && init->List_0@.len() == 0 && zero_init_room(globals@, *old(func_data), *old(bb), alloc_ptr, dims@);
    proof {
        if good {
            assert(flat_init_list(init->List_0@));
            lemma_prod_pos(dims@);
        }
    }
    let slots = flatten_init_slots(init, dims)?;
    let n = slots.len();
    let ghost f0 = *func_data;
    let ghost b0 = *bb;
    let ghost v0 = var_map@;
    let ghost d = dims@.len();
    proof { lemma_step_refl(globals@, f0, b0); }
    let mut i: usize = 0;
    while i < n
        invariant
            n == slots@.len(),
            n == seq_prod(dims@),
            i <= n,
            forall|k: int| 0 <= k < dims@.len() ==> #[trigger] dims@[k] > 0 && dims@[k] <= i32::MAX,
            step_ok(globals@, f0, *func_data, b0, *bb),
            same_symbols(v0, var_map@),
            f0 == *old(func_data),
            b0 == *old(bb),
            v0 == old(var_map)@,
            good == (init is List && init->List_0@.len() == 0 && zero_init_room(globals@, f0, b0, alloc_ptr, dims@)),
            d == dims@.len(),
            good ==> {
                &&& *bb == b0
                &&& forall|k: int| 0 <= k < n ==> #[trigger] slots@[k] is None
                &&& value_ty(globals@, *func_data, alloc_ptr) == value_ty(globals@, f0, alloc_ptr)
                &&& in_layout(*func_data, b0)
                &&& func_data.values@.len() == f0.values@.len() + i * (2 * d + 2)
            },
            forall|k: int| 0 <= k < i ==> #[trigger] element_stored(*func_data, alloc_ptr, dims@, k),
            forall|k: int| 0 <= k < i ==> #[trigger] element_init_stored(globals@, *func_data, alloc_ptr, dims@, k,
                slot_item(slots@[k]), v0.scopes),
        decreases n - i,
    {
        proof {
            if good {
                assert((i + 1) * (2 * d + 2) <= n * (2 * d + 2)) by (nonlinear_arith) requires i < n;
                assert((i + 1) * (2 * d + 2) == i * (2 * d + 2) + 2 * d + 2) by (nonlinear_arith);
                lemma_value_ty_extends(globals@, f0, *func_data, alloc_ptr);
            }
        }
        let ghost fa = *func_data;
        let ghost ba = *bb;
        let elem_ptr = emit_ptr_at_linear_index(func_data, globals, bb, alloc_ptr, dims, i)?;
        let ghost fb = *func_data;
        let ghost bv = *bb;
        let val = match slots[i] {
            Some(exp) => exp_to_ir(exp, globals, func_data, bb, var_map, func_map)?,
            None => {
                let z = func_data.integer(0)?;
                proof { lemma_step_values(globals@, fb, *func_data, *bb); }
                z
            },
        };
        let ghost fc = *func_data;
        proof {
            if good {
                lemma_in_layout_extends(fa, fb, b0);
                lemma_in_layout_extends(fb, fc, b0);
                lemma_value_ty_extends(globals@, fb, fc, elem_ptr);
            }
        }
        let st = func_data.emit(globals, *bb, ValueKind::Store { value: val, dest: elem_ptr })?;
        proof {
            lemma_step_emit(globals@, fc, *func_data, *bb, st, func_data.values@.last());
            lemma_step_trans(globals@, fa, fb, fc, ba, ba, *bb);
            lemma_step_trans(globals@, fa, fc, *func_data, ba, *bb, *bb);
            lemma_step_trans(globals@, f0, fa, *func_data, b0, ba, *bb);
            if good {
                lemma_in_layout_extends(fc, *func_data, b0);
                lemma_value_ty_extends(globals@, f0, *func_data, alloc_ptr);
            }
            let ff = *func_data;
            lemma_extends_trans(fa, fb, fc);
            lemma_extends_trans(fa, fc, ff);
            lemma_extends_trans(fb, fc, ff);
            assert forall|k: int| 0 <= k < i implies #[trigger] element_stored(ff, alloc_ptr, dims@, k) by {
                lemma_element_stored_extends(fa, ff, alloc_ptr, dims@, k);
            }
            let idx = choose|idx: Seq<usize>| {
                &&& idx.len() == dims@.len()
                &&& (forall|q: int| 0 <= q < dims@.len() ==> #[trigger] idx[q] < dims@[q])
                &&& mixed_radix(idx, dims@) == i
                &&& #[trigger] gep_chain(fb.values@, elem_ptr, alloc_ptr, idx)
            };
            lemma_gep_chain_prefix(fb.values@, ff.values@, elem_ptr, alloc_ptr, idx);
            let si = st->Local_0 as int;
            assert(ff.values@[si].kind->Store_dest == elem_ptr);
            assert(element_stored(ff, alloc_ptr, dims@, i as int));
            assert forall|k: int| 0 <= k < i implies #[trigger] element_init_stored(globals@, ff, alloc_ptr, dims@, k,
                slot_item(slots@[k]), v0.scopes) by {
                lemma_element_init_stored_extends(globals@, fa, ff, alloc_ptr, dims@, k, slot_item(slots@[k]), v0.scopes);
            }
            assert(ff.values@[si].kind->Store_value == val);
            match slots@[i as int] {
                Some(e) => {
                    assert(lowered(globals@, *e, fb, fc, bv, *bb, v0.scopes, Ok::<Value, CompileError>(val)));
                    lemma_denote_prefix(fc.values@, ff.values@, val->Local_0 as nat);
                },
                None => {
                    assert(ff.values@[val->Local_0 as int] == fc.values@[val->Local_0 as int]);
                },
            }
            assert(init_value_ok(globals@, ff, ff.values@[si].kind->Store_value, slot_item(slots@[i as int]), v0.scopes));
            assert(element_init_stored(globals@, ff, alloc_ptr, dims@, i as int, slot_item(slots@[i as int]), v0.scopes));
        }
        i = i + 1;
    }
    proof {
        if init is List && flat_init_list(init->List_0@) {
            let items = init->List_0@;
            assert forall|k: int| 0 <= k < seq_prod(dims@) implies #[trigger] element_init_stored(globals@, *func_data, alloc_ptr,
                dims@, k, list_item(items, k), v0.scopes) by {
                assert(slots@[k] == (if k < items.len() { Some(&items[k]->Exp_0) } else { None }));
                assert(element_init_stored(globals@, *func_data, alloc_ptr, dims@, k, slot_item(slots@[k]), v0.scopes));
            }
        }
    }
    Ok(())
}

/// What translating statement `stmt` in block `bb` gives, for the
/// statements whose translation is stated exactly or in part: `break` and
/// `continue` (a jump to the loop's end or entry, an error outside a loop),
/// `return`, the empty statement, `if` and `while` (control continues in a
/// fresh end block), `return e` and `x = e` (a straight-line constant
/// expression denotes its value).
pub open spec fn stmt_post(
    gl: Seq<ValueData>,
    stmt: Stmt,
    f0: FunctionData,
    f1: FunctionData,
    v0: VariablesView,
    bb: BasicBlock,
    r: Result<BasicBlock, CompileError>,
) -> bool {
    &&& (stmt is Break ==> if v0.loops.len() == 0 {
        r == Err::<BasicBlock, CompileError>(CompileError::BreakOutsideLoop)
    } else {
        let kind = ValueKind::Jump(v0.loops.last().1);
        &&& (r is Ok <==> !emit_fails(gl, f0, bb, kind))
        &&& (r matches Ok(b) ==> b == bb && appended(gl, f0, f1, bb, kind))
    })
    &&& (stmt is Continue ==> if v0.loops.len() == 0 {
        r == Err::<BasicBlock, CompileError>(CompileError::ContinueOutsideLoop)
    } else {
        let kind = ValueKind::Jump(v0.loops.last().0);
        &&& (r is Ok <==> !emit_fails(gl, f0, bb, kind))
        &&& (r matches Ok(b) ==> b == bb && appended(gl, f0, f1, bb, kind))
    })
    &&& (stmt == Stmt::Return(None) ==> {
        let kind = ValueKind::Return(None);
        &&& (r is Ok <==> !emit_fails(gl, f0, bb, kind))
        &&& (r matches Ok(b) ==> b == bb && appended(gl, f0, f1, bb, kind))
    })
    &&& (stmt == Stmt::Exp(None) ==> r == Ok::<BasicBlock, CompileError>(bb) && f1 == f0)
    &&& (stmt is IF || stmt is WHILE ==>
        (r matches Ok(b) ==> continues_in_fresh_end(f1, f0.bbs@.len() as int, b)))
    &&& (stmt is IF && r is Ok ==> if_shape(f0, f1, v0.counter as nat))
    &&& (stmt is WHILE && r is Ok ==> while_shape(f0, f1, v0.counter as nat))
    &&& (stmt matches Stmt::Return(Some(e)) ==> (r is Ok && straight(e) && spec_eval(e, v0.scopes) is Some ==> {
        &&& r == Ok::<BasicBlock, CompileError>(bb)
        &&& f1.values@.last().kind matches ValueKind::Return(Some(v))
        &&& denote(f1.values@, v) == spec_eval(e, v0.scopes)
    }))
    &&& (stmt matches Stmt::Assign { lval, exp } ==> (r is Ok ==> {
        &&& lval.indices@.len() == 0
        &&& lookup_var(v0.scopes, lval.ident@) is Some
        &&& f1.values@.last().kind matches ValueKind::Store { value, dest }
        &&& dest == lookup_var(v0.scopes, lval.ident@)->Some_0
        &&& (straight(exp) && spec_eval(exp, v0.scopes) is Some ==>
                denote(f1.values@, value) == spec_eval(exp, v0.scopes))
    }))
}

/// Translates one statement starting in block `bb`; returns the block where
/// control continues.
pub fn process_stmt(
    stmt: &Stmt,
    globals: &Vec<ValueData>,
    func_data: &mut FunctionData,
    bb: BasicBlock,
    var_map: &mut Variables,
    func_map: &FuncMap,
) -> (r: Result<BasicBlock, CompileError>)
    ensures
        r matches Ok(b) ==> step_ok(globals@, *old(func_data), *final(func_data), bb, b),
        r is Ok ==> same_symbols(old(var_map)@, final(var_map)@),
        stmt_post(globals@, *stmt, *old(func_data), *final(func_data), old(var_map)@, bb, r),
        r is Ok ==> (stmt matches Stmt::WHILE(w) ==> loop_body_lowered(globals@, w.body_while, *old(func_data), *final(func_data), old(var_map)@)),
        r is Ok ==> (stmt matches Stmt::WHILE(w) ==> branch_on_cond(globals@, w.cond, *old(func_data), *final(func_data),
            old(func_data).bbs@.len() as usize, old(var_map)@.scopes, (old(func_data).bbs@.len() + 1) as usize,
            (old(func_data).bbs@.len() + 2) as usize)),
        r is Ok ==> (stmt matches Stmt::IF(s) ==> if_branches_lowered(globals@, **s, *old(func_data), *final(func_data), old(var_map)@)),
        r is Ok ==> (stmt matches Stmt::IF(s) ==> branch_on_cond(globals@, s.cond, *old(func_data), *final(func_data), bb,
            old(var_map)@.scopes, old(func_data).bbs@.len() as usize, (old(func_data).bbs@.len() + 1) as usize)),
        stmt is Break || stmt is Continue || *stmt == Stmt::Return(None) || *stmt == Stmt::Exp(None) ==>
            final(var_map)@ == old(var_map)@,
    decreases stmt, 1nat,
{
    let ghost f0 = *func_data;
    let ghost v0 = var_map@;
    match stmt {
        Stmt::Assign { lval, exp } => {
            let mut current_bb = bb;
            let val = exp_to_ir(exp, globals, func_data, &mut current_bb, var_map, func_map)?;
            let ghost f1 = *func_data;
            match var_map.get(lval.ident.as_str()) {
                Some(dest_base) => {
                    if lval.indices.len() > 0 {
                        return Err(CompileError::Unsupported);
                    }
                    let store_inst = func_data.emit(globals, current_bb, ValueKind::Store { value: val, dest: dest_base })?;
                    proof {
                        lemma_step_emit(globals@, f1, *func_data, current_bb, store_inst, func_data.values@.last());
                        lemma_step_trans(globals@, f0, f1, *func_data, bb, current_bb, current_bb);
                        lemma_denote_prefix(f1.values@, func_data.values@, val->Local_0 as nat);
                    }
                },
                None => return Err(CompileError::UndefinedVariable),
            }
            Ok(current_bb)
        },
        Stmt::Return(exp) => {
            let mut current_bb = bb;
            let ret_val = match exp {
                Some(expr) => Some(exp_to_ir(expr, globals, func_data, &mut current_bb, var_map, func_map)?),
                None => {
                    proof { lemma_step_refl(globals@, f0, bb); }
                    None
                },
            };
            let ghost f1 = *func_data;
            let ret_inst = func_data.emit(globals, current_bb, ValueKind::Return(ret_val))?;
            proof {
                lemma_step_emit(globals@, f1, *func_data, current_bb, ret_inst, func_data.values@.last());
                lemma_step_trans(globals@, f0, f1, *func_data, bb, current_bb, current_bb);
                if let Some(v) = ret_val {
                    lemma_denote_prefix(f1.values@, func_data.values@, v->Local_0 as nat);
                }
            }
            Ok(current_bb)
        },
        Stmt::Exp(exp) => {
            let mut current_bb = bb;
            match exp {
                Some(expr) => {
                    let _ = exp_to_ir(expr, globals, func_data, &mut current_bb, var_map, func_map)?;
                },
                None => {
                    proof { lemma_step_refl(globals@, f0, bb); }
                },
            }
            Ok(current_bb)
        },
        Stmt::Block(blk) => {
            var_map.enter_scope();
            let new_bb = process_block(blk, globals, func_data, bb, var_map, func_map)?;
            var_map.exit_scope();
            proof {
                assert(var_map@.scopes =~= v0.scopes);
            }
            Ok(new_bb)
        },
        Stmt::IF(_) => process_if(stmt, globals, func_data, bb, var_map, func_map),
        Stmt::WHILE(_) => process_while(stmt, globals, func_data, bb, var_map, func_map),
        Stmt::Break => {
            let break_block = match var_map.get_break() {
                Some(b) => b,
                None => return Err(CompileError::BreakOutsideLoop),
            };
            let jump = func_data.emit(globals, bb, ValueKind::Jump(break_block))?;
            proof { lemma_step_emit(globals@, f0, *func_data, bb, jump, func_data.values@.last()); }
            Ok(bb)
        },
        Stmt::Continue => {
            let cont_block = match var_map.get_continue() {
                Some(b) => b,
                None => return Err(CompileError::ContinueOutsideLoop),
            };
            let jump = func_data.emit(globals, bb, ValueKind::Jump(cont_block))?;
            proof { lemma_step_emit(globals@, f0, *func_data, bb, jump, func_data.values@.last()); }
            Ok(bb)
        },
    }
}

/// Closes block `b` with a jump to `target` unless it ends with a
/// terminator already; afterwards every block of the layout does.
fn close_block(globals: &Vec<ValueData>, func_data: &mut FunctionData, b: BasicBlock, target: BasicBlock) -> (r: Result<(), CompileError>)
    ensures
        r is Ok ==> extends(*old(func_data), *final(func_data)),
        r is Ok ==> (others_terminated(*old(func_data), b) && layout_unique(*old(func_data))
            ==> all_terminated(*final(func_data)) && layout_unique(*final(func_data))),
        r is Ok ==> (well_typed(globals@, *old(func_data)) ==> well_typed(globals@, *final(func_data))),
        r is Err <==> !first_node_terminated(*old(func_data), b) && emit_fails(globals@, *old(func_data), b, ValueKind::Jump(target)),
        r is Ok && first_node_terminated(*old(func_data), b) ==> *final(func_data) == *old(func_data),
        r is Ok && !first_node_terminated(*old(func_data), b) ==>
            appended(globals@, *old(func_data), *final(func_data), b, ValueKind::Jump(target)),
        r is Ok ==> closed_with_jump(globals@, *old(func_data), *final(func_data), b, target),
{
    proof { reveal(closed_with_jump); }
    if !is_bb_terminated(func_data, &b) {
        let j = func_data.emit(globals, b, ValueKind::Jump(target))?;
        proof { lemma_emitted_keeps(*old(func_data), *func_data, b, j, func_data.values@.last()); lemma_wt_emit(globals@, *old(func_data), *func_data, b, j, func_data.values@.last()); }
    } else {
        proof {
            lemma_extends_refl(*func_data);
            if others_terminated(*func_data, b) && layout_unique(*func_data) {
                lemma_close(*func_data, b);
            }
        }
    }
    Ok(())
}

/// Control continues in block `b`, made as the third of the fresh blocks
/// after the `n` blocks there were, and placed last in the layout with no
/// instruction yet.
pub open spec fn continues_in_fresh_end(f: FunctionData, n: int, b: BasicBlock) -> bool {
    &&& b == n + 2
    &&& f.layout@.len() > 0
    &&& f.layout@.last().bb == b
    &&& f.layout@.last().insts@.len() == 0
}

/// `if (cond) then_stmt [else else_stmt]`: a branch to fresh `then` and
/// `else` blocks, each closed by a jump to a fresh `end` block where control
/// continues.
#[verifier::spinoff_prover]
#[verifier::rlimit(80)]
fn process_if(
    stmt: &Stmt,
    globals: &Vec<ValueData>,
    func_data: &mut FunctionData,
    bb: BasicBlock,
    var_map: &mut Variables,
    func_map: &FuncMap,
) -> (r: Result<BasicBlock, CompileError>)
    ensures
        r matches Ok(b) ==> step_ok(globals@, *old(func_data), *final(func_data), bb, b),
        r is Ok ==> same_symbols(old(var_map)@, final(var_map)@),
        r matches Ok(b) ==> continues_in_fresh_end(*final(func_data), old(func_data).bbs@.len() as int, b),
        r is Ok ==> if_shape(*old(func_data), *final(func_data), old(var_map)@.counter as nat),
        r is Ok ==> (stmt matches Stmt::IF(s) ==> if_branches_lowered(globals@, **s, *old(func_data), *final(func_data), old(var_map)@)),
        r is Ok ==> (stmt matches Stmt::IF(s) ==> branch_on_cond(globals@, s.cond, *old(func_data), *final(func_data), bb,
            old(var_map)@.scopes, old(func_data).bbs@.len() as usize, (old(func_data).bbs@.len() + 1) as usize)),
        stmt matches Stmt::IF(s) ==> (const_exp(s.cond, old(var_map)@.scopes) && leaf_stmt(s.then_stmt, false)
            && (s.else_stmt is Some ==> leaf_stmt(s.else_stmt->Some_0, false))
            && branch_room(*old(func_data), bb, old(var_map)@.counter as nat, exp_size(s.cond)) ==> r is Ok),
    decreases stmt, 0nat,
{
    let if_stmt = match stmt {
        Stmt::IF(b) => b,
        _ => return Err(CompileError::Unsupported),
    };
    let ghost f0 = *func_data;
    let ghost v0 = var_map@;
    let ghost good = const_exp(if_stmt.cond, v0.scopes) && leaf_stmt(if_stmt.then_stmt, false)
        && (if_stmt.else_stmt is Some ==> leaf_stmt(if_stmt.else_stmt->Some_0, false))
        && branch_room(f0, bb, v0.counter as nat, exp_size(if_stmt.cond));
    if !var_map.has_next_id() {
        return Err(CompileError::Overflow);
    }
    let id = var_map.get_id();
    let then_bb = func_data.new_bb(Some(str_with_u64("%then_", id)))?;
    let else_bb = func_data.new_bb(Some(str_with_u64("%else_", id)))?;
    let end_bb = func_data.new_bb(Some(str_with_u64("%end_", id)))?;
    let ghost f1 = *func_data;
    proof {
        lemma_step_values(globals@, f0, f1, bb);
        if good { lemma_in_layout_extends(f0, f1, bb); }
    }

    let mut current_bb = bb;
    let ghost vc = var_map@;
    let cond = exp_to_ir(&if_stmt.cond, globals, func_data, &mut current_bb, var_map, func_map)?;
    let ghost f2 = *func_data;
    let ghost cb = current_bb;
    proof {
        if good { lemma_in_layout_extends(f1, f2, bb); }
    }
    let br = func_data.emit(globals, current_bb, ValueKind::Branch { cond, true_bb: then_bb, false_bb: else_bb })?;
    let ghost f3 = *func_data;
    proof {
        lemma_emitted_keeps(f2, f3, current_bb, br, f3.values@.last()); lemma_wt_emit(globals@, f2, f3, current_bb, br, f3.values@.last());
        lemma_extends_trans(f0, f1, f2);
        lemma_extends_trans(f0, f2, f3);
        if good {
            assert forall|j: int| 0 <= j < f3.layout@.len() implies (#[trigger] f3.layout@[j]).bb != then_bb by {
                assert(f3.layout@[j].bb == f0.layout@[j].bb);
            }
        }
    }

    func_data.push_bb(then_bb)?;
    let ghost f4 = *func_data;
    proof {
        if good { assert(f4.layout@[f4.layout@.len() - 1].bb == then_bb); }
    }
    let ghost vt = var_map@;
    let then_end_bb = process_stmt(&if_stmt.then_stmt, globals, func_data, then_bb, var_map, func_map)?;
    let ghost f5 = *func_data;
    proof {
        if good {
            assert(then_end_bb == then_bb);
            lemma_in_layout_extends(f4, f5, then_bb);
        }
    }
    close_block(globals, func_data, then_end_bb, end_bb)?;
    let ghost f6 = *func_data;
    proof {
        lemma_extends_trans(f0, f3, f4);
        lemma_extends_trans(f0, f4, f5);
        lemma_extends_trans(f0, f5, f6);
        if good {
            lemma_extends_trans(f3, f4, f5);
            lemma_extends_trans(f3, f5, f6);
            lemma_extends_trans(f4, f5, f6);
            assert forall|j: int| 0 <= j < f6.layout@.len() implies (#[trigger] f6.layout@[j]).bb != else_bb by {
                if j < f3.layout@.len() {
                    assert(f6.layout@[j].bb == f0.layout@[j].bb);
                } else {
                    assert(f6.layout@[j].bb == f4.layout@[j].bb);
                }
            }
        }
    }

    func_data.push_bb(else_bb)?;
    let ghost f7 = *func_data;
    proof {
        if good { assert(f7.layout@[f7.layout@.len() - 1].bb == else_bb); }
    }
    let ghost ve = var_map@;
    let else_end_bb = match &if_stmt.else_stmt {
        Some(else_stmt) => {
            process_stmt(else_stmt, globals, func_data, else_bb, var_map, func_map)?
        },
        None => {
            proof { lemma_step_refl(globals@, f7, else_bb); }
            else_bb
        },
    };
    let ghost f8 = *func_data;
    proof {
        if good {
            assert(else_end_bb == else_bb);
            lemma_in_layout_extends(f7, f8, else_bb);
        }
    }
    close_block(globals, func_data, else_end_bb, end_bb)?;
    let ghost f9 = *func_data;
    proof {
        if good {
            lemma_extends_trans(f0, f6, f7);
            lemma_extends_trans(f0, f7, f8);
            lemma_extends_trans(f0, f8, f9);
            lemma_extends_trans(f4, f6, f7);
            lemma_extends_trans(f4, f7, f8);
            lemma_extends_trans(f4, f8, f9);
            lemma_extends_trans(f7, f8, f9);
            assert forall|j: int| 0 <= j < f9.layout@.len() implies (#[trigger] f9.layout@[j]).bb != end_bb by {
                if j < f3.layout@.len() {
                    assert(f9.layout@[j].bb == f0.layout@[j].bb);
                } else if j < f4.layout@.len() {
                    assert(f9.layout@[j].bb == f4.layout@[j].bb);
                } else {
                    assert(f9.layout@[j].bb == f7.layout@[j].bb);
                }
            }
        }
    }
    func_data.push_bb(end_bb)?;
    proof {
        lemma_wt_values(globals@, f3, f4);
        lemma_wt_values(globals@, f6, f7);
        lemma_wt_values(globals@, f9, *func_data);
        lemma_extends_trans(f0, f6, f7);
        lemma_extends_trans(f0, f7, f8);
        lemma_extends_trans(f0, f8, f9);
        lemma_extends_trans(f0, f9, *func_data);
    }
    proof {
        let ff = *func_data;
        lemma_extends_trans(f3, f4, f5);
        lemma_extends_trans(f3, f5, f6);
        lemma_extends_trans(f3, f6, f7);
        lemma_extends_trans(f3, f7, f8);
        lemma_extends_trans(f3, f8, f9);
        lemma_extends_trans(f3, f9, ff);
        lemma_extends_trans(f4, f5, f6);
        lemma_extends_trans(f4, f6, f7);
        lemma_extends_trans(f4, f7, f8);
        lemma_extends_trans(f4, f8, f9);
        lemma_extends_trans(f4, f9, ff);
        lemma_extends_trans(f7, f8, f9);
        lemma_extends_trans(f7, f9, ff);
        lemma_extends_trans(f1, f2, f3);
        lemma_extends_trans(f1, f3, ff);
        let b = f0.bbs@.len() as int;
        assert(ff.bbs@[b as int] == f1.bbs@[b as int]);
        assert(ff.bbs@[b + 1] == f1.bbs@[b + 1]);
        assert(ff.bbs@[b + 2] == f1.bbs@[b + 2]);
        let bi = br->Local_0 as int;
        assert(ff.values@[bi] == f3.values@[bi]);
        let j1 = f4.layout@.len() - 1;
        let j2 = f7.layout@.len() - 1;
        assert(ff.layout@[j1].bb == f4.layout@[j1].bb);
        assert(ff.layout@[j2].bb == f7.layout@[j2].bb);
        reveal(if_shape);
        lemma_extends_trans(f0, f3, f4);
        lemma_extends_trans(f5, f6, ff);
        lemma_extends_trans(f8, f9, ff);
        assert(stmt_post(globals@, if_stmt.then_stmt, f4, f5, vt, then_bb, Ok::<BasicBlock, CompileError>(then_end_bb)));
        if let Some(e) = &if_stmt.else_stmt {
            assert(stmt_post(globals@, *e, f7, f8, ve, else_bb, Ok::<BasicBlock, CompileError>(else_end_bb)));
        }
        lemma_if_branches(globals@, **if_stmt, f0, f4, f5, f6, f7, f8, f9, ff, v0, vt, ve, then_end_bb, else_end_bb);
        assert(vc.scopes == v0.scopes);
        lemma_branch_on_cond(globals@, if_stmt.cond, f0, f1, f2, f3, ff, bb, cb, v0.scopes, cond, br->Local_0 as int,
            then_bb, else_bb);
    }
    Ok(end_bb)
}

/// The branch of an `if` or a `while` lowered from `f0` to `f`: the
/// condition `cond`, lowered in `scopes` from block `start`, gives `c`, and
/// `f` holds `br c, tb, eb`.
#[verifier::opaque]
pub open spec fn branch_on_cond(gl: Seq<ValueData>, cond: Exp, f0: FunctionData, f: FunctionData, start: BasicBlock,
    scopes: Seq<Map<Seq<char>, SymbolInfo>>, tb: BasicBlock, eb: BasicBlock) -> bool {
    exists|fa: FunctionData, fb: FunctionData, bm: BasicBlock, c: Value, i: int|
        #![trigger exp_post(gl, cond, fa, fb, start, bm, scopes, Ok::<Value, CompileError>(c)), f.values@[i]]
        exp_post(gl, cond, fa, fb, start, bm, scopes, Ok::<Value, CompileError>(c))
        && extends(f0, fa) && extends(fb, f) && 0 <= i < f.values@.len()
        && f.values@[i].kind == (ValueKind::Branch { cond: c, true_bb: tb, false_bb: eb })
}

proof fn lemma_branch_on_cond(gl: Seq<ValueData>, cond: Exp, f0: FunctionData, fa: FunctionData, fb: FunctionData,
    fc: FunctionData, f: FunctionData, start: BasicBlock, bm: BasicBlock, scopes: Seq<Map<Seq<char>, SymbolInfo>>, c: Value,
    i: int, tb: BasicBlock, eb: BasicBlock)
    requires
        exp_post(gl, cond, fa, fb, start, bm, scopes, Ok::<Value, CompileError>(c)),
        extends(f0, fa), extends(fb, fc), extends(fc, f),
        0 <= i < fc.values@.len(),
        fc.values@[i].kind == (ValueKind::Branch { cond: c, true_bb: tb, false_bb: eb }),
    ensures branch_on_cond(gl, cond, f0, f, start, scopes, tb, eb),
{
    lemma_extends_trans(fb, fc, f);
    assert(f.values@[i] == fc.values@[i]);
    reveal(branch_on_cond);
}

proof fn lemma_if_branches(gl: Seq<ValueData>, s: IF, f0: FunctionData, f4: FunctionData, f5: FunctionData,
    f6: FunctionData, f7: FunctionData, f8: FunctionData, f9: FunctionData, ff: FunctionData, v0: VariablesView,
    vt: VariablesView, ve: VariablesView, then_end: BasicBlock, else_end: BasicBlock)
    requires
        stmt_post(gl, s.then_stmt, f4, f5, vt, f0.bbs@.len() as usize, Ok::<BasicBlock, CompileError>(then_end)),
        extends(f0, f4), extends(f5, f6), extends(f6, ff),
        closed_with_jump(gl, f5, f6, then_end, (f0.bbs@.len() + 2) as usize),
        vt.scopes == v0.scopes, vt.loops == v0.loops,
        ve.scopes == v0.scopes, ve.loops == v0.loops,
        s.else_stmt matches Some(e) ==> stmt_post(gl, e, f7, f8, ve, (f0.bbs@.len() + 1) as usize, Ok::<BasicBlock, CompileError>(else_end)),
        s.else_stmt is None ==> else_end == (f0.bbs@.len() + 1) as usize && f8 == f7,
        extends(f0, f7), extends(f0, f8), extends(f8, f9), extends(f9, ff),
        closed_with_jump(gl, f8, f9, else_end, (f0.bbs@.len() + 2) as usize),
    ensures if_branches_lowered(gl, s, f0, ff, v0),
{
    reveal(if_branches_lowered);
}

/// The blocks and branch of an `if` lowered from `f0` to `f`, with `k` the id
/// counter before: fresh blocks `%then_k`, `%else_k` and `%end_k` (in this
/// order of creation and of placement, `%end_k` last), and a branch on the
/// condition to `%then_k` or `%else_k`.
#[verifier::opaque]
pub open spec fn if_shape(f0: FunctionData, f: FunctionData, k: nat) -> bool {
    let b = f0.bbs@.len();
    &&& bb_named(f, b as usize, "%then_"@ + dec_nat(k))
    &&& bb_named(f, (b + 1) as usize, "%else_"@ + dec_nat(k))
    &&& bb_named(f, (b + 2) as usize, "%end_"@ + dec_nat(k))
    &&& exists|i: int| 0 <= i < f.values@.len() && (#[trigger] f.values@[i]).kind is Branch
        && f.values@[i].kind->Branch_true_bb == b && f.values@[i].kind->Branch_false_bb == b + 1
    &&& exists|j1: int, j2: int| 0 <= j1 < j2 < f.layout@.len() - 1
        && (#[trigger] f.layout@[j1]).bb == b && (#[trigger] f.layout@[j2]).bb == b + 1
}

/// The blocks and jumps of a `while` lowered from `f0` to `f`, with `k` the
/// id counter before: fresh blocks `%while_ent_k`, `%while_body_k` and
/// `%while_end_k` (in this order of creation and of placement,
/// `%while_end_k` last), a jump to the entry as the first new value, and a
/// branch on the condition to the body or the end.
#[verifier::opaque]
pub open spec fn while_shape(f0: FunctionData, f: FunctionData, k: nat) -> bool {
    let b = f0.bbs@.len();
    &&& bb_named(f, b as usize, "%while_ent_"@ + dec_nat(k))
    &&& bb_named(f, (b + 1) as usize, "%while_body_"@ + dec_nat(k))
    &&& bb_named(f, (b + 2) as usize, "%while_end_"@ + dec_nat(k))
    &&& f0.values@.len() < f.values@.len() && f.values@[f0.values@.len() as int].kind == ValueKind::Jump(b as usize)
    &&& exists|i: int| 0 <= i < f.values@.len() && (#[trigger] f.values@[i]).kind is Branch
        && f.values@[i].kind->Branch_true_bb == b + 1 && f.values@[i].kind->Branch_false_bb == b + 2
    &&& exists|j1: int, j2: int| 0 <= j1 < j2 < f.layout@.len() - 1
        && (#[trigger] f.layout@[j1]).bb == b && (#[trigger] f.layout@[j2]).bb == b + 1
}

/// A statement lowered to `fb` ended in block `be`, and that block was then
/// closed, giving `fc`: unchanged if it already ended with a terminator, and
/// otherwise with a jump to `target` appended to it.
#[verifier::opaque]
pub open spec fn closed_with_jump(gl: Seq<ValueData>, fb: FunctionData, fc: FunctionData, be: BasicBlock, target: BasicBlock) -> bool {
    &&& first_node_terminated(fb, be) ==> fc == fb
    &&& !first_node_terminated(fb, be) ==> appended(gl, fb, fc, be, ValueKind::Jump(target))
}

/// The body of a `while` lowered from `f0` to `f`, whose fresh blocks start
/// at number `b`: translated as a statement in the body block `b + 1`, in
/// the scopes of `v0` and with the loop `(b, b + 2)` innermost, so that its
/// `continue` goes to the entry `b` and its `break` to the end `b + 2`; the
/// block where the body ends then jumps back to the entry `b`, unless it
/// ends with a terminator already.
#[verifier::opaque]
pub open spec fn loop_body_lowered(gl: Seq<ValueData>, body: Stmt, f0: FunctionData, f: FunctionData, v0: VariablesView) -> bool {
    let b = f0.bbs@.len();
    exists|fa: FunctionData, fb: FunctionData, fc: FunctionData, va: VariablesView, be: BasicBlock|
        #[trigger] stmt_post(gl, body, fa, fb, va, (b + 1) as usize, Ok::<BasicBlock, CompileError>(be))
        && extends(f0, fa) && extends(fb, fc) && extends(fc, f)
        && va.scopes == v0.scopes
        && va.loops == v0.loops.push((b as usize, (b + 2) as usize))
        && #[trigger] closed_with_jump(gl, fb, fc, be, b as usize)
}

/// The branches of an `if` lowered from `f0` to `f`, whose fresh blocks
/// start at number `b`: the `then` statement translated in block `b`, and the
/// `else` statement, where there is one, in block `b + 1`, each in the scopes
/// and loops of `v0`; the block where each branch ends (the empty `else`
/// block itself when there is no `else`) then jumps to the end block
/// `b + 2`, unless it ends with a terminator already.
#[verifier::opaque]
pub open spec fn if_branches_lowered(gl: Seq<ValueData>, s: IF, f0: FunctionData, f: FunctionData, v0: VariablesView) -> bool {
    let b = f0.bbs@.len();
    &&& exists|fa: FunctionData, fb: FunctionData, fc: FunctionData, va: VariablesView, be: BasicBlock|
        #[trigger] stmt_post(gl, s.then_stmt, fa, fb, va, b as usize, Ok::<BasicBlock, CompileError>(be))
        && extends(f0, fa) && extends(fb, fc) && extends(fc, f)
        && va.scopes == v0.scopes && va.loops == v0.loops
        && #[trigger] closed_with_jump(gl, fb, fc, be, (b + 2) as usize)
    &&& s.else_stmt matches Some(e) ==> exists|fa: FunctionData, fb: FunctionData, fc: FunctionData, va: VariablesView, be: BasicBlock|
        #[trigger] stmt_post(gl, e, fa, fb, va, (b + 1) as usize, Ok::<BasicBlock, CompileError>(be))
        && extends(f0, fa) && extends(fb, fc) && extends(fc, f)
        && va.scopes == v0.scopes && va.loops == v0.loops
        && #[trigger] closed_with_jump(gl, fb, fc, be, (b + 2) as usize)
    &&& s.else_stmt is None ==> exists|fb: FunctionData, fc: FunctionData|
        #[trigger] closed_with_jump(gl, fb, fc, (b + 1) as usize, (b + 2) as usize)
        && extends(f0, fb) && extends(fb, fc) && extends(fc, f)
}

/// Statements whose translation needs at most one instruction and no new
/// block: the empty statement and `return;`, and, inside a loop, `break`
/// and `continue`.
pub open spec fn leaf_stmt(s: Stmt, in_loop: bool) -> bool {
    ||| s == Stmt::Exp(None)
    ||| s == Stmt::Return(None)
    ||| (in_loop && (s is Break || s is Continue))
}

/// Room to translate an `if` or a `while` whose condition has size `size`
/// from block `bb` of `f`: the id counter, the block arena and the value
/// arena have room, the block is placed, and every placed block was made
/// already.
pub open spec fn branch_room(f: FunctionData, bb: BasicBlock, counter: nat, size: nat) -> bool {
    &&& counter < u64::MAX
    &&& f.bbs@.len() + 3 < usize::MAX
    &&& in_layout(f, bb)
    &&& forall|j: int| 0 <= j < f.layout@.len() ==> (#[trigger] f.layout@[j]).bb < f.bbs@.len()
    &&& f.values@.len() + 2 * size + 8 < usize::MAX
}

/// `while (cond) body`: a jump to a fresh entry block that tests the
/// condition and branches to a fresh body block (closed by a jump back to
/// the entry) or to a fresh end block where control continues; `break` and
/// `continue` in the body go to the end and the entry.
#[verifier::spinoff_prover]
#[verifier::rlimit(50)]
fn process_while(
    stmt: &Stmt,
    globals: &Vec<ValueData>,
    func_data: &mut FunctionData,
    bb: BasicBlock,
    var_map: &mut Variables,
    func_map: &FuncMap,
) -> (r: Result<BasicBlock, CompileError>)
    ensures
        r matches Ok(b) ==> step_ok(globals@, *old(func_data), *final(func_data), bb, b),
        r is Ok ==> same_symbols(old(var_map)@, final(var_map)@),
        r matches Ok(b) ==> continues_in_fresh_end(*final(func_data), old(func_data).bbs@.len() as int, b),
        r is Ok ==> while_shape(*old(func_data), *final(func_data), old(var_map)@.counter as nat),
        r is Ok ==> (stmt matches Stmt::WHILE(w) ==> loop_body_lowered(globals@, w.body_while, *old(func_data), *final(func_data), old(var_map)@)),
        r is Ok ==> (stmt matches Stmt::WHILE(w) ==> branch_on_cond(globals@, w.cond, *old(func_data), *final(func_data),
            old(func_data).bbs@.len() as usize, old(var_map)@.scopes, (old(func_data).bbs@.len() + 1) as usize,
            (old(func_data).bbs@.len() + 2) as usize)),
        stmt matches Stmt::WHILE(w) ==> (const_exp(w.cond, old(var_map)@.scopes) && leaf_stmt(w.body_while, true)
            && branch_room(*old(func_data), bb, old(var_map)@.counter as nat, exp_size(w.cond)) ==> r is Ok),
    decreases stmt, 0nat,
{
    let while_stmt = match stmt {
        Stmt::WHILE(b) => b,
        _ => return Err(CompileError::Unsupported),
    };
    let ghost f0 = *func_data;
    let ghost v0 = var_map@;
    let ghost good = const_exp(while_stmt.cond, v0.scopes) && leaf_stmt(while_stmt.body_while, true)
        && branch_room(f0, bb, v0.counter as nat, exp_size(while_stmt.cond));
    if !var_map.has_next_id() {
        return Err(CompileError::Overflow);
    }
    let id = var_map.get_id();
    let while_entry = func_data.new_bb(Some(str_with_u64("%while_ent_", id)))?;
    let while_body = func_data.new_bb(Some(str_with_u64("%while_body_", id)))?;
    let while_end = func_data.new_bb(Some(str_with_u64("%while_end_", id)))?;
    let ghost f1 = *func_data;
    proof {
        if good { lemma_in_layout_extends(f0, f1, bb); }
    }

    let jump_into_entry = func_data.emit(globals, bb, ValueKind::Jump(while_entry))?;
    let ghost f2 = *func_data;
    proof {
        lemma_step_values(globals@, f0, f1, bb);
        lemma_emitted_keeps(f1, f2, bb, jump_into_entry, f2.values@.last()); lemma_wt_emit(globals@, f1, f2, bb, jump_into_entry, f2.values@.last());
        lemma_extends_trans(f0, f1, f2);
        if good {
            assert forall|j: int| 0 <= j < f2.layout@.len() implies (#[trigger] f2.layout@[j]).bb != while_entry by {
                assert(f2.layout@[j].bb == f0.layout@[j].bb);
            }
        }
    }
    func_data.push_bb(while_entry)?;
    let ghost f3 = *func_data;
    proof {
        if good { assert(f3.layout@[f3.layout@.len() - 1].bb == while_entry); }
    }

    var_map.enter_while(&while_entry, &while_end);
    let ghost v1 = var_map@;

    let mut curr_entry_bb = while_entry;
    let cond = exp_to_ir(&while_stmt.cond, globals, func_data, &mut curr_entry_bb, var_map, func_map)?;
    let ghost f4 = *func_data;
    let ghost ce = curr_entry_bb;
    proof {
        if good {
            lemma_in_layout_extends(f3, f4, while_entry);
        }
    }
    let br = func_data.emit(globals, curr_entry_bb, ValueKind::Branch { cond, true_bb: while_body, false_bb: while_end })?;
    let ghost f5 = *func_data;
    proof {
        lemma_emitted_keeps(f4, f5, curr_entry_bb, br, f5.values@.last()); lemma_wt_emit(globals@, f4, f5, curr_entry_bb, br, f5.values@.last());
        lemma_extends_trans(f0, f2, f3);
        lemma_extends_trans(f0, f3, f4);
        lemma_extends_trans(f0, f4, f5);
    }

    proof {
        if good {
            lemma_extends_trans(f2, f3, f4);
            lemma_extends_trans(f2, f4, f5);
            assert forall|j: int| 0 <= j < f5.layout@.len() implies (#[trigger] f5.layout@[j]).bb != while_body by {
                if j < f2.layout@.len() {
                    assert(f5.layout@[j].bb == f2.layout@[j].bb);
                    assert(f2.layout@[j].bb == f0.layout@[j].bb);
                } else {
                    assert(f5.layout@[j].bb == f3.layout@[j].bb);
                }
            }
        }
    }
    func_data.push_bb(while_body)?;
    let ghost f6 = *func_data;
    proof {
        if good { assert(f6.layout@[f6.layout@.len() - 1].bb == while_body); }
    }
    let ghost vb = var_map@;
    let body_end_bb = process_stmt(&while_stmt.body_while, globals, func_data, while_body, var_map, func_map)?;
    let ghost f7 = *func_data;
    proof {
        if good {
            assert(body_end_bb == while_body);
            lemma_in_layout_extends(f6, f7, while_body);
        }
    }
    close_block(globals, func_data, body_end_bb, while_entry)?;
    let ghost f8 = *func_data;
    proof {
        if good {
            lemma_extends_trans(f5, f6, f7);
            lemma_extends_trans(f5, f7, f8);
            lemma_extends_trans(f3, f4, f5);
            lemma_extends_trans(f3, f5, f8);
            assert forall|j: int| 0 <= j < f8.layout@.len() implies (#[trigger] f8.layout@[j]).bb != while_end by {
                if j < f2.layout@.len() {
                    assert(f8.layout@[j].bb == f3.layout@[j].bb);
                    assert(f3.layout@[j].bb == f2.layout@[j].bb);
                    assert(f2.layout@[j].bb == f0.layout@[j].bb);
                } else if j < f5.layout@.len() {
                    assert(f8.layout@[j].bb == f3.layout@[j].bb);
                } else {
                    assert(f8.layout@[j].bb == f6.layout@[j].bb);
                }
            }
        }
    }

    var_map.exit_while();

    func_data.push_bb(while_end)?;
    proof {
        lemma_wt_values(globals@, f2, f3);
        lemma_wt_values(globals@, f5, f6);
        lemma_wt_values(globals@, f8, *func_data);
        lemma_extends_trans(f0, f5, f6);
        lemma_extends_trans(f0, f6, f7);
        lemma_extends_trans(f0, f7, f8);
        lemma_extends_trans(f0, f8, *func_data);
        assert(var_map@.loops =~= v0.loops);
    }
    proof {
        let ff = *func_data;
        lemma_extends_trans(f2, f3, f4);
        lemma_extends_trans(f2, f4, f5);
        lemma_extends_trans(f2, f5, f6);
        lemma_extends_trans(f2, f6, f7);
        lemma_extends_trans(f2, f7, f8);
        lemma_extends_trans(f2, f8, ff);
        lemma_extends_trans(f5, f6, f7);
        lemma_extends_trans(f5, f7, f8);
        lemma_extends_trans(f3, f4, f5);
        lemma_extends_trans(f3, f5, f8);
        lemma_extends_trans(f3, f8, ff);
        lemma_extends_trans(f5, f6, f7);
        lemma_extends_trans(f5, f7, f8);
        lemma_extends_trans(f5, f8, ff);
        lemma_extends_trans(f6, f7, f8);
        lemma_extends_trans(f6, f8, ff);
        lemma_extends_trans(f1, f2, ff);
        let b = f0.bbs@.len() as int;
        assert(ff.bbs@[b as int] == f1.bbs@[b as int]);
        assert(ff.bbs@[b + 1] == f1.bbs@[b + 1]);
        assert(ff.bbs@[b + 2] == f1.bbs@[b + 2]);
        let ji = jump_into_entry->Local_0 as int;
        assert(ff.values@[ji] == f2.values@[ji]);
        let bi = br->Local_0 as int;
        assert(ff.values@[bi] == f5.values@[bi]);
        let j1 = f3.layout@.len() - 1;
        let j2 = f6.layout@.len() - 1;
        assert(ff.layout@[j1].bb == f3.layout@[j1].bb);
        assert(ff.layout@[j2].bb == f6.layout@[j2].bb);
        reveal(while_shape);
        lemma_extends_trans(f7, f8, ff);
        assert(vb.loops == v0.loops.push((while_entry, while_end)));
        assert(stmt_post(globals@, while_stmt.body_while, f6, f7, vb, while_body, Ok::<BasicBlock, CompileError>(body_end_bb)));
        let b = f0.bbs@.len();
        assert(extends(f0, f6));
        assert(extends(f7, ff));
        assert(while_entry == b as usize && while_body == (b + 1) as usize && while_end == (b + 2) as usize);
        assert(vb.scopes == v0.scopes);
        assert(vb.loops == v0.loops.push((b as usize, (b + 2) as usize)));
        assert(closed_with_jump(globals@, f7, f8, body_end_bb, while_entry));
        assert(extends(f8, ff));
        reveal(loop_body_lowered);
        assert(loop_body_lowered(globals@, while_stmt.body_while, f0, ff, v0));
        assert(v1.scopes == v0.scopes);
        lemma_branch_on_cond(globals@, while_stmt.cond, f0, f3, f4, f5, ff, while_entry, ce, v0.scopes, cond,
            br->Local_0 as int, while_body, while_end);
    }
    Ok(while_end)
}

/// Translates the items of a block in order, stopping after an item that
/// ends its block with a terminator; returns the block where control
/// continues.
pub fn process_block(
    block: &Block,
    globals: &Vec<ValueData>,
    func_data: &mut FunctionData,
    bb: BasicBlock,
    var_map: &mut Variables,
    func_map: &FuncMap,
) -> (r: Result<BasicBlock, CompileError>)
    ensures
        r matches Ok(b) ==> step_ok(globals@, *old(func_data), *final(func_data), bb, b),
        r is Ok ==> frame_symbols(old(var_map)@, final(var_map)@),
        block.stmt@.len() == 0 ==> r == Ok::<BasicBlock, CompileError>(bb) && *final(func_data) == *old(func_data)
            && final(var_map)@ == old(var_map)@,
    decreases block, 1nat,
{
    let ghost f0 = *func_data;
    let ghost v0 = var_map@;
    let mut cur = bb;
    proof { lemma_step_refl(globals@, f0, bb); }
    let n = block.stmt.len();
    let mut i: usize = 0;
    while i < n
        invariant
            n == block.stmt@.len(),
            i <= n,
            step_ok(globals@, f0, *func_data, bb, cur),
            frame_symbols(v0, var_map@),
            f0 == *old(func_data),
            v0 == old(var_map)@,
            n == 0 ==> cur == bb && *func_data == f0 && var_map@ == v0,
        decreases n - i,
    {
        let ghost fa = *func_data;
        let ghost ca = cur;
        let ghost va = var_map@;
        assert(decreases_to!(block => block.stmt@[i as int])) by {
            assert(decreases_to!(block => block.stmt));
            assert(decreases_to!(block.stmt => block.stmt@));
        }
        cur = process_block_item(&block.stmt[i], globals, func_data, cur, var_map, func_map)?;
        proof {
            lemma_step_trans(globals@, f0, fa, *func_data, bb, ca, cur);
        }
        if is_bb_terminated(func_data, &cur) {
            break;
        }
        i = i + 1;
    }
    Ok(cur)
}

/// Translates a declaration or a statement of a block; a declaration binds
/// its names in the innermost scope.
pub fn process_block_item(
    item: &BlockItem,
    globals: &Vec<ValueData>,
    func_data: &mut FunctionData,
    bb: BasicBlock,
    var_map: &mut Variables,
    func_map: &FuncMap,
) -> (r: Result<BasicBlock, CompileError>)
    ensures
        r matches Ok(b) ==> step_ok(globals@, *old(func_data), *final(func_data), bb, b),
        r is Ok ==> frame_symbols(old(var_map)@, final(var_map)@),
        item matches BlockItem::Decl(d) ==> (r is Ok && old(var_map)@.scopes.len() > 0 ==>
            declared_in_scope(*d, old(var_map)@.scopes.last(), final(var_map)@.scopes.last())),
        item matches BlockItem::Stmt(st) ==> stmt_post(globals@, *st, *old(func_data), *final(func_data), old(var_map)@, bb, r),
        item matches BlockItem::Decl(d) && decl_idents(*d).len() == 0 ==>
            r == Ok::<BasicBlock, CompileError>(bb) && *final(func_data) == *old(func_data),
        item is Decl && single_scalar_const(item->Decl_0) is Some ==> {
            let x = single_scalar_const(item->Decl_0)->Some_0.0;
            let e = single_scalar_const(item->Decl_0)->Some_0.1;
            &&& (r is Ok <==> !(old(var_map)@.scopes.len() > 0 && old(var_map)@.scopes.last().contains_key(x))
                && spec_eval(e, old(var_map)@.scopes) is Some)
            &&& (r is Ok && old(var_map)@.scopes.len() > 0 ==>
                final(var_map)@.scopes.last()[x] == SymbolInfo::Const(spec_eval(e, old(var_map)@.scopes)->Some_0))
            &&& (r is Ok ==> r == Ok::<BasicBlock, CompileError>(bb) && *final(func_data) == *old(func_data))
        },
        item is Decl && all_scalar_consts(item->Decl_0) && r is Ok && old(var_map)@.scopes.len() > 0 ==> {
            let defs = item->Decl_0->Const_0.defs@;
            &&& final(var_map)@.scopes == const_scopes(old(var_map)@.scopes, defs, defs.len())
            &&& forall|k: int| 0 <= k < defs.len() ==> final(var_map)@.scopes.last()[(#[trigger] defs[k]).ident@]
                == SymbolInfo::Const(const_def_value(const_scopes(old(var_map)@.scopes, defs, k as nat), defs[k]))
        },
        item is Decl && decl_idents(item->Decl_0).len() > 0 && old(var_map)@.scopes.len() > 0
            && old(var_map)@.scopes.last().contains_key(decl_idents(item->Decl_0)[0]) ==>
            r == Err::<BasicBlock, CompileError>(CompileError::DuplicateSymbol),
        item is Decl && single_scalar_var(item->Decl_0) is Some && r is Ok ==> local_var_added(globals@, *old(func_data),
            *final(func_data), final(var_map)@.scopes.last(), old(var_map)@.scopes.len() > 0,
            single_scalar_var(item->Decl_0)->Some_0.0, single_scalar_var(item->Decl_0)->Some_0.1, bb,
            old(var_map)@.scopes, old(var_map)@.counter as nat),
    decreases item, 1nat,
{
    let ghost f0 = *func_data;
    let ghost v0 = var_map@;
    match item {
        BlockItem::Decl(Decl::Const(decl)) => {
            let base_ty = type_to_ir(&decl.typ);
            let mut current_bb = bb;
            proof { lemma_step_refl(globals@, f0, bb); }
            let n = decl.defs.len();
            let ghost d = Decl::Const(*decl);
            assert(decl_idents(d).len() == n);
            let mut j: usize = 0;
            while j < n
                invariant
                    n == decl.defs@.len(),
                    j <= n,
                    step_ok(globals@, f0, *func_data, bb, current_bb),
                    frame_symbols(v0, var_map@),
                    f0 == *old(func_data),
                    v0 == old(var_map)@,
                    d == Decl::Const(*decl),
                    *item == BlockItem::Decl(Decl::Const(*decl)),
                    j == 0 ==> var_map@ == v0 && *func_data == f0 && current_bb == bb,
                    all_scalar_consts(d) && v0.scopes.len() > 0 ==> {
                        &&& var_map@.scopes == const_scopes(v0.scopes, decl.defs@, j as nat)
                        &&& forall|k: int| 0 <= k < j ==> var_map@.scopes.last()[(#[trigger] decl.defs@[k]).ident@]
                            == SymbolInfo::Const(const_def_value(const_scopes(v0.scopes, decl.defs@, k as nat), decl.defs@[k]))
                    },
                    single_scalar_const(d) is Some && j == 1 ==> {
                        let x = single_scalar_const(d)->Some_0.0;
                        let e = single_scalar_const(d)->Some_0.1;
                        &&& !(v0.scopes.len() > 0 && v0.scopes.last().contains_key(x))
                        &&& spec_eval(e, v0.scopes) is Some
                        &&& (v0.scopes.len() > 0 ==> var_map@.scopes.last()[x] == SymbolInfo::Const(spec_eval(e, v0.scopes)->Some_0))
                        &&& *func_data == f0 && current_bb == bb
                    },
                    decl_idents(d).len() == n,
                    v0.scopes.len() > 0 ==> declared_prefix(d, v0.scopes.last(), var_map@.scopes.last(), j as int),
                    n == 0 ==> *func_data == f0 && current_bb == bb,
                decreases n - j,
            {
                let def = &decl.defs[j];
                let ghost fa = *func_data;
                let ghost ca = current_bb;
                if var_map.contains_in_current_scope(def.ident.as_str()) {
                    return Err(CompileError::DuplicateSymbol);
                }
                let ghost vj = var_map@;
                if def.array_lens.len() == 0 {
                    let val = match &def.init_val {
                        ConstInitVal::Exp(exp) => match crate::ast::try_eval_exp(&exp.exp, var_map) {
                            Some(v) => v,
                            None => return Err(CompileError::InvalidConstExp),
                        },
                        ConstInitVal::List(_) => return Err(CompileError::ScalarNeedsExp),
                    };
                    var_map.insert(def.ident.clone(), SymbolInfo::Const(val));
                    proof {
                        if all_scalar_consts(d) && v0.scopes.len() > 0 {
                            let defs = decl.defs@;
                            assert(defs[j as int] == *def);
                            assert(var_map@.scopes =~= const_scopes(v0.scopes, defs, (j + 1) as nat));
                            assert forall|k: int| 0 <= k < j + 1 implies var_map@.scopes.last()[(#[trigger] defs[k]).ident@]
                                == SymbolInfo::Const(const_def_value(const_scopes(v0.scopes, defs, k as nat), defs[k])) by {
                                if k < j {
                                    assert(vj.scopes.last().contains_key(decl_idents(d)[k]));
                                    assert(decl_idents(d)[k] == defs[k].ident@);
                                }
                            }
                        }
                    }
                    proof {
                        assert(var_map@.scopes.drop_last() =~= v0.scopes.drop_last());
                        if v0.scopes.len() > 0 {
                            assert(decl_idents(d)[j as int] == def.ident@);
                            lemma_declare_step(d, v0, vj, var_map@, j as int, def.ident@);
                        }
                    }
                } else {
                    let dims = eval_array_lens(&def.array_lens, var_map)?;
                    let alloc_ty = build_array_type(base_ty.clone(), &dims, 0);
                    if !var_map.has_next_id() {
                        return Err(CompileError::Overflow);
                    }
                    let unique_id = var_map.get_id();
                    let alloc_ptr = func_data.emit_alloc(current_bb, alloc_ty, Some(local_name(&def.ident, unique_id)))?;
                    let ghost fb = *func_data;
                    proof {
                        lemma_step_emit(globals@, fa, fb, current_bb, alloc_ptr, fb.values@.last());
                    }
                    let flat = flatten_const_init(&def.init_val, &dims, var_map)?;
                    proof { lemma_step_refl(globals@, fb, current_bb); }
                    let m = flat.len();
                    proof {
                        if decl.defs@.len() == 1 {
                            assert(decl.defs@[0] == *def);
                        }
                        assert(single_scalar_const(Decl::Const(*decl)) is None);
                        if v0.scopes.len() > 0 && j > 0 {
                            assert(!v0.scopes.last().contains_key(decl_idents(d)[0]));
                        }
                    }
                    let mut i: usize = 0;
                    while i < m
                        invariant
                            m == flat@.len(),
                            m == seq_prod(dims@),
                            i <= m,
                            dims@.len() > 0,
                            forall|k: int| 0 <= k < dims@.len() ==> #[trigger] dims@[k] > 0 && dims@[k] <= i32::MAX,
                            step_ok(globals@, fb, *func_data, current_bb, current_bb),
                            current_bb == ca,
                            *item == BlockItem::Decl(Decl::Const(*decl)),
                            decl_idents(Decl::Const(*decl)).len() > 0,
                            v0 == old(var_map)@,
                            single_scalar_const(Decl::Const(*decl)) is None,
                            !(v0.scopes.len() > 0 && v0.scopes.last().contains_key(decl_idents(Decl::Const(*decl))[0])),
                            decl_idents(Decl::Const(*decl)).len() > 0,
                        decreases m - i,
                    {
                        let ghost fc = *func_data;
                        let elem_ptr = emit_ptr_at_linear_index(func_data, globals, &mut current_bb, alloc_ptr, &dims, i)?;
                        let ghost fd = *func_data;
                        let val = func_data.integer(flat[i])?;
                        let ghost fe = *func_data;
                        let st = func_data.emit(globals, current_bb, ValueKind::Store { value: val, dest: elem_ptr })?;
                        proof {
                            lemma_step_values(globals@, fd, fe, current_bb);
                            lemma_step_emit(globals@, fe, *func_data, current_bb, st, func_data.values@.last());
                            lemma_step_trans(globals@, fc, fd, fe, current_bb, current_bb, current_bb);
                            lemma_step_trans(globals@, fc, fe, *func_data, current_bb, current_bb, current_bb);
                            lemma_step_trans(globals@, fb, fc, *func_data, current_bb, current_bb, current_bb);
                        }
                        i = i + 1;
                    }
                    proof { lemma_step_trans(globals@, fa, fb, *func_data, ca, current_bb, current_bb); }
                    let ghost vk = var_map@;
                    var_map.insert(def.ident.clone(), SymbolInfo::Var(alloc_ptr));
                    proof {
                        assert(var_map@.scopes.drop_last() =~= v0.scopes.drop_last());
                        if v0.scopes.len() > 0 {
                            assert(decl_idents(d)[j as int] == def.ident@);
                            assert(vk.scopes.last() == vj.scopes.last());
                            lemma_declare_step(d, v0, vk, var_map@, j as int, def.ident@);
                        }
                    }
                }
                proof {
                    if def.array_lens@.len() == 0 { lemma_step_refl(globals@, fa, ca); }
                    lemma_step_trans(globals@, f0, fa, *func_data, bb, ca, current_bb);
                }
                j = j + 1;
            }
            Ok(current_bb)
        },
        BlockItem::Decl(Decl::Var(decl)) => {
            let base_ty = type_to_ir(&decl.typ);
            let mut current_bb = bb;
            proof { lemma_step_refl(globals@, f0, bb); }
            let n = decl.defs.len();
            let ghost d = Decl::Var(*decl);
            assert(decl_idents(d).len() == n);
            let mut j: usize = 0;
            while j < n
                invariant
                    n == decl.defs@.len(),
                    j <= n,
                    step_ok(globals@, f0, *func_data, bb, current_bb),
                    frame_symbols(v0, var_map@),
                    f0 == *old(func_data),
                    v0 == old(var_map)@,
                    d == Decl::Var(*decl),
                    *item == BlockItem::Decl(Decl::Var(*decl)),
                    j == 0 ==> var_map@ == v0 && *func_data == f0 && current_bb == bb,
                    single_scalar_var(d) is Some ==> base_ty == Ty::I32,
                    single_scalar_var(d) is Some && j == 1 ==> local_var_added(globals@, f0, *func_data, var_map@.scopes.last(),
                        v0.scopes.len() > 0, single_scalar_var(d)->Some_0.0, single_scalar_var(d)->Some_0.1, bb,
                        v0.scopes, v0.counter as nat),
                    decl_idents(d).len() == n,
                    v0.scopes.len() > 0 ==> declared_prefix(d, v0.scopes.last(), var_map@.scopes.last(), j as int),
                    n == 0 ==> *func_data == f0 && current_bb == bb,
                decreases n - j,
            {
                let def = &decl.defs[j];
                let ghost fa = *func_data;
                let ghost ca = current_bb;
                if var_map.contains_in_current_scope(def.ident.as_str()) {
                    return Err(CompileError::DuplicateSymbol);
                }
                let ghost vj = var_map@;
                let dims = eval_array_lens(&def.array_lens, var_map)?;
                let alloc_ty = if dims.len() > 0 { build_array_type(base_ty.clone(), &dims, 0) } else { base_ty.clone() };
                if !var_map.has_next_id() {
                    return Err(CompileError::Overflow);
                }
                let unique_id = var_map.get_id();
                let alloc_ptr = func_data.emit_alloc(current_bb, alloc_ty, Some(local_name(&def.ident, unique_id)))?;
                let ghost fb = *func_data;
                proof { lemma_step_emit(globals@, fa, fb, current_bb, alloc_ptr, fb.values@.last()); }
                match &def.init_val {
                    Some(init_val) => {
                        if dims.len() > 0 {
                            emit_local_array_init(func_data, globals, &mut current_bb, var_map, func_map, alloc_ptr, &dims, init_val)?;
                        } else {
                            match init_val {
                                InitVal::Exp(exp) => {
                                    let ghost cb = current_bb;
                                    let ghost vs = var_map@;
                                    let val = exp_to_ir(exp, globals, func_data, &mut current_bb, var_map, func_map)?;
                                    let ghost fc = *func_data;
                                    let store_inst = func_data.emit(globals, current_bb, ValueKind::Store { value: val, dest: alloc_ptr })?;
                                    proof {
                                        lemma_step_emit(globals@, fc, *func_data, current_bb, store_inst, func_data.values@.last());
                                        lemma_step_trans(globals@, fb, fc, *func_data, ca, current_bb, current_bb);
                                        if single_scalar_var(d) is Some {
                                            assert(lowered(globals@, *exp, fb, fc, cb, current_bb, vs.scopes, Ok::<Value, CompileError>(val)));
                                            assert(extends(fc, *func_data));
                                        }
                                    }
                                },
                                InitVal::List(_) => return Err(CompileError::ScalarNeedsExp),
                            }
                        }
                    },
                    None => {
                        proof { lemma_step_refl(globals@, fb, ca); }
                    },
                }
                proof { lemma_step_trans(globals@, fa, fb, *func_data, ca, ca, current_bb); }
                let ghost vk = var_map@;
                var_map.insert(def.ident.clone(), SymbolInfo::Var(alloc_ptr));
                proof {
                    assert(var_map@.scopes.drop_last() =~= v0.scopes.drop_last());
                    if v0.scopes.len() > 0 {
                        assert(decl_idents(d)[j as int] == def.ident@);
                        assert(vk.scopes.last() == vj.scopes.last());
                        lemma_declare_step(d, v0, vk, var_map@, j as int, def.ident@);
                    }
                }
                proof { lemma_step_trans(globals@, f0, fa, *func_data, bb, ca, current_bb); }
                j = j + 1;
            }
            Ok(current_bb)
        },
        BlockItem::Stmt(stmt) => {
            let r = process_stmt(stmt, globals, func_data, bb, var_map, func_map)?;
            Ok(r)
        },
    }
}

/// The first function named `name` in a function map.
pub open spec fn func_lookup(m: Seq<(String, Function)>, name: Seq<char>) -> Option<Function>
    decreases m.len(),
{
    if m.len() == 0 {
        None
    } else if m[0].0@ == name {
        Some(m[0].1)
    } else {
        func_lookup(m.drop_first(), name)
    }
}

proof fn lemma_func_lookup_push(m: Seq<(String, Function)>, x: (String, Function), name: Seq<char>)
    ensures
        func_lookup(m, name) is Some ==> func_lookup(m.push(x), name) == func_lookup(m, name),
        x.0@ != name ==> func_lookup(m.push(x), name) == func_lookup(m, name),
        func_lookup(m.push(x), x.0@) is Some,
    decreases m.len(),
{
    if m.len() > 0 {
        assert(m.push(x)[0] == m[0]);
        assert(m.push(x).drop_first() =~= m.drop_first().push(x));
        lemma_func_lookup_push(m.drop_first(), x, name);
        if x.0@ != name && m[0].0@ != name {
            assert(func_lookup(m.push(x), name) == func_lookup(m.drop_first().push(x), name));
        }
    } else {
        assert(m.push(x)[0] == x);
        assert(m.push(x).drop_first() =~= Seq::<(String, Function)>::empty());
        assert(func_lookup(Seq::<(String, Function)>::empty(), name) is None);
        if x.0@ != name {
            assert(func_lookup(m.push(x), name) == func_lookup(m.push(x).drop_first(), name));
        }
    }
}

proof fn lemma_func_lookup_at(m: Seq<(String, Function)>, idx: int, name: Seq<char>)
    requires
        0 <= idx < m.len(),
        m[idx].0@ == name,
        forall|j: int| 0 <= j < idx ==> (#[trigger] m[j]).0@ != name,
    ensures func_lookup(m, name) == Some(m[idx].1),
    decreases idx,
{
    if idx > 0 {
        assert(m[0].0@ != name);
        assert forall|j: int| 0 <= j < idx - 1 implies (#[trigger] m.drop_first()[j]).0@ != name by {
            assert(m.drop_first()[j] == m[j + 1]);
        }
        lemma_func_lookup_at(m.drop_first(), idx - 1, name);
    }
}

proof fn lemma_func_lookup_none(m: Seq<(String, Function)>, name: Seq<char>)
    requires forall|j: int| 0 <= j < m.len() ==> (#[trigger] m[j]).0@ != name,
    ensures func_lookup(m, name) is None,
    decreases m.len(),
{
    if m.len() > 0 {
        assert(m[0].0@ != name);
        assert forall|j: int| 0 <= j < m.len() - 1 implies (#[trigger] m.drop_first()[j]).0@ != name by {
            assert(m.drop_first()[j] == m[j + 1]);
        }
        lemma_func_lookup_none(m.drop_first(), name);
    }
}

/// The exec counterpart of `func_lookup`.
pub fn get_func(m: &FuncMap, name: &String) -> (r: Option<Function>)
    ensures r == func_lookup(m@, name@),
{
    let n = m.len();
    let mut i: usize = 0;
    assert(m@.subrange(0, n as int) =~= m@);
    while i < n
        invariant
            n == m@.len(),
            i <= n,
            func_lookup(m@, name@) == func_lookup(m@.subrange(i as int, n as int), name@),
        decreases n - i,
    {
        let ghost rest = m@.subrange(i as int, n as int);
        assert(rest.drop_first() =~= m@.subrange(i + 1, n as int));
        if m[i].0 == *name {
            return Some(m[i].1);
        }
        i = i + 1;
    }
    None
}

/// Every block of the function's layout ends with a terminator, and no block
/// is placed twice.
pub open spec fn func_well_terminated(f: FunctionData) -> bool {
    all_terminated(f) && layout_unique(f)
}

/// The `k`-th parameter `p` is copied at the start of node `l`: instruction
/// `2k` of the node allocates a slot and instruction `2k + 1` stores `p` in it.
pub open spec fn param_copied(f: FunctionData, l: int, k: int, p: Value) -> bool {
    let insts = f.layout@[l].insts@;
    &&& insts[2 * k] < f.values@.len() && insts[2 * k + 1] < f.values@.len()
    &&& f.values@[insts[2 * k] as int].kind == ValueKind::Alloc
    &&& f.values@[insts[2 * k + 1] as int].kind == (ValueKind::Store { value: p, dest: Value::Local(insts[2 * k]) })
}

/// The entry of a function body lowered from `f0` to `f`: a fresh block
/// named `%entry`, placed after the blocks there were, whose first `2n`
/// instructions copy the `n` parameters into slots of their own, in order.
pub open spec fn entry_shape(f0: FunctionData, f: FunctionData, n: int) -> bool {
    let e = f0.bbs@.len();
    let l = f0.layout@.len() as int;
    &&& bb_named(f, e as usize, "%entry"@)
    &&& l < f.layout@.len() && f.layout@[l].bb == e
    &&& f.layout@[l].insts@.len() >= 2 * n
    &&& n <= f0.params@.len()
    &&& forall|k: int| 0 <= k < n ==> #[trigger] param_copied(f, l, k, f0.params@[k])
}

proof fn lemma_entry_shape_extends(f0: FunctionData, g: FunctionData, h: FunctionData, n: int)
    requires entry_shape(f0, g, n), extends(g, h),
    ensures entry_shape(f0, h, n),
{
    let l = f0.layout@.len() as int;
    let e = f0.bbs@.len() as int;
    assert(h.bbs@[e] == g.bbs@[e]);
    assert(h.layout@[l].insts@.subrange(0, g.layout@[l].insts@.len() as int) == g.layout@[l].insts@);
    assert forall|k: int| 0 <= k < n implies #[trigger] param_copied(h, l, k, f0.params@[k]) by {
        assert(param_copied(g, l, k, f0.params@[k]));
        assert(h.layout@[l].insts@[2 * k] == g.layout@[l].insts@[2 * k]);
        assert(h.layout@[l].insts@[2 * k + 1] == g.layout@[l].insts@[2 * k + 1]);
    }
}

/// Room to lower a body into `f`: a block can be made, every placed block
/// was made already, and a value can be added.
pub open spec fn fn_room(f: FunctionData) -> bool {
    &&& f.bbs@.len() + 1 < usize::MAX
    &&& forall|j: int| 0 <= j < f.layout@.len() ==> (#[trigger] f.layout@[j]).bb < f.bbs@.len()
    &&& f.values@.len() + 1 < usize::MAX
}

/// Translates a function definition into the body of its IR function.
pub fn process_func(
    var_map: &mut Variables,
    prog: &mut Program,
    func_def: &FuncDef,
    func_map: &FuncMap,
) -> (r: Result<(), CompileError>)
    ensures
        final(prog).globals == old(prog).globals,
        final(prog).inst_layout == old(prog).inst_layout,
        r is Ok ==> final(prog).funcs@.len() == old(prog).funcs@.len(),
        r is Ok ==> func_lookup(func_map@, func_def.ident@) is Some,
        r is Ok ==> forall|j: int| 0 <= j < old(prog).funcs@.len() && j != func_lookup(func_map@, func_def.ident@)->Some_0 ==>
            #[trigger] final(prog).funcs@[j] == old(prog).funcs@[j],
        r is Ok ==> {
            let h = func_lookup(func_map@, func_def.ident@)->Some_0 as int;
            &&& 0 <= h < old(prog).funcs@.len()
            &&& extends(old(prog).funcs@[h], final(prog).funcs@[h])
            &&& (func_well_terminated(old(prog).funcs@[h]) ==> func_well_terminated(final(prog).funcs@[h]))
            &&& (well_typed(old(prog).globals@, old(prog).funcs@[h]) ==> well_typed(final(prog).globals@, final(prog).funcs@[h]))
        },
        r is Ok ==> same_symbols(old(var_map)@, final(var_map)@),
        func_lookup(func_map@, func_def.ident@) is None ==> r == Err::<(), CompileError>(CompileError::UndefinedFunction),
        r is Ok ==> entry_shape(old(prog).funcs@[func_lookup(func_map@, func_def.ident@)->Some_0 as int],
            final(prog).funcs@[func_lookup(func_map@, func_def.ident@)->Some_0 as int], func_def.func_params@.len() as int),
        func_lookup(func_map@, func_def.ident@) matches Some(h) && h < old(prog).funcs@.len()
            && func_def.func_params@.len() == 0 && func_def.block.stmt@.len() == 0 && fn_room(old(prog).funcs@[h as int]) ==>
            if func_def.func_type is Void { r is Ok } else { r == Err::<(), CompileError>(CompileError::MissingReturn) },
{
    let ghost v0 = var_map@;
    var_map.enter_scope();
    let func = match get_func(func_map, &func_def.ident) {
        Some(f) => f,
        None => return Err(CompileError::UndefinedFunction),
    };
    let ret_ty = type_to_ir(&func_def.func_type);
    let is_void_return = ret_ty.is_unit();
    if func >= prog.funcs.len() {
        return Err(CompileError::InvalidHandle);
    }
    let ghost funcs0 = prog.funcs@;
    let mut owned = prog.funcs.remove(func);
    let globals = &prog.globals;
    let func_data = &mut owned;
    let ghost f0 = *func_data;

    let ghost room = func_def.func_params@.len() == 0 && func_def.block.stmt@.len() == 0 && fn_room(f0);
    let entry = func_data.new_bb(Some(String::from_str("%entry")))?;
    let ghost f1 = *func_data;
    proof {
        if room {
            assert forall|j: int| 0 <= j < f1.layout@.len() implies (#[trigger] f1.layout@[j]).bb != entry by {
                assert(f1.layout@[j] == f0.layout@[j]);
            }
        }
    }
    func_data.push_bb(entry)?;
    let ghost f2 = *func_data;
    let ghost l = f0.layout@.len() as int;
    proof {
        assert(f2.layout@[l].bb == entry);
        assert(f2.bbs@[entry as int] == f1.bbs@[entry as int]);
    }
    proof {
        lemma_wt_values(globals@, f0, f1);
        lemma_wt_values(globals@, f1, f2);
        lemma_extends_trans(f0, f1, f2);
        if func_well_terminated(f0) {
            assert(all_terminated(f1));
        }
    }
    let ghost va = var_map@;
    let n = func_def.func_params.len();
    let mut i: usize = 0;
    while i < n
        invariant
            n == func_def.func_params@.len(),
            i <= n,
            extends(f0, *func_data),
            func_well_terminated(f0) ==> others_terminated(*func_data, entry) && layout_unique(*func_data),
            well_typed(globals@, f0) ==> well_typed(globals@, *func_data),
            globals == &prog.globals,
            frame_symbols(va, var_map@),
            va.scopes.len() == v0.scopes.len() + 1,
            va.scopes.drop_last() == v0.scopes,
            va.loops == v0.loops,
            v0.counter <= va.counter,
            prog.globals == old(prog).globals,
            prog.inst_layout == old(prog).inst_layout,
            prog.funcs@ == funcs0.remove(func as int),
            funcs0 == old(prog).funcs@,
            func < funcs0.len(),
            f0 == funcs0[func as int],
            func_lookup(func_map@, func_def.ident@) == Some(func),
            l == f0.layout@.len(),
            entry == f0.bbs@.len(),
            bb_named(*func_data, entry, "%entry"@),
            func_data.layout@.len() == l + 1,
            func_data.layout@[l].bb == entry,
            forall|j: int| 0 <= j < l ==> (#[trigger] func_data.layout@[j]).bb != entry,
            func_data.layout@[l].insts@.len() == 2 * i,
            func_data.params == f0.params,
            i <= f0.params@.len(),
            i == 0 ==> *func_data == f2,
            f2.values == f0.values,
            forall|k: int| 0 <= k < i ==> #[trigger] param_copied(*func_data, l, k, f0.params@[k]),
        decreases n - i,
    {
        let p = &func_def.func_params[i];
        let ghost fa = *func_data;
        if var_map.contains_in_current_scope(p.id.as_str()) {
            return Err(CompileError::DuplicateSymbol);
        }
        let ty = func_param_type_to_ir(p, var_map)?;
        let ptr = func_data.emit_alloc(entry, ty, None)?;
        let ghost fb = *func_data;
        if i >= func_data.params.len() {
            return Err(CompileError::InvalidHandle);
        }
        let incoming = func_data.params[i];
        let st = func_data.emit(globals, entry, ValueKind::Store { value: incoming, dest: ptr })?;
        proof {
            lemma_step_emit(globals@, fa, fb, entry, ptr, fb.values@.last());
            lemma_step_emit(globals@, fb, *func_data, entry, st, func_data.values@.last());
            lemma_step_trans(globals@, fa, fb, *func_data, entry, entry, entry);
            lemma_extends_trans(f0, fa, *func_data);
            let ff = *func_data;
            assert(fb.layout@[l].insts@ == fa.layout@[l].insts@.push(ptr->Local_0));
            assert(ff.layout@[l].insts@ == fb.layout@[l].insts@.push(st->Local_0));
            assert(ff.bbs@[entry as int] == fa.bbs@[entry as int]);
            assert forall|k: int| 0 <= k < i + 1 implies #[trigger] param_copied(ff, l, k, f0.params@[k]) by {
                if k < i {
                    assert(param_copied(fa, l, k, f0.params@[k]));
                    assert(ff.layout@[l].insts@[2 * k] == fa.layout@[l].insts@[2 * k]);
                    assert(ff.layout@[l].insts@[2 * k + 1] == fa.layout@[l].insts@[2 * k + 1]);
                    assert(ff.values@[fa.layout@[l].insts@[2 * k] as int] == fa.values@[fa.layout@[l].insts@[2 * k] as int]);
                    assert(ff.values@[fa.layout@[l].insts@[2 * k + 1] as int] == fa.values@[fa.layout@[l].insts@[2 * k + 1] as int]);
                } else {
                    assert(ff.layout@[l].insts@[2 * k] == ptr->Local_0);
                    assert(ff.values@[ptr->Local_0 as int] == fb.values@[ptr->Local_0 as int]);
                }
            }
        }
        var_map.insert(p.id.clone(), SymbolInfo::Var(ptr));
        proof { assert(var_map@.scopes.drop_last() =~= va.scopes.drop_last()); }
        i = i + 1;
    }

    let ghost fc = *func_data;
    proof {
        assert(entry_shape(f0, fc, n as int));
    }
    let end_bb = process_block(&func_def.block, globals, func_data, entry, var_map, func_map)?;
    let ghost fd = *func_data;
    proof {
        lemma_extends_trans(f0, fc, fd);
        lemma_entry_shape_extends(f0, fc, fd, n as int);
        if room {
            assert(fd == fc && end_bb == entry);
            assert(!first_node_terminated(fd, entry)) by {
                if first_node_terminated(fd, entry) {
                    let k = choose|k: int| 0 <= k < fd.layout@.len() && (#[trigger] fd.layout@[k]).bb == entry
                        && (forall|j: int| 0 <= j < k ==> (#[trigger] fd.layout@[j]).bb != entry)
                        && node_terminated(fd, fd.layout@[k]);
                    assert(k == l);
                }
            }
            assert(in_layout(fd, entry));
        }
    }
    if !is_bb_terminated(func_data, &end_bb) {
        if is_void_return {
            let ret_inst = func_data.emit(globals, end_bb, ValueKind::Return(None))?;
            proof {
                lemma_emitted_keeps(fd, *func_data, end_bb, ret_inst, func_data.values@.last()); lemma_wt_emit(globals@, fd, *func_data, end_bb, ret_inst, func_data.values@.last());
                lemma_extends_trans(f0, fd, *func_data);
                lemma_entry_shape_extends(f0, fd, *func_data, n as int);
            }
        } else {
            return Err(CompileError::MissingReturn);
        }
    } else {
        proof {
            if func_well_terminated(f0) {
                lemma_close(fd, end_bb);
            }
        }
    }
    var_map.exit_scope();
    proof {
        assert(var_map@.scopes =~= v0.scopes);
    }
    prog.funcs.insert(func, owned);
    proof {
        assert forall|j: int| 0 <= j < funcs0.len() && j != func implies #[trigger] prog.funcs@[j] == funcs0[j] by {
            if j < func { } else { }
        }
    }
    proof {
        assert(prog.funcs@[func as int] == owned);
    }
    Ok(())
}

/// The name `<prefix><ident>` of a global value or function.
fn prefixed(prefix: &str, ident: &str) -> (r: String)
    ensures r@ == prefix@ + ident@,
{
    let mut s = String::from_str(prefix);
    s.append(ident);
    s
}

/// The names that a declaration defines, in order.
pub open spec fn decl_idents(decl: Decl) -> Seq<Seq<char>> {
    match decl {
        Decl::Const(c) => c.defs@.map_values(|d: ConstDef| d.ident@),
        Decl::Var(v) => v.defs@.map_values(|d: VarDef| d.ident@),
    }
}

/// Whether the `k`-th definition of a declaration is a scalar constant,
/// which binds its name to a value rather than to a global allocation.
pub open spec fn binds_const(decl: Decl, k: int) -> bool {
    decl matches Decl::Const(c) && c.defs@[k].array_lens@.len() == 0
}

/// What the first `j` definitions of a global declaration did to the
/// innermost scope `l0`, giving `l`: their names were all new and are
/// pairwise distinct, each is bound to a constant or a variable as its
/// definition says, and the earlier bindings are kept.
pub open spec fn declared_prefix(decl: Decl, l0: Map<Seq<char>, SymbolInfo>, l: Map<Seq<char>, SymbolInfo>, j: int) -> bool {
    let ids = decl_idents(decl);
    &&& forall|k: int| 0 <= k < j ==> !l0.contains_key(#[trigger] ids[k])
    &&& forall|a: int, b: int| 0 <= a < b < j ==> #[trigger] ids[a] != #[trigger] ids[b]
    &&& forall|k: int| 0 <= k < j ==> l.contains_key(#[trigger] ids[k])
        && (if binds_const(decl, k) { l[ids[k]] is Const } else { l[ids[k]] is Var })
    &&& forall|name: Seq<char>| l0.contains_key(name) ==> #[trigger] l.contains_key(name) && l[name] == l0[name]
}

/// What a whole global declaration does to the innermost scope.
pub open spec fn declared_in_scope(decl: Decl, l0: Map<Seq<char>, SymbolInfo>, l: Map<Seq<char>, SymbolInfo>) -> bool {
    declared_prefix(decl, l0, l, decl_idents(decl).len() as int)
}

/// One definition of a declaration binds a name that the innermost scope
/// lacked: the facts of `declared_in_scope` extend by one.
proof fn lemma_declare_step(decl: Decl, v0: VariablesView, vj: VariablesView, v1: VariablesView, j: int, id: Seq<char>)
    requires
        0 <= j < decl_idents(decl).len(),
        id == decl_idents(decl)[j],
        v0.scopes.len() > 0,
        vj.scopes.len() == v0.scopes.len(),
        !vj.scopes.last().contains_key(id),
        v1.scopes.len() == vj.scopes.len(),
        v1.scopes.last().dom() == vj.scopes.last().dom().insert(id),
        forall|name: Seq<char>| name != id && vj.scopes.last().contains_key(name) ==> #[trigger] v1.scopes.last()[name] == vj.scopes.last()[name],
        if binds_const(decl, j) { v1.scopes.last()[id] is Const } else { v1.scopes.last()[id] is Var },
        declared_prefix(decl, v0.scopes.last(), vj.scopes.last(), j),
    ensures
        declared_prefix(decl, v0.scopes.last(), v1.scopes.last(), j + 1),
{
    let ids = decl_idents(decl);
    let l0 = v0.scopes.last();
    let lj = vj.scopes.last();
    assert forall|k: int| 0 <= k < j implies #[trigger] ids[k] != id by {
        assert(lj.contains_key(ids[k]));
    }
    assert(!l0.contains_key(id));
}

/// What a local scalar variable `x` with initializer `init`, declared in
/// block `bb` in `scopes` with id counter `k`, adds to the function (from
/// `f0` to `f`) and to the innermost scope `l`: a slot of type `*i32` named
/// `@x_k` (the first new value), bound to `x`; with an initializer, the last
/// new instruction stores into that slot the value the expression was
/// lowered to, from block `bb` on.
pub open spec fn local_var_added(gl: Seq<ValueData>, f0: FunctionData, f: FunctionData, l: Map<Seq<char>, SymbolInfo>,
    scope_ok: bool, x: Seq<char>, init: Option<InitVal>, bb: BasicBlock, scopes: Seq<Map<Seq<char>, SymbolInfo>>,
    k: nat) -> bool {
    let p = f0.values@.len();
    &&& p < f.values@.len() && f.values@[p as int].kind == ValueKind::Alloc
    &&& f.values@[p as int].ty == Ty::Pointer(Box::new(Ty::I32))
    &&& f.values@[p as int].name matches Some(s) && s@ == seq!['@'] + x + seq!['_'] + crate::util::dec_nat(k)
    &&& (init is Some ==> f.values@.last().kind is Store && f.values@.last().kind->Store_dest == Value::Local(p as usize))
    &&& (init matches Some(InitVal::Exp(e)) ==> exists|fa: FunctionData, fb: FunctionData, bm: BasicBlock, v: Value|
        #[trigger] lowered(gl, e, fa, fb, bb, bm, scopes, Ok::<Value, CompileError>(v))
        && extends(f0, fa) && extends(fb, f) && f.values@.last().kind->Store_value == v)
    &&& (scope_ok ==> l[x] == SymbolInfo::Var(Value::Local(p as usize)))
}

/// The name and initializer of a declaration `int x [= init];` that defines
/// exactly one scalar variable.
pub open spec fn single_scalar_var(decl: Decl) -> Option<(Seq<char>, Option<InitVal>)> {
    match decl {
        Decl::Var(v) => if v.typ is Int && v.defs@.len() == 1 && v.defs@[0].array_lens@.len() == 0 {
            Some((v.defs@[0].ident@, v.defs@[0].init_val))
        } else {
            None
        },
        Decl::Const(_) => None,
    }
}

/// What a global scalar variable `x` with initializer `init` adds to the
/// globals `g0`, giving `g`, and to the innermost scope `l`: its initial
/// value (the value of the expression, or zero) of type `i32`, then an
/// allocation of it named `@x`, of type `*i32`, to which `x` is bound.
pub open spec fn global_var_added(g0: Seq<ValueData>, g: Seq<ValueData>, l: Map<Seq<char>, SymbolInfo>, scope_ok: bool,
    x: Seq<char>, init: Option<InitVal>, scopes: Seq<Map<Seq<char>, SymbolInfo>>) -> bool {
    let n = g0.len() as int;
    &&& g.len() == n + 2
    &&& g[n as int].kind == (match init {
        Some(InitVal::Exp(e)) => ValueKind::Integer(spec_eval(e, scopes)->Some_0),
        _ => ValueKind::ZeroInit,
    })
    &&& g[n as int].ty == Ty::I32
    &&& g[n + 1].kind == ValueKind::GlobalAlloc(Value::Global(n as usize))
    &&& g[n + 1].ty == Ty::Pointer(Box::new(Ty::I32))
    &&& g[n + 1].name matches Some(s) && s@ == "@"@ + x
    &&& (scope_ok ==> l[x] == SymbolInfo::Var(Value::Global((n + 1) as usize)))
}

/// When a global scalar variable `x` with initializer `init` can be
/// declared, in `scopes` and with `n` globals already: `x` is new in the
/// innermost scope, the initializer is absent or an expression with a value,
/// and there is room for two more globals.
pub open spec fn scalar_var_ok(scopes: Seq<Map<Seq<char>, SymbolInfo>>, n: nat, x: Seq<char>, init: Option<InitVal>) -> bool {
    &&& !(scopes.len() > 0 && scopes.last().contains_key(x))
    &&& match init {
        None => true,
        Some(InitVal::Exp(e)) => spec_eval(e, scopes) is Some,
        Some(InitVal::List(_)) => false,
    }
    &&& n + 1 < usize::MAX
}

/// A constant declaration all of whose definitions are scalars with an
/// expression as initializer.
pub open spec fn all_scalar_consts(decl: Decl) -> bool {
    decl matches Decl::Const(c) && forall|k: int| 0 <= k < c.defs@.len() ==>
        (#[trigger] c.defs@[k]).array_lens@.len() == 0 && c.defs@[k].init_val is Exp
}

/// The scopes after the first `j` scalar constant definitions `defs` are
/// bound in the innermost of `scopes`, each to the value of its expression
/// in the scopes before it.
pub open spec fn const_scopes(scopes: Seq<Map<Seq<char>, SymbolInfo>>, defs: Seq<ConstDef>, j: nat) -> Seq<Map<Seq<char>, SymbolInfo>>
    decreases j,
{
    if j == 0 || scopes.len() == 0 {
        scopes
    } else {
        let s = const_scopes(scopes, defs, (j - 1) as nat);
        let d = defs[j - 1];
        s.update(s.len() - 1, s.last().insert(d.ident@, SymbolInfo::Const(const_def_value(s, d))))
    }
}

/// The value of a scalar constant definition in the given scopes.
pub open spec fn const_def_value(scopes: Seq<Map<Seq<char>, SymbolInfo>>, d: ConstDef) -> i32 {
    spec_eval(d.init_val->Exp_0.exp, scopes)->Some_0
}

/// The name and expression of a declaration `const int x = e;` that defines
/// exactly one scalar constant.
pub open spec fn single_scalar_const(decl: Decl) -> Option<(Seq<char>, Exp)> {
    match decl {
        Decl::Const(c) => if c.defs@.len() == 1 && c.defs@[0].array_lens@.len() == 0 {
            match c.defs@[0].init_val {
                ConstInitVal::Exp(e) => Some((c.defs@[0].ident@, e.exp)),
                ConstInitVal::List(_) => None,
            }
        } else {
            None
        },
        Decl::Var(_) => None,
    }
}

/// Translates a global declaration: a scalar constant is bound to its value;
/// an array constant and a variable get a global allocation, initialized by
/// an aggregate, an integer or a zero initializer, named `@<ident>`.
pub fn process_global_decl(var_map: &mut Variables, program: &mut Program, decl: &Decl) -> (r: Result<(), CompileError>)
    ensures
        final(program).funcs == old(program).funcs,
        globals_ext(old(program).globals@, final(program).globals@),
        r is Ok ==> frame_symbols(old(var_map)@, final(var_map)@),
        r is Ok && old(var_map)@.scopes.len() > 0 ==>
            declared_in_scope(*decl, old(var_map)@.scopes.last(), final(var_map)@.scopes.last()),
        decl_idents(*decl).len() == 0 ==> (r is Ok <==> !(decl matches Decl::Var(v) && v.typ is Void)),
        single_scalar_const(*decl) is Some ==> {
            let x = single_scalar_const(*decl)->Some_0.0;
            let e = single_scalar_const(*decl)->Some_0.1;
            &&& (r is Ok <==> !(old(var_map)@.scopes.len() > 0 && old(var_map)@.scopes.last().contains_key(x))
                && spec_eval(e, old(var_map)@.scopes) is Some)
            &&& (r is Ok && old(var_map)@.scopes.len() > 0 ==>
                final(var_map)@.scopes.last()[x] == SymbolInfo::Const(spec_eval(e, old(var_map)@.scopes)->Some_0))
            &&& final(program).globals == old(program).globals
        },
        all_scalar_consts(*decl) && r is Ok && old(var_map)@.scopes.len() > 0 ==> {
            let defs = decl->Const_0.defs@;
            &&& final(var_map)@.scopes == const_scopes(old(var_map)@.scopes, defs, defs.len())
            &&& forall|k: int| 0 <= k < defs.len() ==> final(var_map)@.scopes.last()[(#[trigger] defs[k]).ident@]
                == SymbolInfo::Const(const_def_value(const_scopes(old(var_map)@.scopes, defs, k as nat), defs[k]))
        },
        decl_idents(*decl).len() > 0 && old(var_map)@.scopes.len() > 0 && old(var_map)@.scopes.last().contains_key(decl_idents(*decl)[0])
            && !(decl matches Decl::Var(v) && v.typ is Void) ==> r == Err::<(), CompileError>(CompileError::DuplicateSymbol),
        single_scalar_var(*decl) is Some ==> (r is Ok <==> scalar_var_ok(old(var_map)@.scopes, old(program).globals@.len(),
            single_scalar_var(*decl)->Some_0.0, single_scalar_var(*decl)->Some_0.1)),
        single_scalar_var(*decl) is Some && r is Ok ==> global_var_added(old(program).globals@, final(program).globals@,
            final(var_map)@.scopes.last(), old(var_map)@.scopes.len() > 0, single_scalar_var(*decl)->Some_0.0,
            single_scalar_var(*decl)->Some_0.1, old(var_map)@.scopes),
{
    let ghost v0 = var_map@;
    let ghost ids = decl_idents(*decl);
    let ghost sc = single_scalar_const(*decl);
    let ghost sv = single_scalar_var(*decl);
    match decl {
        Decl::Const(const_decl) => {
            let n = const_decl.defs.len();
            assert(ids.len() == n);
            let mut j: usize = 0;
            while j < n
                invariant
                    n == const_decl.defs@.len(),
                    j <= n,
                    *decl == Decl::Const(*const_decl),
                    program.funcs == old(program).funcs,
                    globals_ext(old(program).globals@, program.globals@),
                    frame_symbols(v0, var_map@),
                    ids == decl_idents(*decl), ids.len() == n, v0 == old(var_map)@,
                    v0.scopes.len() > 0 ==> declared_prefix(*decl, v0.scopes.last(), var_map@.scopes.last(), j as int),
                    sc == single_scalar_const(*decl),
                    j == 0 ==> var_map@ == v0 && program.globals == old(program).globals,
                    sc is Some && j == 1 ==> {
                        &&& !(v0.scopes.len() > 0 && v0.scopes.last().contains_key(sc->Some_0.0))
                        &&& spec_eval(sc->Some_0.1, v0.scopes) is Some
                        &&& (v0.scopes.len() > 0 ==> var_map@.scopes.last()[sc->Some_0.0] == SymbolInfo::Const(spec_eval(sc->Some_0.1, v0.scopes)->Some_0))
                        &&& program.globals == old(program).globals
                    },
                    all_scalar_consts(*decl) && v0.scopes.len() > 0 ==> {
                        &&& var_map@.scopes == const_scopes(v0.scopes, const_decl.defs@, j as nat)
                        &&& forall|k: int| 0 <= k < j ==> var_map@.scopes.last()[(#[trigger] const_decl.defs@[k]).ident@]
                            == SymbolInfo::Const(const_def_value(const_scopes(v0.scopes, const_decl.defs@, k as nat), const_decl.defs@[k]))
                    },
                decreases n - j,
            {
                let def = &const_decl.defs[j];
                if var_map.contains_in_current_scope(def.ident.as_str()) {
                    return Err(CompileError::DuplicateSymbol);
                }
                let ghost vj = var_map@;
                if def.array_lens.len() == 0 {
                    let val = match &def.init_val {
                        ConstInitVal::Exp(exp) => match crate::ast::try_eval_exp(&exp.exp, var_map) {
                            Some(v) => v,
                            None => return Err(CompileError::InvalidConstExp),
                        },
                        ConstInitVal::List(_) => return Err(CompileError::ScalarNeedsExp),
                    };
                    var_map.insert(def.ident.clone(), SymbolInfo::Const(val));
                    proof {
                        if all_scalar_consts(*decl) && v0.scopes.len() > 0 {
                            let defs = const_decl.defs@;
                            assert(defs[j as int] == *def);
                            assert(var_map@.scopes =~= const_scopes(v0.scopes, defs, (j + 1) as nat));
                            assert forall|k: int| 0 <= k < j + 1 implies var_map@.scopes.last()[(#[trigger] defs[k]).ident@]
                                == SymbolInfo::Const(const_def_value(const_scopes(v0.scopes, defs, k as nat), defs[k])) by {
                                if k < j {
                                    assert(vj.scopes.last().contains_key(decl_idents(*decl)[k]));
                                    assert(decl_idents(*decl)[k] == defs[k].ident@);
                                }
                            }
                        }
                    }
                } else {
                    let dims = eval_array_lens(&def.array_lens, var_map)?;
                    let flat = flatten_const_init(&def.init_val, &dims, var_map)?;
                    let mut cursor: usize = 0;
                    let agg = build_global_aggregate_from_flat(program, &dims, 0, &flat, &mut cursor)?;
                    let global_alloc = program.global_alloc(agg)?;
                    program.set_value_name(global_alloc, Some(prefixed("@", def.ident.as_str())));
                    var_map.insert(def.ident.clone(), SymbolInfo::Var(global_alloc));
                }
                proof {
                    assert(var_map@.scopes.drop_last() =~= v0.scopes.drop_last());
                    if v0.scopes.len() > 0 {
                        assert(ids[j as int] == def.ident@);
                        lemma_declare_step(*decl, v0, vj, var_map@, j as int, def.ident@);
                    }
                }
                j = j + 1;
            }
            Ok(())
        },
        Decl::Var(var_decl) => {
            let base_ty = type_to_ir(&var_decl.typ);
            if base_ty.is_unit() {
                return Err(CompileError::VoidGlobal);
            }
            let n = var_decl.defs.len();
            assert(ids.len() == n);
            let mut j: usize = 0;
            while j < n
                invariant
                    n == var_decl.defs@.len(),
                    j <= n,
                    *decl == Decl::Var(*var_decl),
                    program.funcs == old(program).funcs,
                    globals_ext(old(program).globals@, program.globals@),
                    frame_symbols(v0, var_map@),
                    ids == decl_idents(*decl), ids.len() == n, v0 == old(var_map)@,
                    v0.scopes.len() > 0 ==> declared_prefix(*decl, v0.scopes.last(), var_map@.scopes.last(), j as int),
                    sv == single_scalar_var(*decl),
                    sv is Some ==> base_ty == Ty::I32,
                    j == 0 ==> var_map@ == v0 && program.globals == old(program).globals,
                    sv is Some && j == 1 ==> global_var_added(old(program).globals@, program.globals@,
                        var_map@.scopes.last(), v0.scopes.len() > 0, sv->Some_0.0, sv->Some_0.1, v0.scopes),
                    sv is Some && j == 1 ==> scalar_var_ok(v0.scopes, old(program).globals@.len(), sv->Some_0.0, sv->Some_0.1),
                decreases n - j,
            {
                let def = &var_decl.defs[j];
                if var_map.contains_in_current_scope(def.ident.as_str()) {
                    return Err(CompileError::DuplicateSymbol);
                }
                let alloc_init = if def.array_lens.len() > 0 {
                    let dims = eval_array_lens(&def.array_lens, var_map)?;
                    let arr_ty = build_array_type(base_ty.clone(), &dims, 0);
                    match &def.init_val {
                        Some(init) => {
                            let flat = flatten_global_init_from_initval(init, &dims, var_map)?;
                            let mut cursor: usize = 0;
                            build_global_aggregate_from_flat(program, &dims, 0, &flat, &mut cursor)?
                        },
                        None => program.global_zero_init(arr_ty)?,
                    }
                } else {
                    match &def.init_val {
                        Some(init_val) => {
                            let val = match init_val {
                                InitVal::Exp(exp) => match crate::ast::try_eval_exp(exp, var_map) {
                                    Some(v) => v,
                                    None => return Err(CompileError::InvalidConstExp),
                                },
                                InitVal::List(_) => return Err(CompileError::ScalarNeedsExp),
                            };
                            program.global_integer(val)?
                        },
                        None => program.global_zero_init(base_ty.clone())?,
                    }
                };
                let ghost g1 = program.globals@;
                let global_alloc = program.global_alloc(alloc_init)?;
                let ghost g2 = program.globals@;
                program.set_value_name(global_alloc, Some(prefixed("@", def.ident.as_str())));
                proof {
                    if sv is Some {
                        let n0 = old(program).globals@.len() as int;
                        assert(program.globals@[n0] == g2[n0] || program.globals@[n0].kind == g2[n0].kind);
                        assert(program.globals@[n0].kind == g2[n0].kind);
                        assert(program.globals@[n0].ty == g2[n0].ty);
                        assert(program.globals@[n0 + 1].ty == g2[n0 + 1].ty);
                        assert(g2[n0] == g1[n0]);
                    }
                }
                let ghost vj = var_map@;
                var_map.insert(def.ident.clone(), SymbolInfo::Var(global_alloc));
                proof {
                    assert(var_map@.scopes.drop_last() =~= v0.scopes.drop_last());
                    if v0.scopes.len() > 0 {
                        assert(ids[j as int] == def.ident@);
                        lemma_declare_step(*decl, v0, vj, var_map@, j as int, def.ident@);
                    }
                }
                j = j + 1;
            }
            Ok(())
        },
    }
}

/// Declares one library function: `@<name>` with the given parameter and
/// return types, bound to `Func` in the innermost scope.
fn add_lib_func(
    var_map: &mut Variables,
    program: &mut Program,
    function_maps: &mut FuncMap,
    name: &str,
    params: Vec<Ty>,
    ret_ty: Ty,
) -> (r: Result<(), CompileError>)
    ensures
        r is Ok ==> final(program).funcs@.len() == old(program).funcs@.len() + 1,
        r is Ok ==> final(program).funcs@.last().layout@.len() == 0,
        r is Ok ==> no_insts(final(program).funcs@.last()),
        r is Ok ==> forall|j: int| 0 <= j < old(program).funcs@.len() ==> #[trigger] final(program).funcs@[j] == old(program).funcs@[j],
        r is Ok ==> frame_symbols(old(var_map)@, final(var_map)@),
        final(program).globals == old(program).globals,
        r is Err <==> (old(var_map)@.scopes.len() > 0 && old(var_map)@.scopes.last().contains_key(name@))
            || (exists|i: int| 0 <= i < params@.len() && #[trigger] params@[i] is Unit)
            || func_lookup(old(function_maps)@, name@) is Some,
        r is Ok ==> {
            let f = final(program).funcs@.last();
            &&& f.name@ == "@"@ + name@
            &&& f.ret_ty == ret_ty
            &&& f.param_tys@ == params@
            &&& final(function_maps)@.len() == old(function_maps)@.len() + 1
            &&& final(function_maps)@.drop_last() == old(function_maps)@
            &&& final(function_maps)@.last().0@ == name@
            &&& final(function_maps)@.last().1 == old(program).funcs@.len()
            &&& (old(var_map)@.scopes.len() > 0 ==> final(var_map)@.scopes.last() == old(var_map)@.scopes.last().insert(name@, SymbolInfo::Func))
        },
{
    if var_map.contains_in_current_scope(name) {
        return Err(CompileError::DuplicateSymbol);
    }
    let mut param_defs: Vec<(Option<String>, Ty)> = Vec::new();
    let n = params.len();
    let mut i: usize = 0;
    while i < n
        invariant n == params@.len(), i <= n, param_defs@.len() == i,
            forall|k: int| 0 <= k < i ==> (#[trigger] param_defs@[k]).1 == params@[k],
        decreases n - i,
    {
        param_defs.push((None, params[i].clone()));
        i = i + 1;
    }
    let ghost pd = param_defs@;
    let fd = match FunctionData::with_param_names(prefixed("@", name), param_defs, ret_ty) {
        Ok(fd) => fd,
        Err(e) => {
            proof {
                let i = choose|i: int| 0 <= i < pd.len() && (#[trigger] pd[i]).1 is Unit;
                assert(params@[i] is Unit);
            }
            return Err(e);
        },
    };
    proof {
        assert forall|i: int| 0 <= i < params@.len() implies !(#[trigger] params@[i] is Unit) by {
            assert(pd[i].1 == params@[i]);
        }
        assert forall|i: int| 0 <= i < params@.len() implies #[trigger] fd.param_tys@[i] == params@[i] by {
            assert(fd.params@[i] == Value::Local(i as usize));
            assert(pd[i].1 == params@[i]);
        }
        assert(fd.param_tys@ =~= params@);
    }
    assert forall|i: int| 0 <= i < fd.values@.len() implies !is_inst_kind(#[trigger] fd.values@[i].kind) by {
        assert(fd.params@[i] == Value::Local(i as usize));
    }
    let func = program.new_func(fd);
    let key = String::from_str(name);
    if get_func(function_maps, &key).is_some() {
        return Err(CompileError::DuplicateFunction);
    }
    let ghost fm0 = function_maps@;
    function_maps.push((key.clone(), func));
    var_map.insert(key, SymbolInfo::Func);
    proof {
        assert(var_map@.scopes.drop_last() =~= old(var_map)@.scopes.drop_last());
        assert(function_maps@.drop_last() =~= fm0);
    }
    Ok(())
}

/// The parameter types of the `j`-th library function.
pub open spec fn lib_param_tys(j: int) -> Seq<Ty> {
    if j == 2 {
        seq![Ty::Pointer(Box::new(Ty::I32))]
    } else if j == 3 || j == 4 {
        seq![Ty::I32]
    } else if j == 5 {
        seq![Ty::I32, Ty::Pointer(Box::new(Ty::I32))]
    } else {
        seq![]
    }
}

/// The return type of the `j`-th library function: `getint`, `getch` and
/// `getarray` return `i32`, the others nothing.
pub open spec fn lib_ret_ty(j: int) -> Ty {
    if j <= 2 { Ty::I32 } else { Ty::Unit }
}

/// `f` is the declaration of the `j`-th library function.
pub open spec fn lib_declared(f: FunctionData, j: int) -> bool {
    &&& f.name@ == "@"@ + lib_names()[j]
    &&& f.param_tys@ == lib_param_tys(j)
    &&& f.ret_ty == lib_ret_ty(j)
}

/// The names of the SysY runtime library, in the order they are declared.
pub open spec fn lib_names() -> Seq<Seq<char>> {
    seq!["getint"@, "getch"@, "getarray"@, "putint"@, "putch"@, "putarray"@, "starttime"@, "stoptime"@]
}

/// The name `n` is bound neither in the innermost scope of `v` nor in the
/// function map `fm`.
pub open spec fn name_free(v: VariablesView, fm: Seq<(String, Function)>, n: Seq<char>) -> bool {
    &&& !(v.scopes.len() > 0 && v.scopes.last().contains_key(n))
    &&& func_lookup(fm, n) is None
}

proof fn lemma_lib_names_distinct()
    ensures forall|i: int, j: int| 0 <= i < j < 8 ==> #[trigger] lib_names()[i] != #[trigger] lib_names()[j],
{
    reveal_strlit("getint");
    reveal_strlit("getch");
    reveal_strlit("getarray");
    reveal_strlit("putint");
    reveal_strlit("putch");
    reveal_strlit("putarray");
    reveal_strlit("starttime");
    reveal_strlit("stoptime");
    let ns = lib_names();
    assert(ns[0].len() == 6 && ns[0][0] == 'g');
    assert(ns[1].len() == 5 && ns[1][0] == 'g');
    assert(ns[2].len() == 8 && ns[2][0] == 'g');
    assert(ns[3].len() == 6 && ns[3][0] == 'p');
    assert(ns[4].len() == 5 && ns[4][0] == 'p');
    assert(ns[5].len() == 8 && ns[5][0] == 'p');
    assert(ns[6].len() == 9 && ns[6][0] == 's');
    assert(ns[7].len() == 8 && ns[7][0] == 's');
}

/// Declaring the `k`-th library name leaves the later names as free as they were.
proof fn lemma_lib_step(v: VariablesView, v1: VariablesView, fm: Seq<(String, Function)>, fm1: Seq<(String, Function)>, k: int)
    requires
        0 <= k < 8,
        v1.scopes.len() == v.scopes.len(),
        v.scopes.len() > 0 ==> v1.scopes.last() == v.scopes.last().insert(lib_names()[k], SymbolInfo::Func),
        fm1.len() == fm.len() + 1,
        fm1.drop_last() == fm,
        fm1.last().0@ == lib_names()[k],
    ensures
        forall|j: int| k < j < 8 ==> #[trigger] name_free(v1, fm1, lib_names()[j]) == name_free(v, fm, lib_names()[j]),
{
    lemma_lib_names_distinct();
    assert(fm1 =~= fm.push(fm1.last()));
    assert forall|j: int| k < j < 8 implies #[trigger] name_free(v1, fm1, lib_names()[j]) == name_free(v, fm, lib_names()[j]) by {
        assert(lib_names()[k] != lib_names()[j]);
        lemma_func_lookup_push(fm, fm1.last(), lib_names()[j]);
    }
}

/// Declares the SysY runtime library: `getint`, `getch`, `getarray`,
/// `putint`, `putch`, `putarray`, `starttime` and `stoptime`; this fails
/// where one of these names is bound already.
pub fn add_sysy_lib_decls(var_map: &mut Variables, program: &mut Program, function_maps: &mut FuncMap) -> (r: Result<(), CompileError>)
    ensures
        r is Ok ==> final(program).funcs@.len() == old(program).funcs@.len() + 8,
        r is Ok ==> forall|j: int| old(program).funcs@.len() <= j < final(program).funcs@.len() ==>
            (#[trigger] final(program).funcs@[j]).layout@.len() == 0 && no_insts(final(program).funcs@[j]),
        r is Ok ==> forall|j: int| 0 <= j < old(program).funcs@.len() ==> #[trigger] final(program).funcs@[j] == old(program).funcs@[j],
        r is Ok ==> frame_symbols(old(var_map)@, final(var_map)@),
        final(program).globals == old(program).globals,
        r is Err <==> exists|j: int| 0 <= j < 8 && !name_free(old(var_map)@, old(function_maps)@, #[trigger] lib_names()[j]),
        r is Ok ==> forall|j: int| 0 <= j < 8 ==>
            lib_declared(#[trigger] final(program).funcs@[old(program).funcs@.len() + j], j),
        r is Ok ==> {
            let m = old(function_maps)@.len();
            &&& final(function_maps)@.len() == m + 8
            &&& final(function_maps)@.subrange(0, m as int) == old(function_maps)@
            &&& forall|j: int| 0 <= j < 8 ==> (#[trigger] final(function_maps)@[m + j]).0@ == lib_names()[j]
                && final(function_maps)@[m + j].1 == old(program).funcs@.len() + j
        },
        r is Ok && old(var_map)@.scopes.len() > 0 ==> forall|name: Seq<char>|
            #[trigger] final(var_map)@.scopes.last().contains_key(name) <==>
                (old(var_map)@.scopes.last().contains_key(name) || lib_names().contains(name)),
{
    let ghost p0 = program.funcs@;
    let ghost v0 = var_map@;
    let ghost f0 = function_maps@;
    let i32_ty = Ty::I32;
    let ptr_i32_ty = Ty::Pointer(Box::new(Ty::I32));
    let unit_ty = Ty::Unit;
    let ghost v0 = var_map@;
    let ghost m0 = function_maps@;
    let ghost q0 = program.funcs@;
    match add_lib_func(var_map, program, function_maps, "getint", Vec::new(), i32_ty.clone()) {
        Ok(()) => {},
        Err(e) => {
            proof { assert(!name_free(v0, m0, lib_names()[0])); }
            return Err(e);
        },
    }
    proof {
        assert(name_free(v0, m0, lib_names()[0]));
        lemma_lib_step(v0, var_map@, m0, function_maps@, 0);
    }
    let ghost v1 = var_map@;
    let ghost m1 = function_maps@;
    let ghost q1 = program.funcs@;
    match add_lib_func(var_map, program, function_maps, "getch", Vec::new(), i32_ty.clone()) {
        Ok(()) => {},
        Err(e) => {
            proof { assert(!name_free(v1, m1, lib_names()[1])); }
            return Err(e);
        },
    }
    proof {
        assert(name_free(v1, m1, lib_names()[1]));
        lemma_lib_step(v1, var_map@, m1, function_maps@, 1);
    }
    let ghost v2 = var_map@;
    let ghost m2 = function_maps@;
    let ghost q2 = program.funcs@;
    match add_lib_func(var_map, program, function_maps, "getarray", vec![ptr_i32_ty.clone()], i32_ty.clone()) {
        Ok(()) => {},
        Err(e) => {
            proof { assert(!name_free(v2, m2, lib_names()[2])); }
            return Err(e);
        },
    }
    proof {
        assert(name_free(v2, m2, lib_names()[2]));
        lemma_lib_step(v2, var_map@, m2, function_maps@, 2);
    }
    let ghost v3 = var_map@;
    let ghost m3 = function_maps@;
    let ghost q3 = program.funcs@;
    match add_lib_func(var_map, program, function_maps, "putint", vec![Ty::I32], unit_ty.clone()) {
        Ok(()) => {},
        Err(e) => {
            proof { assert(!name_free(v3, m3, lib_names()[3])); }
            return Err(e);
        },
    }
    proof {
        assert(name_free(v3, m3, lib_names()[3]));
        lemma_lib_step(v3, var_map@, m3, function_maps@, 3);
    }
    let ghost v4 = var_map@;
    let ghost m4 = function_maps@;
    let ghost q4 = program.funcs@;
    match add_lib_func(var_map, program, function_maps, "putch", vec![Ty::I32], unit_ty.clone()) {
        Ok(()) => {},
        Err(e) => {
            proof { assert(!name_free(v4, m4, lib_names()[4])); }
            return Err(e);
        },
    }
    proof {
        assert(name_free(v4, m4, lib_names()[4]));
        lemma_lib_step(v4, var_map@, m4, function_maps@, 4);
    }
    let ghost v5 = var_map@;
    let ghost m5 = function_maps@;
    let ghost q5 = program.funcs@;
    match add_lib_func(var_map, program, function_maps, "putarray", vec![Ty::I32, ptr_i32_ty.clone()], unit_ty.clone()) {
        Ok(()) => {},
        Err(e) => {
            proof { assert(!name_free(v5, m5, lib_names()[5])); }
            return Err(e);
        },
    }
    proof {
        assert(name_free(v5, m5, lib_names()[5]));
        lemma_lib_step(v5, var_map@, m5, function_maps@, 5);
    }
    let ghost v6 = var_map@;
    let ghost m6 = function_maps@;
    let ghost q6 = program.funcs@;
    match add_lib_func(var_map, program, function_maps, "starttime", Vec::new(), unit_ty.clone()) {
        Ok(()) => {},
        Err(e) => {
            proof { assert(!name_free(v6, m6, lib_names()[6])); }
            return Err(e);
        },
    }
    proof {
        assert(name_free(v6, m6, lib_names()[6]));
        lemma_lib_step(v6, var_map@, m6, function_maps@, 6);
    }
    let ghost v7 = var_map@;
    let ghost m7 = function_maps@;
    let ghost q7 = program.funcs@;
    match add_lib_func(var_map, program, function_maps, "stoptime", Vec::new(), unit_ty) {
        Ok(()) => {},
        Err(e) => {
            proof { assert(!name_free(v7, m7, lib_names()[7])); }
            return Err(e);
        },
    }
    proof {
        assert(name_free(v7, m7, lib_names()[7]));
        lemma_lib_step(v7, var_map@, m7, function_maps@, 7);
    }
    proof {
        let n = p0.len();
        let ps = seq![q1, q2, q3, q4, q5, q6, q7, program.funcs@];
        assert forall|j: int| n <= j < program.funcs@.len() implies (#[trigger] program.funcs@[j]).layout@.len() == 0 && no_insts(program.funcs@[j]) by {
            if j == n { assert(program.funcs@[j] == q1[j]); }
            else if j == n + 1 { assert(program.funcs@[j] == q2[j]); }
            else if j == n + 2 { assert(program.funcs@[j] == q3[j]); }
            else if j == n + 3 { assert(program.funcs@[j] == q4[j]); }
            else if j == n + 4 { assert(program.funcs@[j] == q5[j]); }
            else if j == n + 5 { assert(program.funcs@[j] == q6[j]); }
            else if j == n + 6 { assert(program.funcs@[j] == q7[j]); }
        }
        assert forall|j: int| 0 <= j < 8 implies lib_declared(#[trigger] program.funcs@[n + j], j) by {
            assert(program.funcs@[n + j].param_tys@ =~= lib_param_tys(j)) by {
                if j == 0 { assert(program.funcs@[n + j] == q1[n + j]); }
                else if j == 1 { assert(program.funcs@[n + j] == q2[n + j]); }
                else if j == 2 { assert(program.funcs@[n + j] == q3[n + j]); }
                else if j == 3 { assert(program.funcs@[n + j] == q4[n + j]); }
                else if j == 4 { assert(program.funcs@[n + j] == q5[n + j]); }
                else if j == 5 { assert(program.funcs@[n + j] == q6[n + j]); }
                else if j == 6 { assert(program.funcs@[n + j] == q7[n + j]); }
            }
            if j == 0 { assert(program.funcs@[n + j] == q1[n + j]); }
            else if j == 1 { assert(program.funcs@[n + j] == q2[n + j]); }
            else if j == 2 { assert(program.funcs@[n + j] == q3[n + j]); }
            else if j == 3 { assert(program.funcs@[n + j] == q4[n + j]); }
            else if j == 4 { assert(program.funcs@[n + j] == q5[n + j]); }
            else if j == 5 { assert(program.funcs@[n + j] == q6[n + j]); }
            else if j == 6 { assert(program.funcs@[n + j] == q7[n + j]); }
        }
        assert forall|j: int| 0 <= j < 8 implies name_free(v0, f0, #[trigger] lib_names()[j]) by {
            if j == 0 { assert(name_free(v0, m0, lib_names()[0])); }
            else if j == 1 { assert(name_free(v1, m1, lib_names()[1])); }
            else if j == 2 { assert(name_free(v2, m2, lib_names()[2])); }
            else if j == 3 { assert(name_free(v3, m3, lib_names()[3])); }
            else if j == 4 { assert(name_free(v4, m4, lib_names()[4])); }
            else if j == 5 { assert(name_free(v5, m5, lib_names()[5])); }
            else if j == 6 { assert(name_free(v6, m6, lib_names()[6])); }
            else { assert(name_free(v7, m7, lib_names()[7])); }
        }
        assert(var_map@.scopes.drop_last() =~= old(var_map)@.scopes.drop_last());
        let m = f0.len() as int;
        let mf = function_maps@;
        assert(mf.drop_last() == m7 && m7.drop_last() == m6 && m6.drop_last() == m5 && m5.drop_last() == m4);
        assert(m4.drop_last() == m3 && m3.drop_last() == m2 && m2.drop_last() == m1 && m1.drop_last() == m0);
        assert(mf.subrange(0, m) =~= f0);
        assert forall|j: int| 0 <= j < 8 implies (#[trigger] mf[m + j]).0@ == lib_names()[j] && mf[m + j].1 == n + j by {
            if j == 0 { assert(mf[m + j] == m1.last()); }
            else if j == 1 { assert(mf[m + j] == m2.last()); }
            else if j == 2 { assert(mf[m + j] == m3.last()); }
            else if j == 3 { assert(mf[m + j] == m4.last()); }
            else if j == 4 { assert(mf[m + j] == m5.last()); }
            else if j == 5 { assert(mf[m + j] == m6.last()); }
            else if j == 6 { assert(mf[m + j] == m7.last()); }
        }
        if v0.scopes.len() > 0 {
            let ns = lib_names();
            assert(ns =~= seq![ns[0], ns[1], ns[2], ns[3], ns[4], ns[5], ns[6], ns[7]]);
            assert forall|name: Seq<char>| #[trigger] var_map@.scopes.last().contains_key(name) <==>
                (v0.scopes.last().contains_key(name) || ns.contains(name)) by {
                if ns.contains(name) {
                    let j = choose|j: int| 0 <= j < 8 && ns[j] == name;
                    assert(ns[j] == name);
                }
                if name == ns[0] || name == ns[1] || name == ns[2] || name == ns[3] || name == ns[4] || name == ns[5] || name == ns[6] || name == ns[7] {
                    if name == ns[0] { assert(ns[0] == name); } else if name == ns[1] { assert(ns[1] == name); }
                    else if name == ns[2] { assert(ns[2] == name); } else if name == ns[3] { assert(ns[3] == name); }
                    else if name == ns[4] { assert(ns[4] == name); } else if name == ns[5] { assert(ns[5] == name); }
                    else if name == ns[6] { assert(ns[6] == name); } else { assert(ns[7] == name); }
                }
            }
        }
    }
    Ok(())
}

/// The function definitions among the top-level items, in order.
pub open spec fn func_defs(items: Seq<CompUnitItem>) -> Seq<FuncDef>
    decreases items.len(),
{
    if items.len() == 0 {
        Seq::empty()
    } else {
        let rest = func_defs(items.drop_last());
        match items.last() {
            CompUnitItem::FuncDef(fd) => rest.push(fd),
            CompUnitItem::Decl(_) => rest,
        }
    }
}

/// A program made only of definitions `void f() {}` whose names are
/// pairwise distinct and none of them a library name.
pub open spec fn trivial_program(items: Seq<CompUnitItem>) -> bool {
    &&& forall|i: int| 0 <= i < items.len() ==> (#[trigger] items[i]) is FuncDef
        && items[i]->FuncDef_0.func_params@.len() == 0
        && items[i]->FuncDef_0.block.stmt@.len() == 0
        && items[i]->FuncDef_0.func_type is Void
    &&& forall|a: int, b: int| 0 <= a < b < items.len() ==>
        (#[trigger] items[a])->FuncDef_0.ident@ != (#[trigger] items[b])->FuncDef_0.ident@
    &&& forall|i: int, j: int| 0 <= i < items.len() && 0 <= j < 8 ==>
        (#[trigger] items[i])->FuncDef_0.ident@ != #[trigger] lib_names()[j]
}

proof fn lemma_func_defs_all(items: Seq<CompUnitItem>)
    requires forall|i: int| 0 <= i < items.len() ==> (#[trigger] items[i]) is FuncDef,
    ensures
        func_defs(items).len() == items.len(),
        forall|k: int| 0 <= k < items.len() ==> #[trigger] func_defs(items)[k] == items[k]->FuncDef_0,
    decreases items.len(),
{
    if items.len() > 0 {
        let d = items.drop_last();
        assert forall|i: int| 0 <= i < d.len() implies (#[trigger] d[i]) is FuncDef by { assert(d[i] == items[i]); }
        lemma_func_defs_all(d);
        assert(items.last() is FuncDef);
        assert forall|k: int| 0 <= k < items.len() implies #[trigger] func_defs(items)[k] == items[k]->FuncDef_0 by {
            if k < d.len() { assert(d[k] == items[k]); }
        }
    }
}

/// The IR function made for a function definition has the definition's name
/// behind `@`, its return type, and one parameter per formal parameter.
pub open spec fn declared_as(f: FunctionData, fd: FuncDef) -> bool {
    &&& f.name@ == "@"@ + fd.ident@
    &&& f.ret_ty == spec_type_to_ir(fd.func_type)
    &&& f.params@.len() == fd.func_params@.len()
}

/// Translates a SysY program into IR: the runtime library is declared, every
/// function gets its prototype, then global declarations and function bodies
/// are translated in order. In the program returned, every block of every
/// function ends with a terminator, and every instruction has the type that
/// the IR's typing rules give it.
pub fn gen_ir(cu: CompUnit) -> (r: Result<Program, CompileError>)
    ensures
        r matches Ok(p) ==> forall|j: int| 0 <= j < p.funcs@.len() ==> func_well_terminated(#[trigger] p.funcs@[j]),
        r matches Ok(p) ==> forall|j: int| 0 <= j < p.funcs@.len() ==> well_typed(p.globals@, #[trigger] p.funcs@[j]),
        r matches Ok(p) ==> p.funcs@.len() == 8 + func_defs(cu.items@).len()
            && forall|k: int| 0 <= k < func_defs(cu.items@).len() ==> declared_as(#[trigger] p.funcs@[8 + k], func_defs(cu.items@)[k]),
        r is Ok ==> forall|a: int, b: int| 0 <= a < b < func_defs(cu.items@).len() ==>
            (#[trigger] func_defs(cu.items@)[a]).ident@ != (#[trigger] func_defs(cu.items@)[b]).ident@,
        r matches Ok(p) ==> forall|j: int| 0 <= j < 8 ==> lib_declared(#[trigger] p.funcs@[j], j),
        cu.items@.len() == 0 ==> (r matches Ok(p) && p.funcs@.len() == 8 && p.globals@.len() == 0),
        r is Ok ==> forall|k: int, j: int| 0 <= k < func_defs(cu.items@).len() && 0 <= j < 8 ==>
            (#[trigger] func_defs(cu.items@)[k]).ident@ != #[trigger] lib_names()[j],
        trivial_program(cu.items@) ==> r is Ok,
{
    let ghost tp = trivial_program(cu.items@);
    proof {
        if tp { lemma_func_defs_all(cu.items@); }
    }
    let mut variable_maps = Variables::new();
    variable_maps.enter_scope();
    let mut program = Program::new();
    let mut function_maps: FuncMap = Vec::new();

    proof {
        assert forall|j: int| 0 <= j < 8 implies name_free(variable_maps@, function_maps@, #[trigger] lib_names()[j]) by {}
    }
    match add_sysy_lib_decls(&mut variable_maps, &mut program, &mut function_maps) {
        Ok(()) => {},
        Err(e) => return Err(e),
    }
    proof {
        assert forall|k: int| 0 <= k < 8 implies lib_declared(#[trigger] program.funcs@[k], k) by {
            assert(program.funcs@[0 + k] == program.funcs@[k]);
        }
        assert forall|j: int| 0 <= j < 8 implies (#[trigger] function_maps@[j]).0@ == lib_names()[j] && function_maps@[j].1 == j by {
            assert(function_maps@[0 + j] == function_maps@[j]);
        }
        assert forall|j: int| 0 <= j < 8 implies func_lookup(function_maps@, #[trigger] lib_names()[j]) is Some by {
            assert(function_maps@[j].0@ == lib_names()[j]);
            lemma_lib_names_distinct();
            assert forall|q: int| 0 <= q < j implies (#[trigger] function_maps@[q]).0@ != lib_names()[j] by {
                assert(function_maps@[q].0@ == lib_names()[q]);
            }
            lemma_func_lookup_at(function_maps@, j, lib_names()[j]);
        }
    }

    let n = cu.items.len();
    let mut i: usize = 0;
    while i < n
        invariant
            n == cu.items@.len(),
            i <= n,
            forall|j: int| 0 <= j < program.funcs@.len() ==> (#[trigger] program.funcs@[j]).layout@.len() == 0,
            forall|j: int| 0 <= j < program.funcs@.len() ==> no_insts(#[trigger] program.funcs@[j]),
            program.funcs@.len() == 8 + func_defs(cu.items@.take(i as int)).len(),
            forall|k: int| 0 <= k < func_defs(cu.items@.take(i as int)).len() ==>
                declared_as(#[trigger] program.funcs@[8 + k], func_defs(cu.items@.take(i as int))[k]),
            forall|k: int| 0 <= k < func_defs(cu.items@.take(i as int)).len() ==>
                func_lookup(function_maps@, (#[trigger] func_defs(cu.items@.take(i as int))[k]).ident@) is Some,
            forall|a: int, b: int| 0 <= a < b < func_defs(cu.items@.take(i as int)).len() ==>
                (#[trigger] func_defs(cu.items@.take(i as int))[a]).ident@ != (#[trigger] func_defs(cu.items@.take(i as int))[b]).ident@,
            forall|k: int| 0 <= k < 8 ==> lib_declared(#[trigger] program.funcs@[k], k),
            n == 0 ==> program.globals@.len() == 0,
            forall|j: int| 0 <= j < 8 ==> func_lookup(function_maps@, #[trigger] lib_names()[j]) is Some,
            forall|k: int, j: int| 0 <= k < func_defs(cu.items@.take(i as int)).len() && 0 <= j < 8 ==>
                (#[trigger] func_defs(cu.items@.take(i as int))[k]).ident@ != #[trigger] lib_names()[j],
            tp == trivial_program(cu.items@),
            tp ==> func_defs(cu.items@).len() == n && forall|k: int| 0 <= k < n ==> #[trigger] func_defs(cu.items@)[k] == cu.items@[k]->FuncDef_0,
            tp ==> function_maps@.len() == 8 + i
                && (forall|j: int| 0 <= j < 8 ==> (#[trigger] function_maps@[j]).0@ == lib_names()[j])
                && (forall|k: int| 0 <= k < i ==> (#[trigger] function_maps@[8 + k]).0@ == cu.items@[k]->FuncDef_0.ident@
                    && function_maps@[8 + k].1 == 8 + k),
            tp ==> variable_maps@.scopes.len() == 1 && forall|name: Seq<char>| #[trigger] variable_maps@.scopes.last().contains_key(name) ==>
                lib_names().contains(name) || exists|k: int| 0 <= k < i && cu.items@[k]->FuncDef_0.ident@ == name,
            tp ==> forall|k: int| 0 <= k < i ==> (#[trigger] program.funcs@[8 + k]).bbs@.len() == 0 && program.funcs@[8 + k].values@.len() == 0,
        decreases n - i,
    {
        let ghost pre = cu.items@.take(i as int);
        proof {
            if tp {
                lemma_func_defs_all(pre);
                assert forall|k: int| 0 <= k < pre.len() implies #[trigger] pre[k] is FuncDef by {}
            }
        }
        let ghost funcs_before = program.funcs@;
        assert(cu.items@.take(i + 1).drop_last() =~= pre);
        if let CompUnitItem::FuncDef(fd) = &cu.items[i] {
            let mut params: Vec<(Option<String>, Ty)> = Vec::new();
            let m = fd.func_params.len();
            proof {
                if tp { assert(*fd == cu.items@[i as int]->FuncDef_0); }
            }
            let mut k: usize = 0;
            while k < m
                invariant m == fd.func_params@.len(), k <= m, params@.len() == k, n == cu.items@.len(), i < n,
                    tp ==> m == 0, tp == trivial_program(cu.items@),
                decreases m - k,
            {
                let p = &fd.func_params[k];
                let ty = func_param_type_to_ir(p, &variable_maps)?;
                params.push((Some(prefixed("%", p.id.as_str())), ty));
                k = k + 1;
            }
            let ret_ty = type_to_ir(&fd.func_type);
            let data = FunctionData::with_param_names(prefixed("@", fd.ident.as_str()), params, ret_ty)?;
            assert forall|q: int| 0 <= q < data.values@.len() implies !is_inst_kind(#[trigger] data.values@[q].kind) by {
                assert(data.params@[q] == Value::Local(q as usize));
            }
            let f = program.new_func(data);
            proof {
                if tp {
                    assert(*fd == cu.items@[i as int]->FuncDef_0);
                    lemma_lib_names_distinct();
                    assert forall|j: int| 0 <= j < function_maps@.len() implies (#[trigger] function_maps@[j]).0@ != fd.ident@ by {
                        if j < 8 {
                            assert(function_maps@[j].0@ == lib_names()[j]);
                        } else {
                            assert(function_maps@[8 + (j - 8)].0@ == cu.items@[j - 8]->FuncDef_0.ident@);
                        }
                    }
                    lemma_func_lookup_none(function_maps@, fd.ident@);
                }
            }
            if get_func(&function_maps, &fd.ident).is_some() {
                return Err(CompileError::DuplicateFunction);
            }
            proof {
                assert forall|j: int| 0 <= j < 8 implies fd.ident@ != #[trigger] lib_names()[j] by {
                    if fd.ident@ == lib_names()[j] {
                        assert(func_lookup(function_maps@, lib_names()[j]) is Some);
                    }
                }
            }
            let ghost fm0 = function_maps@;
            let key = fd.ident.clone();
            function_maps.push((key, f));
            proof {
                lemma_func_lookup_push(fm0, (key, f), fd.ident@);
                assert forall|k: int| 0 <= k < func_defs(pre).len() implies
                    func_lookup(function_maps@, (#[trigger] func_defs(pre)[k]).ident@) is Some by {
                    lemma_func_lookup_push(fm0, (key, f), func_defs(pre)[k].ident@);
                }
                assert forall|j: int| 0 <= j < 8 implies func_lookup(function_maps@, #[trigger] lib_names()[j]) is Some by {
                    lemma_func_lookup_push(fm0, (key, f), lib_names()[j]);
                }
                if tp {
                    assert forall|j: int| 0 <= j < 8 implies (#[trigger] function_maps@[j]).0@ == lib_names()[j] by {
                        assert(function_maps@[j] == fm0[j]);
                    }
                    assert forall|k: int| 0 <= k < i + 1 implies (#[trigger] function_maps@[8 + k]).0@ == cu.items@[k]->FuncDef_0.ident@
                        && function_maps@[8 + k].1 == 8 + k by {
                        if k < i { assert(function_maps@[8 + k] == fm0[8 + k]); }
                    }
                }
            }
            let ghost vm0 = variable_maps@;
            proof {
                if tp {
                    if variable_maps@.scopes.last().contains_key(fd.ident@) {
                        if lib_names().contains(fd.ident@) {
                            let j = choose|j: int| 0 <= j < lib_names().len() && lib_names()[j] == fd.ident@;
                            assert(cu.items@[i as int]->FuncDef_0.ident@ != lib_names()[j]);
                        } else {
                            let k = choose|k: int| 0 <= k < i && cu.items@[k]->FuncDef_0.ident@ == fd.ident@;
                            assert(cu.items@[k]->FuncDef_0.ident@ != cu.items@[i as int]->FuncDef_0.ident@);
                        }
                    }
                }
            }
            if variable_maps.contains_in_current_scope(fd.ident.as_str()) {
                return Err(CompileError::DuplicateSymbol);
            }
            variable_maps.insert(fd.ident.clone(), SymbolInfo::Func);
            proof {
                if tp {
                    assert forall|name: Seq<char>| #[trigger] variable_maps@.scopes.last().contains_key(name) implies
                        lib_names().contains(name) || exists|k: int| 0 <= k < i + 1 && cu.items@[k]->FuncDef_0.ident@ == name by {
                        if name != fd.ident@ {
                            assert(vm0.scopes.last().contains_key(name));
                        } else {
                            assert(cu.items@[i as int]->FuncDef_0.ident@ == name);
                        }
                    }
                }
            }
            proof {
                assert(func_defs(cu.items@.take(i + 1)) == func_defs(pre).push(*fd));
                assert forall|k: int| 0 <= k < func_defs(pre).len() implies
                    (#[trigger] func_defs(pre)[k]).ident@ != fd.ident@ by {
                    assert(func_lookup(fm0, func_defs(pre)[k].ident@) is Some);
                }
                assert forall|k: int| 0 <= k < func_defs(cu.items@.take(i + 1)).len() implies
                    declared_as(#[trigger] program.funcs@[8 + k], func_defs(cu.items@.take(i + 1))[k]) by {
                    if k < func_defs(pre).len() {
                        assert(program.funcs@[8 + k] == funcs_before[8 + k]);
                    } else {
                        assert(program.funcs@[8 + k] == data);
                    }
                }
                assert forall|k: int, j: int| 0 <= k < func_defs(cu.items@.take(i + 1)).len() && 0 <= j < 8 implies
                    (#[trigger] func_defs(cu.items@.take(i + 1))[k]).ident@ != #[trigger] lib_names()[j] by {
                    if k < func_defs(pre).len() {
                        assert(func_defs(cu.items@.take(i + 1))[k] == func_defs(pre)[k]);
                    }
                }
                if tp {
                    assert forall|k: int| 0 <= k < i + 1 implies (#[trigger] program.funcs@[8 + k]).bbs@.len() == 0
                        && program.funcs@[8 + k].values@.len() == 0 by {
                        if k < i { assert(program.funcs@[8 + k] == funcs_before[8 + k]); }
                        else { assert(program.funcs@[8 + k] == data); }
                    }
                }
            }
        } else {
            proof {
                assert(func_defs(cu.items@.take(i + 1)) == func_defs(pre));
            }
        }
        i = i + 1;
    }
    assert(cu.items@.take(n as int) =~= cu.items@);

    proof {
        assert forall|j: int| 0 <= j < program.funcs@.len() implies well_typed(program.globals@, #[trigger] program.funcs@[j]) by {
            lemma_no_insts_wt(program.globals@, program.funcs@[j]);
        }
    }
    let ghost pf = program.funcs@;
    let ghost fm1 = function_maps@;
    let mut i: usize = 0;
    while i < n
        invariant
            n == cu.items@.len(),
            i <= n,
            tp == trivial_program(cu.items@),
            function_maps@ == fm1,
            tp ==> func_defs(cu.items@).len() == n && forall|k: int| 0 <= k < n ==> #[trigger] func_defs(cu.items@)[k] == cu.items@[k]->FuncDef_0,
            tp ==> fm1.len() == 8 + n
                && (forall|j: int| 0 <= j < 8 ==> (#[trigger] fm1[j]).0@ == lib_names()[j])
                && (forall|k: int| 0 <= k < n ==> (#[trigger] fm1[8 + k]).0@ == cu.items@[k]->FuncDef_0.ident@ && fm1[8 + k].1 == 8 + k),
            tp ==> forall|k: int| 0 <= k < n ==> (#[trigger] pf[8 + k]).bbs@.len() == 0 && pf[8 + k].values@.len() == 0
                && pf[8 + k].layout@.len() == 0,
            tp ==> forall|k: int| i <= k < n ==> #[trigger] program.funcs@[8 + k] == pf[8 + k],
            forall|j: int| 0 <= j < program.funcs@.len() ==> func_well_terminated(#[trigger] program.funcs@[j]),
            forall|j: int| 0 <= j < program.funcs@.len() ==> well_typed(program.globals@, #[trigger] program.funcs@[j]),
            program.funcs@.len() == 8 + func_defs(cu.items@).len(),
            forall|k: int| 0 <= k < func_defs(cu.items@).len() ==> declared_as(#[trigger] program.funcs@[8 + k], func_defs(cu.items@)[k]),
            forall|k: int| 0 <= k < 8 ==> lib_declared(#[trigger] program.funcs@[k], k),
            n == 0 ==> program.globals@.len() == 0,
        decreases n - i,
    {
        match &cu.items[i] {
            CompUnitItem::FuncDef(func_def) => {
                let ghost before = program.funcs@;
                proof {
                    if tp {
                        assert(*func_def == cu.items@[i as int]->FuncDef_0);
                        lemma_lib_names_distinct();
                        assert forall|j: int| 0 <= j < 8 + i implies (#[trigger] fm1[j]).0@ != func_def.ident@ by {
                            if j < 8 {
                                assert(fm1[j].0@ == lib_names()[j]);
                            } else {
                                assert(fm1[8 + (j - 8)].0@ == cu.items@[j - 8]->FuncDef_0.ident@);
                            }
                        }
                        assert(fm1[8 + i].0@ == func_def.ident@);
                        lemma_func_lookup_at(fm1, 8 + i, func_def.ident@);
                        assert(program.funcs@[8 + i] == pf[8 + i]);
                    }
                }
                process_func(&mut variable_maps, &mut program, func_def, &function_maps)?;
                proof {
                    let h = func_lookup(function_maps@, func_def.ident@)->Some_0 as int;
                    if tp {
                        assert forall|k: int| i + 1 <= k < n implies #[trigger] program.funcs@[8 + k] == pf[8 + k] by {
                            assert(program.funcs@[8 + k] == before[8 + k]);
                        }
                    }
                    assert forall|j: int| 0 <= j < program.funcs@.len() implies func_well_terminated(#[trigger] program.funcs@[j]) by {
                        if j != h { assert(program.funcs@[j] == before[j]); }
                    }
                    assert forall|j: int| 0 <= j < program.funcs@.len() implies well_typed(program.globals@, #[trigger] program.funcs@[j]) by {
                        if j != h { assert(program.funcs@[j] == before[j]); }
                    }
                    assert forall|k: int| 0 <= k < func_defs(cu.items@).len() implies
                        declared_as(#[trigger] program.funcs@[8 + k], func_defs(cu.items@)[k]) by {
                        assert(declared_as(before[8 + k], func_defs(cu.items@)[k]));
                        if 8 + k != h { assert(program.funcs@[8 + k] == before[8 + k]); }
                    }
                }
            },
            CompUnitItem::Decl(decl) => {
                let ghost g0 = program.globals@;
                process_global_decl(&mut variable_maps, &mut program, decl)?;
                proof {
                    assert forall|j: int| 0 <= j < program.funcs@.len() implies well_typed(program.globals@, #[trigger] program.funcs@[j]) by {
                        lemma_extends_refl(program.funcs@[j]);
                        lemma_wt_mono(g0, program.globals@, program.funcs@[j], program.funcs@[j]);
                    }
                }
            },
        }
        i = i + 1;
    }
    Ok(program)
}

} // verus!
