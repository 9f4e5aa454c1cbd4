//! Readable renderings of the syntax tree, as the front end prints it when
//! tracing: expressions in prefix-free parenthesized form, statements as in
//! the source, blocks as numbered item lists.
use crate::ast::{
    BinaryOp, Block, BlockItem, CompUnit, CompUnitItem, ConstDecl, ConstDef, ConstExp, ConstInitVal, Decl, Exp, FuncDef,
    FuncFParam, InitVal, LVal, RawType, Stmt, UnaryOp, VarDecl, VarDef, IF, WHILE,
};
use crate::util::{append_i32, append_usize, dec_int, dec_nat};
use vstd::prelude::*;

verus! {

/// The text that `{:?}` gives for a string: the characters in double quotes,
/// those that need it escaped.
pub uninterp spec fn str_debug_text(s: Seq<char>) -> Seq<char>;

/// `format!("{:?}", s)` from std: a quoted, escaped copy of `s`.
#[verifier::external_body]
fn debug_str(s: &str) -> (r: String)
    ensures r@ == str_debug_text(s@),
{
    format!("{:?}", s)
}

/// The operator of a unary expression.
pub open spec fn unop_text(op: UnaryOp) -> Seq<char> {
    match op {
        UnaryOp::Plus => "+"@,
        UnaryOp::Minus => "-"@,
        UnaryOp::Not => "not"@,
    }
}

/// The operator of a binary expression.
pub open spec fn binop_text(op: BinaryOp) -> Seq<char> {
    match op {
        BinaryOp::Add => "+"@,
        BinaryOp::Sub => "-"@,
        BinaryOp::Mul => "*"@,
        BinaryOp::Div => "/"@,
        BinaryOp::Mod => "%"@,
        BinaryOp::Lt => "<"@,
        BinaryOp::Gt => ">"@,
        BinaryOp::Le => "<="@,
        BinaryOp::Ge => ">="@,
        BinaryOp::Eq => "=="@,
        BinaryOp::Neq => "!="@,
        BinaryOp::Land => "&&"@,
        BinaryOp::Lor => "||"@,
    }
}

/// A type keyword.
pub open spec fn raw_type_text(t: RawType) -> Seq<char> {
    match t {
        RawType::Int => "int"@,
        RawType::Void => "void"@,
    }
}

/// An expression: numbers and names as written, operations in parentheses
/// (`(op e)`, `(l op r)`), calls as `f(a, b)`.
pub open spec fn exp_text(e: Exp) -> Seq<char>
    decreases e, 0int,
{
    match e {
        Exp::Number(n) => dec_int(n as int),
        Exp::Var(s) => s@,
        Exp::LVal(lv) => lval_text(lv),
        Exp::Unary { op, exp } => "("@ + unop_text(op) + " "@ + exp_text(*exp) + ")"@,
        Exp::Binary { op, lhs, rhs } => "("@ + exp_text(*lhs) + " "@ + binop_text(op) + " "@ + exp_text(*rhs) + ")"@,
        Exp::Call { ident, args } => ident@ + "("@ + args_text(args@, args@.len() as int) + ")"@,
    }
}

/// The first `n` arguments of a call, separated by `, `.
pub open spec fn args_text(es: Seq<Exp>, n: int) -> Seq<char>
    decreases es, n,
{
    if n <= 0 || n > es.len() {
        Seq::<char>::empty()
    } else if n == 1 {
        exp_text(es[0])
    } else {
        args_text(es, n - 1) + ", "@ + exp_text(es[n - 1])
    }
}

/// A left value: its name, then each index in brackets.
pub open spec fn lval_text(lv: LVal) -> Seq<char>
    decreases lv, 0int,
{
    lv.ident@ + indices_text(lv.indices@, lv.indices@.len() as int)
}

/// The first `n` indices, each in brackets.
pub open spec fn indices_text(es: Seq<Exp>, n: int) -> Seq<char>
    decreases es, n,
{
    if n <= 0 || n > es.len() {
        Seq::<char>::empty()
    } else {
        indices_text(es, n - 1) + "["@ + exp_text(es[n - 1]) + "]"@
    }
}

impl Exp {
    /// The rendering of the expression.
    pub fn debug_string(&self) -> (r: String)
        ensures r@ == exp_text(*self),
        decreases *self, 0int,
    {
        let mut s = String::new();
        match self {
            Exp::Number(n) => {
                append_i32(&mut s, *n);
            },
            Exp::Var(v) => {
                s.append(v.as_str());
            },
            Exp::LVal(lv) => {
                s = lv.debug_string();
            },
            Exp::Unary { op, exp } => {
                s.append("(");
                let o = op.debug_string();
                s.append(o.as_str());
                s.append(" ");
                let e = exp.debug_string();
                s.append(e.as_str());
                s.append(")");
            },
            Exp::Binary { op, lhs, rhs } => {
                s.append("(");
                let l = lhs.debug_string();
                s.append(l.as_str());
                s.append(" ");
                let o = op.debug_string();
                s.append(o.as_str());
                s.append(" ");
                let r = rhs.debug_string();
                s.append(r.as_str());
                s.append(")");
            },
            Exp::Call { ident, args } => {
                s.append(ident.as_str());
                s.append("(");
                let n = args.len();
                let mut i: usize = 0;
                let ghost s0 = s@;
                while i < n
                    invariant
                        n == args@.len(), i <= n,
                        s@ == s0 + args_text(args@, i as int),
                        *self == (Exp::Call { ident: *ident, args: *args }),
                    decreases n - i,
                {
                    if i != 0 {
                        s.append(", ");
                    }
                    proof {
                        assert(decreases_to!(*self => (*self)->Call_args));
                        assert(decreases_to!((*self)->Call_args => (*self)->Call_args@));
                        assert(decreases_to!(*self => args@[i as int]));
                    }
                    let a = args[i].debug_string();
                    s.append(a.as_str());
                    i = i + 1;
                }
                s.append(")");
            },
        }
        assert(s@ =~= exp_text(*self));
        s
    }
}

impl LVal {
    /// The rendering of the left value.
    pub fn debug_string(&self) -> (r: String)
        ensures r@ == lval_text(*self),
        decreases *self, 0int,
    {
        let mut s = String::new();
        s.append(self.ident.as_str());
        let n = self.indices.len();
        let mut i: usize = 0;
        let ghost s0 = s@;
        while i < n
            invariant
                n == self.indices@.len(), i <= n,
                s@ == s0 + indices_text(self.indices@, i as int),
            decreases n - i,
        {
            s.append("[");
            proof { assert(decreases_to!(*self => self.indices@[i as int])); }
            let e = self.indices[i].debug_string();
            s.append(e.as_str());
            s.append("]");
            i = i + 1;
        }
        s
    }
}

impl UnaryOp {
    /// The operator's symbol (`not` for logical negation).
    pub fn debug_string(&self) -> (r: String)
        ensures r@ == unop_text(*self),
    {
        match self {
            UnaryOp::Plus => String::from_str("+"),
            UnaryOp::Minus => String::from_str("-"),
            UnaryOp::Not => String::from_str("not"),
        }
    }
}

impl BinaryOp {
    /// The operator's symbol.
    pub fn debug_string(&self) -> (r: String)
        ensures r@ == binop_text(*self),
    {
        match self {
            BinaryOp::Add => String::from_str("+"),
            BinaryOp::Sub => String::from_str("-"),
            BinaryOp::Mul => String::from_str("*"),
            BinaryOp::Div => String::from_str("/"),
            BinaryOp::Mod => String::from_str("%"),
            BinaryOp::Lt => String::from_str("<"),
            BinaryOp::Gt => String::from_str(">"),
            BinaryOp::Le => String::from_str("<="),
            BinaryOp::Ge => String::from_str(">="),
            BinaryOp::Eq => String::from_str("=="),
            BinaryOp::Neq => String::from_str("!="),
            BinaryOp::Land => String::from_str("&&"),
            BinaryOp::Lor => String::from_str("||"),
        }
    }
}

impl RawType {
    /// The type keyword.
    pub fn debug_string(&self) -> (r: String)
        ensures r@ == raw_type_text(*self),
    {
        match self {
            RawType::Int => String::from_str("int"),
            RawType::Void => String::from_str("void"),
        }
    }
}


/// Array lengths, each in brackets.
pub open spec fn lens_text(ls: Seq<ConstExp>, n: int) -> Seq<char>
    decreases n,
{
    if n <= 0 || n > ls.len() {
        Seq::<char>::empty()
    } else {
        lens_text(ls, n - 1) + "["@ + exp_text(ls[n - 1].exp) + "]"@
    }
}

/// Renderings separated by `, `.
pub open spec fn joined(items: Seq<Seq<char>>) -> Seq<char>
    decreases items.len(),
{
    if items.len() == 0 {
        Seq::<char>::empty()
    } else if items.len() == 1 {
        items[0]
    } else {
        joined(items.drop_last()) + ", "@ + items.last()
    }
}

/// A list as `{:?}` shows one: `[a, b, c]`.
pub open spec fn list_text(items: Seq<Seq<char>>) -> Seq<char> {
    "["@ + joined(items) + "]"@
}

/// A constant initializer: an expression, or a list of initializers.
pub open spec fn const_init_text(c: ConstInitVal) -> Seq<char>
    decreases c, 0int,
{
    match c {
        ConstInitVal::Exp(e) => exp_text(e.exp),
        ConstInitVal::List(l) => "["@ + const_inits_text(l@, l@.len() as int) + "]"@,
    }
}

/// The first `n` constant initializers, separated by `, `.
pub open spec fn const_inits_text(cs: Seq<ConstInitVal>, n: int) -> Seq<char>
    decreases cs, n,
{
    if n <= 0 || n > cs.len() {
        Seq::<char>::empty()
    } else if n == 1 {
        const_init_text(cs[0])
    } else {
        const_inits_text(cs, n - 1) + ", "@ + const_init_text(cs[n - 1])
    }
}

/// An initializer: an expression, or a list of initializers.
pub open spec fn init_text(c: InitVal) -> Seq<char>
    decreases c, 0int,
{
    match c {
        InitVal::Exp(e) => exp_text(e),
        InitVal::List(l) => "["@ + inits_text(l@, l@.len() as int) + "]"@,
    }
}

/// The first `n` initializers, separated by `, `.
pub open spec fn inits_text(cs: Seq<InitVal>, n: int) -> Seq<char>
    decreases cs, n,
{
    if n <= 0 || n > cs.len() {
        Seq::<char>::empty()
    } else if n == 1 {
        init_text(cs[0])
    } else {
        inits_text(cs, n - 1) + ", "@ + init_text(cs[n - 1])
    }
}

/// A constant definition: `name[len]... = init`.
pub open spec fn const_def_text(d: ConstDef) -> Seq<char> {
    d.ident@ + lens_text(d.array_lens@, d.array_lens@.len() as int) + " = "@ + const_init_text(d.init_val)
}

/// A variable definition: `name[len]... = init`, or `name[len]..., no
/// evaluation!` without an initializer.
pub open spec fn var_def_text(d: VarDef) -> Seq<char> {
    let name = d.ident@ + lens_text(d.array_lens@, d.array_lens@.len() as int);
    match d.init_val {
        None => name + ", no evaluation!"@,
        Some(i) => name + " = "@ + init_text(i),
    }
}

/// `const <type> [defs]`.
pub open spec fn const_decl_text(d: ConstDecl) -> Seq<char> {
    "const "@ + raw_type_text(d.typ) + " "@ + list_text(d.defs@.map_values(|x: ConstDef| const_def_text(x)))
}

/// `Var <type> [defs]`.
pub open spec fn var_decl_text(d: VarDecl) -> Seq<char> {
    "Var "@ + raw_type_text(d.typ) + " "@ + list_text(d.defs@.map_values(|x: VarDef| var_def_text(x)))
}

/// A declaration.
pub open spec fn decl_text(d: Decl) -> Seq<char> {
    match d {
        Decl::Const(c) => const_decl_text(c),
        Decl::Var(v) => var_decl_text(v),
    }
}

/// A statement as in the source.
pub open spec fn stmt_text(s: Stmt) -> Seq<char>
    decreases s, 0int,
{
    match s {
        Stmt::Block(b) => "{ "@ + block_text(b) + " }"@,
        Stmt::Assign { lval, exp } => lval_text(lval) + " = "@ + exp_text(exp) + ";"@,
        Stmt::Exp(Some(e)) => exp_text(e) + ";"@,
        Stmt::Exp(None) => ";"@,
        Stmt::Return(Some(e)) => "return "@ + exp_text(e) + ";"@,
        Stmt::Return(None) => "return;"@,
        Stmt::IF(i) => if_text(*i),
        Stmt::WHILE(w) => while_text(*w),
        Stmt::Break => "break;"@,
        Stmt::Continue => "continue;"@,
    }
}

/// `if (cond) then`, or with an `else` branch over three lines.
pub open spec fn if_text(i: IF) -> Seq<char>
    decreases i, 0int,
{
    match i.else_stmt {
        Some(e) => "if: ("@ + exp_text(i.cond) + ") \n  "@ + stmt_text(i.then_stmt) + " \n  else: "@ + stmt_text(e),
        None => "if ("@ + exp_text(i.cond) + ") "@ + stmt_text(i.then_stmt),
    }
}

/// `while (cond) body`.
pub open spec fn while_text(w: WHILE) -> Seq<char>
    decreases w, 0int,
{
    "while ("@ + exp_text(w.cond) + ") "@ + stmt_text(w.body_while)
}

/// A block: its items numbered from 0, one per line.
pub open spec fn block_text(b: Block) -> Seq<char>
    decreases b, 0int,
{
    "Vec<BlockItem>:[\n"@ + items_text(b.stmt@, b.stmt@.len() as int) + "]"@
}

/// The first `n` items of a block, numbered.
pub open spec fn items_text(items: Seq<BlockItem>, n: int) -> Seq<char>
    decreases items, n,
{
    if n <= 0 || n > items.len() {
        Seq::<char>::empty()
    } else {
        items_text(items, n - 1) + "  item#"@ + dec_nat((n - 1) as nat) + ": "@ + block_item_text(items[n - 1]) + "\n"@
    }
}

/// A block item: `Decl: ...` or `Stmt: ...`.
pub open spec fn block_item_text(i: BlockItem) -> Seq<char>
    decreases i, 0int,
{
    match i {
        BlockItem::Decl(d) => "Decl: "@ + decl_text(d),
        BlockItem::Stmt(s) => "Stmt: "@ + stmt_text(s),
    }
}

/// A formal parameter: `<type> name`, or `<type> name[][len]...` for an
/// array.
pub open spec fn param_text(p: FuncFParam) -> Seq<char> {
    if p.is_array {
        raw_type_text(p.bt) + " "@ + p.id@ + "[]"@ + lens_text(p.array_lens@, p.array_lens@.len() as int)
    } else {
        raw_type_text(p.bt) + " "@ + p.id@
    }
}

/// A function definition in the struct form of `{:?}`.
pub open spec fn func_def_text(f: FuncDef) -> Seq<char> {
    "FuncDef { func_type: "@ + raw_type_text(f.func_type) + ", ident: "@ + str_debug_text(f.ident@) + ", func_params: "@
        + list_text(f.func_params@.map_values(|p: FuncFParam| param_text(p))) + ", block: "@ + block_text(f.block) + " }"@
}

/// A top-level item.
pub open spec fn comp_unit_item_text(i: CompUnitItem) -> Seq<char> {
    match i {
        CompUnitItem::Decl(d) => "TopDecl: "@ + decl_text(d),
        CompUnitItem::FuncDef(f) => "TopFunc: "@ + func_def_text(f),
    }
}

/// A translation unit: `CompUnit { [items] }`.
pub open spec fn comp_unit_text(c: CompUnit) -> Seq<char> {
    "CompUnit { "@ + list_text(c.items@.map_values(|i: CompUnitItem| comp_unit_item_text(i))) + " }"@
}

proof fn lemma_joined_push(items: Seq<Seq<char>>, x: Seq<char>)
    ensures joined(items.push(x)) == if items.len() == 0 { x } else { joined(items) + ", "@ + x },
{
    assert(items.push(x).drop_last() =~= items);
}

fn append_lens(s: &mut String, ls: &Vec<ConstExp>)
    ensures final(s)@ == old(s)@ + lens_text(ls@, ls@.len() as int),
{
    let n = ls.len();
    let mut i: usize = 0;
    let ghost s0 = s@;
    while i < n
        invariant
            n == ls@.len(), i <= n,
            s@ == s0 + lens_text(ls@, i as int),
        decreases n - i,
    {
        s.append("[");
        let e = ls[i].debug_string();
        s.append(e.as_str());
        s.append("]");
        i = i + 1;
    }
}

impl ConstExp {
    /// The rendering of the expression.
    pub fn debug_string(&self) -> (r: String)
        ensures r@ == exp_text(self.exp),
    {
        self.exp.debug_string()
    }
}

impl ConstInitVal {
    /// The rendering of the initializer.
    pub fn debug_string(&self) -> (r: String)
        ensures r@ == const_init_text(*self),
        decreases *self, 0int,
    {
        match self {
            ConstInitVal::Exp(e) => e.debug_string(),
            ConstInitVal::List(l) => {
                let mut s = String::new();
                s.append("[");
                let ghost s0 = s@;
                let n = l.len();
                let mut i: usize = 0;
                while i < n
                    invariant
                        n == l@.len(), i <= n,
                        s@ == s0 + const_inits_text(l@, i as int),
                        *self == ConstInitVal::List(*l),
                    decreases n - i,
                {
                    if i != 0 {
                        s.append(", ");
                    }
                    proof {
                        assert(decreases_to!(*self => (*self)->List_0));
                        assert(decreases_to!((*self)->List_0 => (*self)->List_0@));
                    }
                    let t = l[i].debug_string();
                    s.append(t.as_str());
                    i = i + 1;
                }
                s.append("]");
                s
            },
        }
    }
}

impl InitVal {
    /// The rendering of the initializer.
    pub fn debug_string(&self) -> (r: String)
        ensures r@ == init_text(*self),
        decreases *self, 0int,
    {
        match self {
            InitVal::Exp(e) => e.debug_string(),
            InitVal::List(l) => {
                let mut s = String::new();
                s.append("[");
                let ghost s0 = s@;
                let n = l.len();
                let mut i: usize = 0;
                while i < n
                    invariant
                        n == l@.len(), i <= n,
                        s@ == s0 + inits_text(l@, i as int),
                        *self == InitVal::List(*l),
                    decreases n - i,
                {
                    if i != 0 {
                        s.append(", ");
                    }
                    proof {
                        assert(decreases_to!(*self => (*self)->List_0));
                        assert(decreases_to!((*self)->List_0 => (*self)->List_0@));
                    }
                    let t = l[i].debug_string();
                    s.append(t.as_str());
                    i = i + 1;
                }
                s.append("]");
                s
            },
        }
    }
}

impl ConstDef {
    /// The rendering of the definition.
    pub fn debug_string(&self) -> (r: String)
        ensures r@ == const_def_text(*self),
    {
        let mut s = String::new();
        s.append(self.ident.as_str());
        append_lens(&mut s, &self.array_lens);
        s.append(" = ");
        let t = self.init_val.debug_string();
        s.append(t.as_str());
        s
    }
}

impl VarDef {
    /// The rendering of the definition.
    pub fn debug_string(&self) -> (r: String)
        ensures r@ == var_def_text(*self),
    {
        let mut s = String::new();
        s.append(self.ident.as_str());
        append_lens(&mut s, &self.array_lens);
        match &self.init_val {
            None => {
                s.append(", no evaluation!");
            },
            Some(i) => {
                s.append(" = ");
                let t = i.debug_string();
                s.append(t.as_str());
            },
        }
        s
    }
}

impl ConstDecl {
    /// The rendering of the declaration.
    pub fn debug_string(&self) -> (r: String)
        ensures r@ == const_decl_text(*self),
    {
        let mut s = String::new();
        s.append("const ");
        let t = self.typ.debug_string();
        s.append(t.as_str());
        s.append(" ");
        s.append("[");
        let ghost s0 = s@;
        let ghost items = self.defs@.map_values(|x: ConstDef| const_def_text(x));
        let n = self.defs.len();
        let mut i: usize = 0;
        while i < n
            invariant
                n == self.defs@.len(), i <= n,
                items == self.defs@.map_values(|x: ConstDef| const_def_text(x)),
                s@ == s0 + joined(items.take(i as int)),
            decreases n - i,
        {
            if i != 0 {
                s.append(", ");
            }
            let d = self.defs[i].debug_string();
            s.append(d.as_str());
            proof {
                lemma_joined_push(items.take(i as int), items[i as int]);
                assert(items.take(i as int).push(items[i as int]) =~= items.take(i + 1));
            }
            i = i + 1;
        }
        s.append("]");
        assert(items.take(n as int) =~= items);
        s
    }
}

impl VarDecl {
    /// The rendering of the declaration.
    pub fn debug_string(&self) -> (r: String)
        ensures r@ == var_decl_text(*self),
    {
        let mut s = String::new();
        s.append("Var ");
        let t = self.typ.debug_string();
        s.append(t.as_str());
        s.append(" ");
        s.append("[");
        let ghost s0 = s@;
        let ghost items = self.defs@.map_values(|x: VarDef| var_def_text(x));
        let n = self.defs.len();
        let mut i: usize = 0;
        while i < n
            invariant
                n == self.defs@.len(), i <= n,
                items == self.defs@.map_values(|x: VarDef| var_def_text(x)),
                s@ == s0 + joined(items.take(i as int)),
            decreases n - i,
        {
            if i != 0 {
                s.append(", ");
            }
            let d = self.defs[i].debug_string();
            s.append(d.as_str());
            proof {
                lemma_joined_push(items.take(i as int), items[i as int]);
                assert(items.take(i as int).push(items[i as int]) =~= items.take(i + 1));
            }
            i = i + 1;
        }
        s.append("]");
        assert(items.take(n as int) =~= items);
        s
    }
}

impl Decl {
    /// The rendering of the declaration.
    pub fn debug_string(&self) -> (r: String)
        ensures r@ == decl_text(*self),
    {
        match self {
            Decl::Const(c) => c.debug_string(),
            Decl::Var(v) => v.debug_string(),
        }
    }
}


impl Stmt {
    /// The rendering of the statement.
    pub fn debug_string(&self) -> (r: String)
        ensures r@ == stmt_text(*self),
        decreases *self, 0int,
    {
        let mut s = String::new();
        match self {
            Stmt::Block(b) => {
                s.append("{ ");
                let t = b.debug_string();
                s.append(t.as_str());
                s.append(" }");
            },
            Stmt::Assign { lval, exp } => {
                let l = lval.debug_string();
                s.append(l.as_str());
                s.append(" = ");
                let e = exp.debug_string();
                s.append(e.as_str());
                s.append(";");
            },
            Stmt::Exp(Some(e)) => {
                let t = e.debug_string();
                s.append(t.as_str());
                s.append(";");
            },
            Stmt::Exp(None) => {
                s.append(";");
            },
            Stmt::Return(Some(e)) => {
                s.append("return ");
                let t = e.debug_string();
                s.append(t.as_str());
                s.append(";");
            },
            Stmt::Return(None) => {
                s.append("return;");
            },
            Stmt::IF(i) => {
                s = i.debug_string();
            },
            Stmt::WHILE(w) => {
                s = w.debug_string();
            },
            Stmt::Break => {
                s.append("break;");
            },
            Stmt::Continue => {
                s.append("continue;");
            },
        }
        assert(s@ =~= stmt_text(*self));
        s
    }
}

impl IF {
    /// The rendering of the `if` statement.
    pub fn debug_string(&self) -> (r: String)
        ensures r@ == if_text(*self),
        decreases *self, 0int,
    {
        let mut s = String::new();
        match &self.else_stmt {
            Some(e) => {
                s.append("if: (");
                let c = self.cond.debug_string();
                s.append(c.as_str());
                s.append(") \n  ");
                let t = self.then_stmt.debug_string();
                s.append(t.as_str());
                s.append(" \n  else: ");
                let u = e.debug_string();
                s.append(u.as_str());
            },
            None => {
                s.append("if (");
                let c = self.cond.debug_string();
                s.append(c.as_str());
                s.append(") ");
                let t = self.then_stmt.debug_string();
                s.append(t.as_str());
            },
        }
        assert(s@ =~= if_text(*self));
        s
    }
}

impl WHILE {
    /// The rendering of the `while` statement.
    pub fn debug_string(&self) -> (r: String)
        ensures r@ == while_text(*self),
        decreases *self, 0int,
    {
        let mut s = String::new();
        s.append("while (");
        let c = self.cond.debug_string();
        s.append(c.as_str());
        s.append(") ");
        let b = self.body_while.debug_string();
        s.append(b.as_str());
        assert(s@ =~= while_text(*self));
        s
    }
}

impl Block {
    /// The rendering of the block: its items numbered, one per line.
    pub fn debug_string(&self) -> (r: String)
        ensures r@ == block_text(*self),
        decreases *self, 0int,
    {
        let mut s = String::new();
        s.append("Vec<BlockItem>:[\n");
        let ghost s0 = s@;
        let n = self.stmt.len();
        let mut i: usize = 0;
        while i < n
            invariant
                n == self.stmt@.len(), i <= n,
                s@ == s0 + items_text(self.stmt@, i as int),
            decreases n - i,
        {
            s.append("  item#");
            append_usize(&mut s, i);
            s.append(": ");
            let t = self.stmt[i].debug_string();
            s.append(t.as_str());
            s.append("\n");
            i = i + 1;
        }
        s.append("]");
        s
    }
}

impl BlockItem {
    /// The rendering of the item.
    pub fn debug_string(&self) -> (r: String)
        ensures r@ == block_item_text(*self),
        decreases *self, 0int,
    {
        let mut s = String::new();
        match self {
            BlockItem::Decl(d) => {
                s.append("Decl: ");
                let t = d.debug_string();
                s.append(t.as_str());
            },
            BlockItem::Stmt(st) => {
                s.append("Stmt: ");
                let t = st.debug_string();
                s.append(t.as_str());
            },
        }
        s
    }
}

impl FuncFParam {
    /// The rendering of the parameter.
    pub fn debug_string(&self) -> (r: String)
        ensures r@ == param_text(*self),
    {
        let mut s = self.bt.debug_string();
        s.append(" ");
        s.append(self.id.as_str());
        if self.is_array {
            s.append("[]");
            append_lens(&mut s, &self.array_lens);
        }
        s
    }
}

impl FuncDef {
    /// The rendering of the definition, in the struct form of `{:?}`.
    pub fn debug_string(&self) -> (r: String)
        ensures r@ == func_def_text(*self),
    {
        let mut s = String::new();
        s.append("FuncDef { func_type: ");
        let t = self.func_type.debug_string();
        s.append(t.as_str());
        s.append(", ident: ");
        let id = debug_str(self.ident.as_str());
        s.append(id.as_str());
        s.append(", func_params: ");
        s.append("[");
        let ghost s0 = s@;
        let ghost items = self.func_params@.map_values(|p: FuncFParam| param_text(p));
        let n = self.func_params.len();
        let mut i: usize = 0;
        while i < n
            invariant
                n == self.func_params@.len(), i <= n,
                items == self.func_params@.map_values(|p: FuncFParam| param_text(p)),
                s@ == s0 + joined(items.take(i as int)),
            decreases n - i,
        {
            if i != 0 {
                s.append(", ");
            }
            let d = self.func_params[i].debug_string();
            s.append(d.as_str());
            proof {
                lemma_joined_push(items.take(i as int), items[i as int]);
                assert(items.take(i as int).push(items[i as int]) =~= items.take(i + 1));
            }
            i = i + 1;
        }
        s.append("]");
        assert(items.take(n as int) =~= items);
        s.append(", block: ");
        let b = self.block.debug_string();
        s.append(b.as_str());
        s.append(" }");
        s
    }
}

impl CompUnitItem {
    /// The rendering of the item.
    pub fn debug_string(&self) -> (r: String)
        ensures r@ == comp_unit_item_text(*self),
    {
        let mut s = String::new();
        match self {
            CompUnitItem::Decl(d) => {
                s.append("TopDecl: ");
                let t = d.debug_string();
                s.append(t.as_str());
            },
            CompUnitItem::FuncDef(f) => {
                s.append("TopFunc: ");
                let t = f.debug_string();
                s.append(t.as_str());
            },
        }
        s
    }
}

impl CompUnit {
    /// The rendering of the translation unit.
    pub fn debug_string(&self) -> (r: String)
        ensures r@ == comp_unit_text(*self),
    {
        let mut s = String::new();
        s.append("CompUnit { ");
        s.append("[");
        let ghost s0 = s@;
        let ghost items = self.items@.map_values(|i: CompUnitItem| comp_unit_item_text(i));
        let n = self.items.len();
        let mut i: usize = 0;
        while i < n
            invariant
                n == self.items@.len(), i <= n,
                items == self.items@.map_values(|i: CompUnitItem| comp_unit_item_text(i)),
                s@ == s0 + joined(items.take(i as int)),
            decreases n - i,
        {
            if i != 0 {
                s.append(", ");
            }
            let d = self.items[i].debug_string();
            s.append(d.as_str());
            proof {
                lemma_joined_push(items.take(i as int), items[i as int]);
                assert(items.take(i as int).push(items[i as int]) =~= items.take(i + 1));
            }
            i = i + 1;
        }
        s.append("]");
        assert(items.take(n as int) =~= items);
        s.append(" }");
        s
    }
}

} // verus!
