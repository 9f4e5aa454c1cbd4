//! The symbol table of the front end: a stack of scopes mapping names to what
//! they denote, a counter for unique labels, and a stack of the enclosing
//! loops for `break` and `continue`.
use crate::ir::{BasicBlock, Value};
use crate::util::str_eq;
use vstd::prelude::*;

verus! {

/// What a name denotes.
#[derive(Debug, Clone, Copy, PartialEq, Eq, Structural)]
pub enum SymbolInfo {
    Const(i32),
    Var(Value),
    Func,
    NoInfo,
}

/// One scope: its bindings in order of insertion; a later binding of a name
/// replaces an earlier one.
type Scope = Vec<(String, SymbolInfo)>;

/// The map that a scope's bindings denote.
pub open spec fn scope_map(s: Seq<(String, SymbolInfo)>) -> Map<Seq<char>, SymbolInfo>
    decreases s.len(),
{
    if s.len() == 0 {
        Map::empty()
    } else {
        scope_map(s.drop_last()).insert(s.last().0@, s.last().1)
    }
}

/// The innermost constant named `name`, skipping scopes where the name is
/// bound to something else.
pub open spec fn lookup_const(scopes: Seq<Map<Seq<char>, SymbolInfo>>, name: Seq<char>) -> Option<i32>
    decreases scopes.len(),
{
    if scopes.len() == 0 {
        None
    } else if scopes.last().contains_key(name) && scopes.last()[name] is Const {
        Some(scopes.last()[name]->Const_0)
    } else {
        lookup_const(scopes.drop_last(), name)
    }
}

/// The innermost variable named `name`, skipping scopes where the name is
/// bound to something else.
pub open spec fn lookup_var(scopes: Seq<Map<Seq<char>, SymbolInfo>>, name: Seq<char>) -> Option<Value>
    decreases scopes.len(),
{
    if scopes.len() == 0 {
        None
    } else if scopes.last().contains_key(name) && scopes.last()[name] is Var {
        Some(scopes.last()[name]->Var_0)
    } else {
        lookup_var(scopes.drop_last(), name)
    }
}

/// The abstract state of a symbol table.
pub ghost struct VariablesView {
    /// The scopes, outermost first.
    pub scopes: Seq<Map<Seq<char>, SymbolInfo>>,
    /// The next unique id.
    pub counter: nat,
    /// The enclosing loops, outermost first: (continue target, break target).
    pub loops: Seq<(BasicBlock, BasicBlock)>,
}

/// The front end's symbol table.
pub struct Variables {
    scopes: Vec<Scope>,
    counter: u64,
    jump_stack: Context,
}

impl View for Variables {
    type V = VariablesView;

    closed spec fn view(&self) -> VariablesView {
        VariablesView {
            scopes: self.scopes@.map_values(|s: Scope| scope_map(s@)),
            counter: self.counter as nat,
            loops: self.jump_stack@,
        }
    }
}

/// The entry found scanning a scope from its end for `name`.
fn scope_find(s: &Scope, name: &str) -> (r: Option<SymbolInfo>)
    ensures
        r matches Some(x) ==> scope_map(s@).contains_key(name@) && scope_map(s@)[name@] == x,
        r is None ==> !scope_map(s@).contains_key(name@),
{
    let mut k = s.len();
    while k > 0
        invariant
            k <= s@.len(),
            forall|j: int| k <= j < s@.len() ==> (#[trigger] s@[j]).0@ != name@,
        decreases k,
    {
        if str_eq(s[k - 1].0.as_str(), name) {
            proof {
                lemma_scope_map_suffix_free(s@, k as int, name@);
            }
            return Some(s[k - 1].1);
        }
        k = k - 1;
    }
    proof {
        lemma_scope_map_suffix_free(s@, 0, name@);
    }
    None
}

/// When the suffix from `k` does not bind `name`, the whole scope binds it as
/// the prefix does; and when the binding at `k - 1` is `name`, it is the one
/// the scope denotes.
proof fn lemma_scope_map_suffix_free(s: Seq<(String, SymbolInfo)>, k: int, name: Seq<char>)
    requires
        0 <= k <= s.len(),
        forall|j: int| k <= j < s.len() ==> (#[trigger] s[j]).0@ != name,
    ensures
        k > 0 && s[k - 1].0@ == name ==> scope_map(s).contains_key(name) && scope_map(s)[name] == s[k - 1].1,
        k == 0 ==> !scope_map(s).contains_key(name),
        scope_map(s).contains_key(name) == scope_map(s.subrange(0, k)).contains_key(name),
        scope_map(s).contains_key(name) ==> scope_map(s)[name] == scope_map(s.subrange(0, k))[name],
    decreases s.len(),
{
    if s.len() == 0 {
        assert(s.subrange(0, k) == s);
    } else if k == s.len() {
        assert(s.subrange(0, k) == s);
    } else {
        let d = s.drop_last();
        lemma_scope_map_suffix_free(d, k, name);
        assert(d.subrange(0, k) == s.subrange(0, k));
        assert(s.last() == s[s.len() - 1]);
    }
}

/// `s` extended by a binding denotes the old map with that binding.
proof fn lemma_scope_push(s: Seq<(String, SymbolInfo)>, b: (String, SymbolInfo))
    ensures scope_map(s.push(b)) == scope_map(s).insert(b.0@, b.1),
{
    assert(s.push(b).drop_last() == s);
}

impl Variables {
    /// An empty table: no scope, counter at zero, no enclosing loop.
    pub fn new() -> (r: Variables)
        ensures
            r@.scopes.len() == 0,
            r@.counter == 0,
            r@.loops.len() == 0,
    {
        let r = Variables { scopes: Vec::new(), counter: 0, jump_stack: Context::new() };
        assert(r@.scopes =~= Seq::empty());
        r
    }

    /// Whether `get_id` may be called: the counter is below its maximum.
    pub fn has_next_id(&self) -> (r: bool)
        ensures r == (self@.counter < u64::MAX),
    {
        self.counter < u64::MAX
    }

    /// The current counter value; the counter moves on by one.
    pub fn get_id(&mut self) -> (id: u64)
        requires old(self)@.counter < u64::MAX,
        ensures
            id == old(self)@.counter,
            final(self)@ == (VariablesView { counter: old(self)@.counter + 1, ..old(self)@ }),
    {
        let id = self.counter;
        self.counter = self.counter + 1;
        id
    }

    /// Opens a new innermost scope, empty.
    pub fn enter_scope(&mut self)
        ensures
            final(self)@ == (VariablesView { scopes: old(self)@.scopes.push(Map::empty()), ..old(self)@ }),
    {
        self.scopes.push(Vec::new());
        proof {
            assert(scope_map(Seq::<(String, SymbolInfo)>::empty()) == Map::<Seq<char>, SymbolInfo>::empty());
            assert(self@.scopes =~= old(self)@.scopes.push(Map::empty()));
        }
    }

    /// Closes the innermost scope, if there is one.
    pub fn exit_scope(&mut self)
        ensures
            old(self)@.scopes.len() > 0 ==> final(self)@ == (VariablesView { scopes: old(self)@.scopes.drop_last(), ..old(self)@ }),
            old(self)@.scopes.len() == 0 ==> final(self)@ == old(self)@,
    {
        let _ = self.scopes.pop();
        proof {
            if old(self)@.scopes.len() > 0 {
                assert(self@.scopes =~= old(self)@.scopes.drop_last());
            } else {
                assert(self@.scopes =~= old(self)@.scopes);
            }
        }
    }

    /// Binds `name` to `value` in the innermost scope, replacing a binding of
    /// the same name there; does nothing where there is no scope.
    pub fn insert(&mut self, name: String, value: SymbolInfo)
        ensures
            old(self)@.scopes.len() > 0 ==> final(self)@ == (VariablesView {
                scopes: old(self)@.scopes.update(old(self)@.scopes.len() - 1, old(self)@.scopes.last().insert(name@, value)),
                ..old(self)@ }),
            old(self)@.scopes.len() == 0 ==> final(self)@ == old(self)@,
    {
        let n = self.scopes.len();
        if n > 0 {
            let ghost b = (name, value);
            let ghost old_last = self.scopes@[n - 1]@;
            let last = &mut self.scopes[n - 1];
            last.push((name, value));
            proof {
                lemma_scope_push(old_last, b);
                assert(self@.scopes =~= old(self)@.scopes.update(n - 1, old(self)@.scopes.last().insert(name@, value)));
            }
        }
    }

    /// Whether the innermost scope binds `name`.
    pub fn contains_in_current_scope(&self, name: &str) -> (r: bool)
        ensures r == (self@.scopes.len() > 0 && self@.scopes.last().contains_key(name@)),
    {
        let n = self.scopes.len();
        if n == 0 {
            false
        } else {
            scope_find(&self.scopes[n - 1], name).is_some()
        }
    }

    /// The innermost constant named `name` (scopes where the name is bound to
    /// something else are skipped).
    pub fn get_const(&self, name: &str) -> (r: Option<i32>)
        ensures r == lookup_const(self@.scopes, name@),
    {
        let mut k = self.scopes.len();
        assert(self@.scopes.subrange(0, k as int) =~= self@.scopes);
        while k > 0
            invariant
                k <= self@.scopes.len(),
                lookup_const(self@.scopes, name@) == lookup_const(self@.scopes.subrange(0, k as int), name@),
            decreases k,
        {
            let ghost pre = self@.scopes.subrange(0, k as int);
            assert(pre.drop_last() =~= self@.scopes.subrange(0, k - 1));
            assert(pre.last() == scope_map(self.scopes@[k - 1]@));
            match scope_find(&self.scopes[k - 1], name) {
                Some(SymbolInfo::Const(v)) => return Some(v),
                _ => {},
            }
            k = k - 1;
        }
        None
    }

    /// The innermost variable named `name` (scopes where the name is bound to
    /// something else are skipped).
    pub fn get(&self, name: &str) -> (r: Option<Value>)
        ensures r == lookup_var(self@.scopes, name@),
    {
        let mut k = self.scopes.len();
        assert(self@.scopes.subrange(0, k as int) =~= self@.scopes);
        while k > 0
            invariant
                k <= self@.scopes.len(),
                lookup_var(self@.scopes, name@) == lookup_var(self@.scopes.subrange(0, k as int), name@),
            decreases k,
        {
            let ghost pre = self@.scopes.subrange(0, k as int);
            assert(pre.drop_last() =~= self@.scopes.subrange(0, k - 1));
            assert(pre.last() == scope_map(self.scopes@[k - 1]@));
            match scope_find(&self.scopes[k - 1], name) {
                Some(SymbolInfo::Var(v)) => return Some(v),
                _ => {},
            }
            k = k - 1;
        }
        None
    }

    /// The number of open scopes.
    pub fn get_scope_layer(&self) -> (r: usize)
        ensures r == self@.scopes.len(),
    {
        self.scopes.len()
    }

    /// Enters a loop whose `continue` goes to `entry_bb` and whose `break`
    /// goes to `end_bb`.
    pub fn enter_while(&mut self, entry_bb: &BasicBlock, end_bb: &BasicBlock)
        ensures
            final(self)@ == (VariablesView { loops: old(self)@.loops.push((*entry_bb, *end_bb)), ..old(self)@ }),
    {
        self.jump_stack.enter_while(entry_bb, end_bb);
    }

    /// Leaves the innermost loop, if there is one.
    pub fn exit_while(&mut self)
        ensures
            old(self)@.loops.len() > 0 ==> final(self)@ == (VariablesView { loops: old(self)@.loops.drop_last(), ..old(self)@ }),
            old(self)@.loops.len() == 0 ==> final(self)@ == old(self)@,
    {
        self.jump_stack.exit_while();
    }

    /// Where `continue` goes: the entry of the innermost loop.
    pub fn get_continue(&self) -> (r: Option<BasicBlock>)
        ensures
            r == (if self@.loops.len() == 0 { None } else { Some(self@.loops.last().0) }),
    {
        self.jump_stack.get_continue()
    }

    /// Where `break` goes: the end of the innermost loop.
    pub fn get_break(&mut self) -> (r: Option<BasicBlock>)
        ensures
            final(self)@ == old(self)@,
            r == (if old(self)@.loops.len() == 0 { None } else { Some(old(self)@.loops.last().1) }),
    {
        self.jump_stack.get_break()
    }
}

impl Default for Variables {
    fn default() -> (r: Variables)
        ensures
            r@.scopes.len() == 0,
            r@.counter == 0,
            r@.loops.len() == 0,
    {
        Self::new()
    }
}

/// The targets of one enclosing loop.
struct BaseContext {
    /// Where `continue` jumps: the block that checks the condition.
    entry_bb: BasicBlock,
    /// Where `break` jumps: the block after the loop.
    end_bb: BasicBlock,
}

/// The stack of enclosing loops.
pub struct Context {
    ctx: Vec<BaseContext>,
}

impl View for Context {
    type V = Seq<(BasicBlock, BasicBlock)>;

    closed spec fn view(&self) -> Seq<(BasicBlock, BasicBlock)> {
        self.ctx@.map_values(|c: BaseContext| (c.entry_bb, c.end_bb))
    }
}

impl Context {
    fn new() -> (r: Context)
        ensures r@.len() == 0,
    {
        Context { ctx: Vec::new() }
    }

    fn enter_while(&mut self, entry_bb: &BasicBlock, end_bb: &BasicBlock)
        ensures final(self)@ == old(self)@.push((*entry_bb, *end_bb)),
    {
        self.ctx.push(BaseContext { entry_bb: *entry_bb, end_bb: *end_bb });
        assert(self@ =~= old(self)@.push((*entry_bb, *end_bb)));
    }

    fn exit_while(&mut self)
        ensures
            old(self)@.len() > 0 ==> final(self)@ == old(self)@.drop_last(),
            old(self)@.len() == 0 ==> final(self)@ == old(self)@,
    {
        let _ = self.ctx.pop();
        proof {
            if old(self)@.len() > 0 {
                assert(self@ =~= old(self)@.drop_last());
            } else {
                assert(self@ =~= old(self)@);
            }
        }
    }

    fn get_continue(&self) -> (r: Option<BasicBlock>)
        ensures r == (if self@.len() == 0 { None } else { Some(self@.last().0) }),
    {
        if self.ctx.len() == 0 {
            None
        } else {
            Some(self.ctx[self.ctx.len() - 1].entry_bb)
        }
    }

    fn get_break(&self) -> (r: Option<BasicBlock>)
        ensures r == (if self@.len() == 0 { None } else { Some(self@.last().1) }),
    {
        if self.ctx.len() == 0 {
            None
        } else {
            Some(self.ctx[self.ctx.len() - 1].end_bb)
        }
    }
}


/// A constant bound in the innermost scope is what a lookup finds, whatever
/// the outer scopes bind.
pub proof fn law_insert_const_then_lookup(scopes: Seq<Map<Seq<char>, SymbolInfo>>, name: Seq<char>, c: i32)
    requires scopes.len() > 0,
    ensures lookup_const(scopes.update(scopes.len() - 1, scopes.last().insert(name, SymbolInfo::Const(c))), name) == Some(c),
{
    let s2 = scopes.update(scopes.len() - 1, scopes.last().insert(name, SymbolInfo::Const(c)));
    assert(s2.last() == scopes.last().insert(name, SymbolInfo::Const(c)));
}

/// A variable bound in the innermost scope is what a lookup finds, whatever
/// the outer scopes bind.
pub proof fn law_insert_var_then_lookup(scopes: Seq<Map<Seq<char>, SymbolInfo>>, name: Seq<char>, v: Value)
    requires scopes.len() > 0,
    ensures lookup_var(scopes.update(scopes.len() - 1, scopes.last().insert(name, SymbolInfo::Var(v))), name) == Some(v),
{
    let s2 = scopes.update(scopes.len() - 1, scopes.last().insert(name, SymbolInfo::Var(v)));
    assert(s2.last() == scopes.last().insert(name, SymbolInfo::Var(v)));
}

/// Binding one name leaves the lookups of every other name unchanged.
pub proof fn law_insert_keeps_other_names(scopes: Seq<Map<Seq<char>, SymbolInfo>>, name: Seq<char>, info: SymbolInfo, other: Seq<char>)
    requires scopes.len() > 0, other != name,
    ensures
        lookup_const(scopes.update(scopes.len() - 1, scopes.last().insert(name, info)), other) == lookup_const(scopes, other),
        lookup_var(scopes.update(scopes.len() - 1, scopes.last().insert(name, info)), other) == lookup_var(scopes, other),
{
    let s2 = scopes.update(scopes.len() - 1, scopes.last().insert(name, info));
    assert(s2.drop_last() =~= scopes.drop_last());
    assert(s2.last() == scopes.last().insert(name, info));
}

/// A new scope hides nothing until something is bound in it: every lookup
/// gives what it gave before.
pub proof fn law_enter_scope_keeps_lookups(scopes: Seq<Map<Seq<char>, SymbolInfo>>, name: Seq<char>)
    ensures
        lookup_const(scopes.push(Map::empty()), name) == lookup_const(scopes, name),
        lookup_var(scopes.push(Map::empty()), name) == lookup_var(scopes, name),
{
    assert(scopes.push(Map::empty()).drop_last() =~= scopes);
}

/// Leaving a scope undoes entering it, whatever was bound in it meanwhile.
pub proof fn law_exit_scope_restores(scopes: Seq<Map<Seq<char>, SymbolInfo>>, inner: Map<Seq<char>, SymbolInfo>)
    ensures scopes.push(inner).drop_last() == scopes,
{
    assert(scopes.push(inner).drop_last() =~= scopes);
}

/// A binding in an inner scope is what a lookup of its kind finds: a
/// constant is found by `lookup_const` and a variable by `lookup_var`,
/// whatever the outer scopes bind (a lookup of the other kind skips it).
pub proof fn law_inner_binding_shadows(scopes: Seq<Map<Seq<char>, SymbolInfo>>, inner: Map<Seq<char>, SymbolInfo>, name: Seq<char>)
    requires inner.contains_key(name),
    ensures
        inner[name] is Const ==> lookup_const(scopes.push(inner), name) == Some(inner[name]->Const_0),
        inner[name] is Var ==> lookup_var(scopes.push(inner), name) == Some(inner[name]->Var_0),
{
}

/// Inside a loop, `break` goes to the loop's end and `continue` to its
/// entry; leaving the loop restores the enclosing loops.
pub proof fn law_loop_targets(loops: Seq<(BasicBlock, BasicBlock)>, entry_bb: BasicBlock, end_bb: BasicBlock)
    ensures
        loops.push((entry_bb, end_bb)).last().0 == entry_bb,
        loops.push((entry_bb, end_bb)).last().1 == end_bb,
        loops.push((entry_bb, end_bb)).drop_last() == loops,
{
    assert(loops.push((entry_bb, end_bb)).drop_last() =~= loops);
}

} // verus!
