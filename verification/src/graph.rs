//! The dependency analysis: it numbers the declarations of a script in the
//! order they are written, an enclosing declaration before the ones it holds,
//! and builds a graph with a node for each and an edge from the declaration
//! that last wrote a variable to each one that reads it.
//!
//! While it walks the script, the analysis keeps a stack of scopes that map
//! each visible variable to the index of the declaration that last wrote it
//! and to whether it is mutable.

use crate::codegraph::{
    code_add_node, code_edge_count, code_edge_endpoints, code_edge_list, code_edges, code_find_edge,
    code_graph_clone, code_graph_new, code_incoming, code_node, code_node_count, code_nodes,
    code_remove_edge, code_remove_node, code_set_node, code_update_edge, edges_in_range,
    renamed, CodeGraph, NODE_LIMIT,
};
use crate::expr::{names_of, vars_of, Expr, ExprModel};
use crate::meta::{opt_meta, Class, DeclarationMeta, MetaModel};
use crate::stmt::{
    decl_size, decl_size_capped, decls_size, decls_size_capped, duplicate_decl, lemma_decl_size_pos, lemma_decls_size_cons, stmt_size_capped,
    lemma_model_decls_index, lemma_model_decls_len, model_decls, stmt_size, Decl, DeclModel,
    Mutability, Stmt, StmtModel,
};
use std::collections::HashSet;
use std::sync::Arc;
use vstd::prelude::*;

verus! {

broadcast use vstd::std_specs::hash::group_hash_axioms;

// ---------------------------------------------------------------------------
// Scopes of the analysis
// ---------------------------------------------------------------------------

/// A scope of the analysis: what each variable it holds was last written by
/// (a declaration index), and whether it is mutable.
pub struct NameTable {
    entries: Vec<(String, usize, Mutability)>,
}

impl View for NameTable {
    type V = Map<Seq<char>, (usize, Mutability)>;

    closed spec fn view(&self) -> Map<Seq<char>, (usize, Mutability)> {
        Map::new(
            |k: Seq<char>| exists|i: int| 0 <= i < self.entries.len() && self.entries@[i].0@ == k,
            |k: Seq<char>|
                {
                    let i = choose|i: int| 0 <= i < self.entries.len() && self.entries@[i].0@ == k;
                    (self.entries@[i].1, self.entries@[i].2)
                },
        )
    }
}

impl NameTable {
    /// No two entries hold the same name.
    pub closed spec fn wf(&self) -> bool {
        forall|i: int, j: int|
            0 <= i < j < self.entries.len() ==> self.entries@[i].0@ != self.entries@[j].0@
    }

    /// The entries of the table, each name once.
    pub closed spec fn items(&self) -> Seq<(String, usize, Mutability)> {
        self.entries@
    }

    /// The table holds exactly the names of its entries, each with its data.
    pub proof fn lemma_items(&self)
        requires
            self.wf(),
        ensures
            forall|k: Seq<char>|
                #[trigger] self@.contains_key(k) <==> exists|i: int|
                    0 <= i < self.items().len() && self.items()[i].0@ == k,
            forall|i: int|
                0 <= i < self.items().len() ==> #[trigger] self@[self.items()[i].0@] == (
                    self.items()[i].1,
                    self.items()[i].2,
                ) && self@.contains_key(self.items()[i].0@),
            forall|i: int, j: int|
                0 <= i < j < self.items().len() ==> self.items()[i].0@ != self.items()[j].0@,
    {
        assert forall|i: int| 0 <= i < self.items().len() implies #[trigger] self@[self.items()[i].0@] == (
            self.items()[i].1,
            self.items()[i].2,
        ) && self@.contains_key(self.items()[i].0@) by {
            let k = self.items()[i].0@;
            let c = choose|c: int| 0 <= c < self.entries.len() && self.entries@[c].0@ == k;
            assert(c == i);
        }
    }

    /// The index of the entry for `name`, if there is one.
    fn find(&self, name: &String) -> (r: Option<usize>)
        requires
            self.wf(),
        ensures
            match r {
                None => forall|i: int| 0 <= i < self.entries.len() ==> self.entries@[i].0@ != name@,
                Some(i) => i < self.entries.len() && self.entries@[i as int].0@ == name@,
            },
    {
        let mut i: usize = 0;
        while i < self.entries.len()
            invariant
                i <= self.entries.len(),
                forall|j: int| 0 <= j < i ==> self.entries@[j].0@ != name@,
            decreases self.entries.len() - i,
        {
            if self.entries[i].0 == *name {
                return Some(i);
            }
            i = i + 1;
        }
        None
    }

    /// The empty table.
    pub fn new() -> (t: NameTable)
        ensures
            t.wf(),
            t@ == Map::<Seq<char>, (usize, Mutability)>::empty(),
    {
        let t = NameTable { entries: Vec::new() };
        assert(t@ =~= Map::<Seq<char>, (usize, Mutability)>::empty());
        t
    }

    /// A copy of the table.
    pub fn duplicate(&self) -> (r: NameTable)
        requires
            self.wf(),
        ensures
            r.wf(),
            r@ == self@,
            r.items() == self.items(),
    {
        let mut entries: Vec<(String, usize, Mutability)> = Vec::new();
        let mut i: usize = 0;
        while i < self.entries.len()
            invariant
                i <= self.entries.len(),
                entries@ == self.entries@.subrange(0, i as int),
            decreases self.entries.len() - i,
        {
            let e = (self.entries[i].0.clone(), self.entries[i].1, self.entries[i].2);
            entries.push(e);
            assert(entries@ =~= self.entries@.subrange(0, i + 1));
            i = i + 1;
        }
        assert(entries@ =~= self.entries@);
        NameTable { entries }
    }

    /// What `name` is bound to.
    pub fn get(&self, name: &String) -> (r: Option<(usize, Mutability)>)
        requires
            self.wf(),
        ensures
            r == if self@.contains_key(name@) {
                Some(self@[name@])
            } else {
                None::<(usize, Mutability)>
            },
    {
        match self.find(name) {
            None => None,
            Some(i) => {
                let ghost c = choose|c: int|
                    0 <= c < self.entries.len() && self.entries@[c].0@ == name@;
                assert(c == i);
                Some((self.entries[i].1, self.entries[i].2))
            },
        }
    }

    /// Binds `name` to `v`, replacing what it was bound to.
    pub fn insert(&mut self, name: String, v: (usize, Mutability))
        requires
            old(self).wf(),
        ensures
            final(self).wf(),
            final(self)@ == old(self)@.insert(name@, v),
    {
        let ghost old_entries = self.entries@;
        let ghost target = old(self)@.insert(name@, v);
        match self.find(&name) {
            None => {
                self.entries.push((name, v.0, v.1));
                proof {
                    assert forall|k: Seq<char>| #[trigger] self@.contains_key(k) == target.contains_key(k) by {
                        if k != name@ && self@.contains_key(k) {
                            let i = choose|i: int| 0 <= i < self.entries.len() && self.entries@[i].0@ == k;
                            assert(old_entries[i].0@ == k);
                        }
                        if k != name@ && old(self)@.contains_key(k) {
                            let i = choose|i: int| 0 <= i < old_entries.len() && old_entries[i].0@ == k;
                            assert(self.entries@[i].0@ == k);
                        }
                        if k == name@ {
                            assert(self.entries@[self.entries.len() - 1].0@ == k);
                        }
                    }
                    assert forall|k: Seq<char>| #[trigger] self@.contains_key(k) implies self@[k] == target[k] by {
                        let i = choose|i: int| 0 <= i < self.entries.len() && self.entries@[i].0@ == k;
                        if k == name@ {
                            assert(i == self.entries.len() - 1);
                        } else {
                            let j = choose|j: int| 0 <= j < old_entries.len() && old_entries[j].0@ == k;
                            assert(self.entries@[j].0@ == k);
                            assert(i == j);
                        }
                    }
                    assert(self@ =~= target);
                }
            },
            Some(i) => {
                let ghost nm = name@;
                self.entries.set(i, (name, v.0, v.1));
                proof {
                    assert forall|k: Seq<char>| #[trigger] self@.contains_key(k) == target.contains_key(k) by {
                        if self@.contains_key(k) {
                            let j = choose|j: int| 0 <= j < self.entries.len() && self.entries@[j].0@ == k;
                            if j != i {
                                assert(old_entries[j].0@ == k);
                            }
                        }
                        if old(self)@.contains_key(k) {
                            let j = choose|j: int| 0 <= j < old_entries.len() && old_entries[j].0@ == k;
                            if j != i {
                                assert(self.entries@[j].0@ == k);
                            } else {
                                assert(self.entries@[j].0@ == k);
                            }
                        }
                        if k == nm {
                            assert(self.entries@[i as int].0@ == k);
                        }
                    }
                    assert forall|k: Seq<char>| #[trigger] self@.contains_key(k) implies self@[k] == target[k] by {
                        let j = choose|j: int| 0 <= j < self.entries.len() && self.entries@[j].0@ == k;
                        if k == nm {
                            assert(j == i);
                        } else {
                            let c = choose|c: int| 0 <= c < old_entries.len() && old_entries[c].0@ == k;
                            assert(c != i);
                            assert(self.entries@[c].0@ == k);
                            assert(j == c);
                        }
                    }
                    assert(self@ =~= target);
                }
            },
        }
    }

    /// The number of entries.
    fn count(&self) -> (r: usize)
        ensures
            r == self.items().len(),
    {
        self.entries.len()
    }

    /// Entry `i`.
    fn entry(&self, i: usize) -> (r: &(String, usize, Mutability))
        requires
            i < self.items().len(),
        ensures
            *r == self.items()[i as int],
    {
        &self.entries[i]
    }
}

/// The scopes of the analysis, from the outermost to the innermost.
pub type ScopeStack = Vec<NameTable>;

/// The mathematical content of a stack of scopes.
pub type ScopeModel = Seq<Map<Seq<char>, (usize, Mutability)>>;

/// The content of each scope of a stack.
pub open spec fn stack_view(s: Seq<NameTable>) -> ScopeModel {
    s.map_values(|t: NameTable| t@)
}

/// Every scope of a stack is well formed.
pub open spec fn stack_wf(s: Seq<NameTable>) -> bool {
    forall|i: int| 0 <= i < s.len() ==> (#[trigger] s[i]).wf()
}

/// What `name` is bound to in the innermost scope that holds it.
pub open spec fn scope_lookup(s: ScopeModel, name: Seq<char>) -> Option<(usize, Mutability)>
    decreases s.len(),
{
    if s.len() == 0 {
        None
    } else if s.last().contains_key(name) {
        Some(s.last()[name])
    } else {
        scope_lookup(s.drop_last(), name)
    }
}

/// Binds `name` in the innermost scope, opening one where there is none.
pub open spec fn scope_declare(s: ScopeModel, name: Seq<char>, info: (usize, Mutability)) -> ScopeModel {
    if s.len() == 0 {
        seq![Map::empty().insert(name, info)]
    } else {
        s.update(s.len() - 1, s.last().insert(name, info))
    }
}

/// Rebinds `name`, in the innermost scope that holds it, to `(index,
/// Mutable)`; `None` where no scope holds it.
pub open spec fn scope_assign(s: ScopeModel, name: Seq<char>, index: usize) -> Option<ScopeModel>
    decreases s.len(),
{
    if s.len() == 0 {
        None
    } else if s.last().contains_key(name) {
        Some(s.update(s.len() - 1, s.last().insert(name, (index, Mutability::Mutable))))
    } else {
        match scope_assign(s.drop_last(), name, index) {
            None => None,
            Some(p) => Some(p.push(s.last())),
        }
    }
}

/// Leaves the innermost scope, if there is one.
pub open spec fn scope_remove(s: ScopeModel) -> ScopeModel {
    if s.len() == 0 {
        s
    } else {
        s.drop_last()
    }
}

/// Scope `i` of a stack, empty past its end.
pub open spec fn scope_at(s: ScopeModel, i: int) -> Map<Seq<char>, (usize, Mutability)> {
    if 0 <= i < s.len() {
        s[i]
    } else {
        Map::empty()
    }
}

/// Whether the binding of `a` is kept against that of `b`: the one with the
/// larger index (`larger`), or the one with the smaller.
pub open spec fn keeps_first(x: usize, y: usize, larger: bool) -> bool {
    if larger {
        x >= y
    } else {
        x <= y
    }
}

/// The union of two scopes; where both bind a name, the binding with the larger
/// index (`larger`) or with the smaller one is kept, the first one on a tie.
pub open spec fn merge_tables(
    a: Map<Seq<char>, (usize, Mutability)>,
    b: Map<Seq<char>, (usize, Mutability)>,
    larger: bool,
) -> Map<Seq<char>, (usize, Mutability)> {
    Map::new(
        |k: Seq<char>| a.contains_key(k) || b.contains_key(k),
        |k: Seq<char>|
            if b.contains_key(k) && !(a.contains_key(k) && keeps_first(a[k].0, b[k].0, larger)) {
                b[k]
            } else {
                a[k]
            },
    )
}

/// Two stacks merged scope by scope, the shorter one padded with empty scopes.
pub open spec fn merge_stacks(a: ScopeModel, b: ScopeModel, larger: bool) -> ScopeModel {
    Seq::new(
        if a.len() >= b.len() {
            a.len()
        } else {
            b.len()
        },
        |i: int| merge_tables(scope_at(a, i), scope_at(b, i), larger),
    )
}

/// Every binding's index lowered to at most `idx`.
pub open spec fn clamp_stack(s: ScopeModel, idx: usize) -> ScopeModel {
    s.map_values(
        |m: Map<Seq<char>, (usize, Mutability)>|
            m.map_values(
                |v: (usize, Mutability)|
                    (
                        if v.0 <= idx {
                            v.0
                        } else {
                            idx
                        },
                        v.1,
                    ),
            ),
    )
}

/// A copy of a stack of scopes.
fn duplicate_stack(s: &ScopeStack) -> (r: ScopeStack)
    requires
        stack_wf(s@),
    ensures
        stack_wf(r@),
        stack_view(r@) == stack_view(s@),
{
    let mut r: ScopeStack = Vec::new();
    let mut i: usize = 0;
    while i < s.len()
        invariant
            i <= s.len(),
            stack_wf(s@),
            stack_wf(r@),
            stack_view(r@) == stack_view(s@.subrange(0, i as int)),
        decreases s.len() - i,
    {
        let t = s[i].duplicate();
        let ghost r0 = r@;
        r.push(t);
        proof {
            assert(s@.subrange(0, i + 1) =~= s@.subrange(0, i as int).push(s@[i as int]));
            assert(r@ =~= r0.push(t));
            assert(stack_view(r@) =~= stack_view(r0).push(t@));
            assert(stack_view(s@.subrange(0, i + 1)) =~= stack_view(s@.subrange(0, i as int)).push(s@[i as int]@));
            assert forall|x: int| 0 <= x < r@.len() implies (#[trigger] r@[x]).wf() by {
                if x < r0.len() {
                    assert(r@[x] == r0[x]);
                }
            }
        }
        i = i + 1;
    }
    assert(s@.subrange(0, s.len() as int) =~= s@);
    r
}

/// What `name` is bound to in the innermost scope that holds it.
fn env_lookup(scope: &ScopeStack, name: &String) -> (r: Option<(usize, Mutability)>)
    requires
        stack_wf(scope@),
    ensures
        r == scope_lookup(stack_view(scope@), name@),
{
    let mut i: usize = scope.len();
    assert(scope@.subrange(0, i as int) =~= scope@);
    while i > 0
        invariant
            i <= scope.len(),
            stack_wf(scope@),
            scope_lookup(stack_view(scope@), name@) == scope_lookup(stack_view(scope@.subrange(0, i as int)), name@),
        decreases i,
    {
        let ghost pre = stack_view(scope@.subrange(0, i as int));
        assert(pre.drop_last() =~= stack_view(scope@.subrange(0, i - 1)));
        assert(pre.last() == scope@[i - 1]@);
        match scope[i - 1].get(name) {
            Some(v) => {
                return Some(v);
            },
            None => {},
        }
        i = i - 1;
    }
    None
}

/// Opens a scope holding the bindings of `init`.
fn env_add_scope(scope: ScopeStack, init: NameTable) -> (r: ScopeStack)
    requires
        stack_wf(scope@),
        init.wf(),
    ensures
        stack_wf(r@),
        stack_view(r@) == stack_view(scope@).push(init@),
{
    let ghost s0 = scope@;
    let mut scope = scope;
    scope.push(init);
    assert(stack_view(scope@) =~= stack_view(s0).push(init@));
    scope
}

/// Binds `name` in the innermost scope, opening one where there is none.
fn env_declare(scope: ScopeStack, name: String, info: (usize, Mutability)) -> (r: ScopeStack)
    requires
        stack_wf(scope@),
    ensures
        stack_wf(r@),
        stack_view(r@) == scope_declare(stack_view(scope@), name@, info),
{
    let mut scope = scope;
    let ghost s0 = stack_view(scope@);
    if scope.len() == 0 {
        let mut m = NameTable::new();
        m.insert(name, info);
        scope.push(m);
        assert(stack_view(scope@) =~= scope_declare(s0, name@, info));
    } else {
        let mut t = scope.pop().unwrap();
        t.insert(name, info);
        scope.push(t);
        assert(stack_view(scope@) =~= scope_declare(s0, name@, info));
    }
    scope
}

/// Leaves the innermost scope, if there is one.
fn env_remove_scope(scope: ScopeStack) -> (r: ScopeStack)
    requires
        stack_wf(scope@),
    ensures
        stack_wf(r@),
        stack_view(r@) == scope_remove(stack_view(scope@)),
{
    let ghost s0 = scope@;
    let mut scope = scope;
    if scope.len() > 0 {
        scope.pop();
        assert(stack_view(scope@) =~= stack_view(s0).drop_last());
    }
    scope
}

/// Rebinds `name`, in the innermost scope that holds it, to `(index,
/// Mutable)`; `None` where no scope holds it.
fn env_assign(scope: &ScopeStack, name: &String, index: usize) -> (r: Option<ScopeStack>)
    requires
        stack_wf(scope@),
    ensures
        match r {
            None => scope_assign(stack_view(scope@), name@, index) is None,
            Some(s) => stack_wf(s@) && scope_assign(stack_view(scope@), name@, index) == Some(stack_view(s@)),
        },
{
    let mut new_scope = duplicate_stack(scope);
    let mut i: usize = new_scope.len();
    let ghost sv = stack_view(scope@);
    while i > 0
        invariant
            i <= new_scope.len(),
            new_scope@.len() == scope@.len(),
            stack_wf(new_scope@),
            stack_view(new_scope@) == sv,
            sv == stack_view(scope@),
            forall|j: int| i <= j < sv.len() ==> !(#[trigger] sv[j]).contains_key(name@),
        decreases i,
    {
        match new_scope[i - 1].get(name) {
            Some(_) => {
                let mut t = new_scope.remove(i - 1);
                t.insert(name.clone(), (index, Mutability::Mutable));
                new_scope.insert(i - 1, t);
                proof {
                    lemma_assign_at(sv, name@, index, i - 1);
                    assert(stack_view(new_scope@) =~= sv.update(i - 1, sv[i - 1].insert(name@, (index, Mutability::Mutable))));
                }
                return Some(new_scope);
            },
            None => {},
        }
        i = i - 1;
    }
    proof {
        lemma_assign_none(sv, name@, index);
    }
    None
}

/// Rebinding in scope `j`, the innermost that holds the name.
proof fn lemma_assign_at(s: ScopeModel, name: Seq<char>, index: usize, j: int)
    requires
        0 <= j < s.len(),
        s[j].contains_key(name),
        forall|k: int| j < k < s.len() ==> !(#[trigger] s[k]).contains_key(name),
    ensures
        scope_assign(s, name, index) == Some(s.update(j, s[j].insert(name, (index, Mutability::Mutable)))),
    decreases s.len(),
{
    if j < s.len() - 1 {
        lemma_assign_at(s.drop_last(), name, index, j);
        assert(s.drop_last().update(j, s[j].insert(name, (index, Mutability::Mutable))).push(s.last())
            =~= s.update(j, s[j].insert(name, (index, Mutability::Mutable))));
    }
}

/// No scope holds the name: nothing to rebind.
proof fn lemma_assign_none(s: ScopeModel, name: Seq<char>, index: usize)
    requires
        forall|k: int| 0 <= k < s.len() ==> !(#[trigger] s[k]).contains_key(name),
    ensures
        scope_assign(s, name, index) is None,
    decreases s.len(),
{
    if s.len() > 0 {
        lemma_assign_none(s.drop_last(), name, index);
    }
}

/// The union of two scopes (see `merge_tables`).
fn merge_tables_exec(a: Option<&NameTable>, b: Option<&NameTable>, larger: bool) -> (r: NameTable)
    requires
        a matches Some(t) ==> t.wf(),
        b matches Some(t) ==> t.wf(),
    ensures
        r.wf(),
        r@ == merge_tables(
            match a {
                Some(t) => t@,
                None => Map::empty(),
            },
            match b {
                Some(t) => t@,
                None => Map::empty(),
            },
            larger,
        ),
{
    let ghost am = match a {
        Some(t) => t@,
        None => Map::<Seq<char>, (usize, Mutability)>::empty(),
    };
    let ghost bm = match b {
        Some(t) => t@,
        None => Map::<Seq<char>, (usize, Mutability)>::empty(),
    };
    let mut merged = match a {
        Some(t) => t.duplicate(),
        None => NameTable::new(),
    };
    match b {
        None => {
            assert(merged@ =~= merge_tables(am, bm, larger));
        },
        Some(tb) => {
            proof {
                tb.lemma_items();
            }
            let n = tb.count();
            let mut j: usize = 0;
            while j < n
                invariant
                    j <= n,
                    n == tb.items().len(),
                    tb.wf(),
                    merged.wf(),
                    bm == tb@,
                    forall|k: Seq<char>|
                        #[trigger] merged@.contains_key(k) <==> (am.contains_key(k) || exists|x: int|
                            0 <= x < j && tb.items()[x].0@ == k),
                    forall|k: Seq<char>|
                        #[trigger] merged@.contains_key(k) ==> merged@[k] == if (exists|x: int|
                            0 <= x < j && tb.items()[x].0@ == k) {
                            merge_tables(am, bm, larger)[k]
                        } else {
                            am[k]
                        },
                decreases n - j,
            {
                proof {
                    tb.lemma_items();
                }
                let e = tb.entry(j);
                let ghost k0 = e.0@;
                assert(tb@[tb.items()[j as int].0@] == (tb.items()[j as int].1, tb.items()[j as int].2));
                assert(bm.contains_key(k0) && bm[k0] == (e.1, e.2));
                let keep = match merged.get(&e.0) {
                    Some(cur) => {
                        if larger {
                            cur.0 >= e.1
                        } else {
                            cur.0 <= e.1
                        }
                    },
                    None => false,
                };
                proof {
                    if merged@.contains_key(k0) {
                        assert(!(exists|x: int| 0 <= x < j && tb.items()[x].0@ == k0));
                        assert(am.contains_key(k0));
                    }
                }
                if !keep {
                    merged.insert(e.0.clone(), (e.1, e.2));
                }
                proof {
                    assert forall|k: Seq<char>| #[trigger] merged@.contains_key(k) <==> (am.contains_key(k) || exists|x: int|
                            0 <= x < j + 1 && tb.items()[x].0@ == k) by {
                        if k == k0 {
                            assert(tb.items()[j as int].0@ == k);
                        } else if exists|x: int| 0 <= x < j + 1 && tb.items()[x].0@ == k {
                            let x = choose|x: int| 0 <= x < j + 1 && tb.items()[x].0@ == k;
                            assert(x != j);
                        }
                    }
                    assert forall|k: Seq<char>| #[trigger] merged@.contains_key(k) implies merged@[k] == if (exists|x: int|
                            0 <= x < j + 1 && tb.items()[x].0@ == k) {
                            merge_tables(am, bm, larger)[k]
                        } else {
                            am[k]
                        } by {
                        if k == k0 {
                            assert(tb.items()[j as int].0@ == k);
                        } else if exists|x: int| 0 <= x < j + 1 && tb.items()[x].0@ == k {
                            let x = choose|x: int| 0 <= x < j + 1 && tb.items()[x].0@ == k;
                            assert(x != j);
                            assert(exists|x: int| 0 <= x < j && tb.items()[x].0@ == k);
                        }
                    }
                }
                j = j + 1;
            }
            proof {
                assert forall|k: Seq<char>| #[trigger] merged@.contains_key(k) == merge_tables(am, bm, larger).contains_key(k) by {
                    if bm.contains_key(k) {
                        let x = choose|x: int| 0 <= x < tb.items().len() && tb.items()[x].0@ == k;
                    }
                }
                assert forall|k: Seq<char>| #[trigger] merged@.contains_key(k) implies merged@[k] == merge_tables(am, bm, larger)[k] by {
                    if !(exists|x: int| 0 <= x < j && tb.items()[x].0@ == k) {
                        assert(!bm.contains_key(k));
                    }
                }
                assert(merged@ =~= merge_tables(am, bm, larger));
            }
        },
    }
    merged
}

/// Two stacks merged scope by scope (see `merge_stacks`).
fn merge_scopes(a: &ScopeStack, b: &ScopeStack, larger: bool) -> (r: ScopeStack)
    requires
        stack_wf(a@),
        stack_wf(b@),
    ensures
        stack_wf(r@),
        stack_view(r@) == merge_stacks(stack_view(a@), stack_view(b@), larger),
{
    let max_len = if a.len() >= b.len() {
        a.len()
    } else {
        b.len()
    };
    let mut out: ScopeStack = Vec::with_capacity(max_len);
    let ghost target = merge_stacks(stack_view(a@), stack_view(b@), larger);
    let mut i: usize = 0;
    while i < max_len
        invariant
            i <= max_len,
            max_len == target.len(),
            target == merge_stacks(stack_view(a@), stack_view(b@), larger),
            stack_wf(a@),
            stack_wf(b@),
            stack_wf(out@),
            stack_view(out@) == target.subrange(0, i as int),
        decreases max_len - i,
    {
        let ta = if i < a.len() {
            Some(&a[i])
        } else {
            None
        };
        let tb = if i < b.len() {
            Some(&b[i])
        } else {
            None
        };
        let m = merge_tables_exec(ta, tb, larger);
        proof {
            assert(scope_at(stack_view(a@), i as int) == match ta {
                Some(t) => t@,
                None => Map::<Seq<char>, (usize, Mutability)>::empty(),
            });
            assert(scope_at(stack_view(b@), i as int) == match tb {
                Some(t) => t@,
                None => Map::<Seq<char>, (usize, Mutability)>::empty(),
            });
        }
        let ghost o0 = out@;
        out.push(m);
        proof {
            assert(target[i as int] == merge_tables(
                scope_at(stack_view(a@), i as int),
                scope_at(stack_view(b@), i as int),
                larger,
            ));
            assert(m@ == target[i as int]);
            assert(out@ =~= o0.push(m));
            assert(stack_view(out@) =~= stack_view(o0).push(m@));
            assert(target.subrange(0, i + 1) =~= target.subrange(0, i as int).push(target[i as int]));
            assert forall|x: int| 0 <= x < out@.len() implies (#[trigger] out@[x]).wf() by {
                if x < o0.len() {
                    assert(out@[x] == o0[x]);
                }
            }
        }
        i = i + 1;
    }
    assert(target.subrange(0, max_len as int) =~= target);
    out
}

/// Merges two stacks keeping, where both bind a name, the larger index.
fn merge_scopes_preferring_larger(a: &ScopeStack, b: &ScopeStack) -> (r: ScopeStack)
    requires
        stack_wf(a@),
        stack_wf(b@),
    ensures
        stack_wf(r@),
        stack_view(r@) == merge_stacks(stack_view(a@), stack_view(b@), true),
{
    merge_scopes(a, b, true)
}

/// Merges two stacks keeping, where both bind a name, the smaller index.
fn merge_scopes_preferring_smaller(a: &ScopeStack, b: &ScopeStack) -> (r: ScopeStack)
    requires
        stack_wf(a@),
        stack_wf(b@),
    ensures
        stack_wf(r@),
        stack_view(r@) == merge_stacks(stack_view(a@), stack_view(b@), false),
{
    merge_scopes(a, b, false)
}

/// Lowers every binding's index to at most `idx`.
fn apply_min_index_to_scope(scope: &ScopeStack, idx: usize) -> (r: ScopeStack)
    requires
        stack_wf(scope@),
    ensures
        stack_wf(r@),
        stack_view(r@) == clamp_stack(stack_view(scope@), idx),
{
    let mut out: ScopeStack = Vec::new();
    let ghost target = clamp_stack(stack_view(scope@), idx);
    let mut i: usize = 0;
    while i < scope.len()
        invariant
            i <= scope.len(),
            stack_wf(scope@),
            stack_wf(out@),
            target == clamp_stack(stack_view(scope@), idx),
            stack_view(out@) == target.subrange(0, i as int),
        decreases scope.len() - i,
    {
        let t = &scope[i];
        proof {
            t.lemma_items();
        }
        let mut m = NameTable::new();
        let n = t.count();
        let mut j: usize = 0;
        while j < n
            invariant
                j <= n,
                n == t.items().len(),
                t.wf(),
                m.wf(),
                forall|k: Seq<char>|
                    #[trigger] m@.contains_key(k) <==> exists|x: int| 0 <= x < j && t.items()[x].0@ == k,
                forall|k: Seq<char>|
                    #[trigger] m@.contains_key(k) ==> m@[k] == (
                        if t@[k].0 <= idx {
                            t@[k].0
                        } else {
                            idx
                        },
                        t@[k].1,
                    ),
            decreases n - j,
        {
            let e = t.entry(j);
            let v = if e.1 <= idx {
                e.1
            } else {
                idx
            };
            m.insert(e.0.clone(), (v, e.2));
            proof {
                assert forall|k: Seq<char>| #[trigger] m@.contains_key(k) <==> exists|x: int|
                        0 <= x < j + 1 && t.items()[x].0@ == k by {
                    if k == e.0@ {
                        assert(t.items()[j as int].0@ == k);
                    } else if exists|x: int| 0 <= x < j + 1 && t.items()[x].0@ == k {
                        let x = choose|x: int| 0 <= x < j + 1 && t.items()[x].0@ == k;
                        assert(x != j);
                    }
                }
            }
            j = j + 1;
        }
        proof {
            let tm = t@.map_values(
                |v: (usize, Mutability)|
                    (
                        if v.0 <= idx {
                            v.0
                        } else {
                            idx
                        },
                        v.1,
                    ),
            );
            assert forall|k: Seq<char>| #[trigger] m@.contains_key(k) == tm.contains_key(k) by {
                if t@.contains_key(k) {
                    let x = choose|x: int| 0 <= x < t.items().len() && t.items()[x].0@ == k;
                }
            }
            assert(m@ =~= tm);
            assert(target[i as int] == tm);
        }
        let ghost o0 = out@;
        out.push(m);
        proof {
            assert(out@ =~= o0.push(m));
            assert(stack_view(out@) =~= stack_view(o0).push(m@));
            assert(target.subrange(0, i + 1) =~= target.subrange(0, i as int).push(target[i as int]));
            assert forall|x: int| 0 <= x < out@.len() implies (#[trigger] out@[x]).wf() by {
                if x < o0.len() {
                    assert(out@[x] == o0[x]);
                }
            }
        }
        i = i + 1;
    }
    assert(target.subrange(0, scope.len() as int) =~= target);
    out
}

// ---------------------------------------------------------------------------
// The graph, mathematically
// ---------------------------------------------------------------------------

/// A dependency graph: its node weights by index and its set of edges.
#[verifier::ext_equal]
pub struct GModel {
    pub nodes: Seq<Option<MetaModel>>,
    pub edges: Set<(usize, usize)>,
}

/// The content of a dependency graph.
pub open spec fn graph_model(g: CodeGraph) -> GModel {
    GModel { nodes: code_nodes(g), edges: code_edges(g).to_set() }
}

/// A graph the analysis works on: no edge twice, every edge between nodes of
/// the graph, and no more nodes than indices can name.
pub open spec fn graph_ok(g: CodeGraph) -> bool {
    &&& code_edges(g).no_duplicates()
    &&& edges_in_range(g)
    &&& code_nodes(g).len() <= NODE_LIMIT
}

/// Every binding of a stack of scopes names a declaration index below the
/// limit.
pub open spec fn scope_bounded(s: ScopeModel) -> bool {
    forall|i: int, k: Seq<char>|
        0 <= i < s.len() && #[trigger] s[i].contains_key(k) ==> s[i][k].0 < NODE_LIMIT
}

/// The estimated cost of evaluating an expression.
pub open spec fn expr_complexity(e: ExprModel) -> nat {
    match e {
        ExprModel::MapExpr(..) | ExprModel::FilterExpr(..) | ExprModel::ScanlExpr(..)
        | ExprModel::FoldlExpr(..) => 2,
        _ => 1,
    }
}

/// What the names of `names` are bound to, in order, those without a binding
/// left out.
pub open spec fn lookups(s: ScopeModel, names: Seq<Seq<char>>) -> Seq<(usize, Mutability)>
    decreases names.len(),
{
    if names.len() == 0 {
        Seq::empty()
    } else {
        match scope_lookup(s, names.last()) {
            Some(v) => lookups(s, names.drop_last()).push(v),
            None => lookups(s, names.drop_last()),
        }
    }
}

/// The indices of the dependencies that are mutable.
pub open spec fn mut_set(deps: Seq<(usize, Mutability)>) -> Set<usize> {
    Set::new(|k: usize| exists|j: int| 0 <= j < deps.len() && deps[j] == (k, Mutability::Mutable))
}

/// The node of a declaration that has no loop body recorded yet.
pub open spec fn meta_of(complexity: nat, deps: Seq<(usize, Mutability)>, class: Class, d: DeclModel) -> MetaModel {
    MetaModel {
        complexity,
        mut_deps: mut_set(deps),
        class,
        decl: d,
        loops_decls_indexes: Seq::empty(),
    }
}

/// Node `i` set to `m`, where it exists; else `m` added as the last node.
pub open spec fn with_node(g: GModel, i: usize, m: MetaModel) -> GModel {
    if g.nodes.len() <= i {
        GModel { nodes: g.nodes.push(Some(m)), edges: g.edges }
    } else {
        GModel { nodes: g.nodes.update(i as int, Some(m)), edges: g.edges }
    }
}

/// Empty nodes added until node `m` exists.
pub open spec fn grow(g: GModel, m: usize) -> GModel {
    if g.nodes.len() > m {
        g
    } else {
        GModel {
            nodes: g.nodes + Seq::new((m + 1 - g.nodes.len()) as nat, |j: int| None::<MetaModel>),
            edges: g.edges,
        }
    }
}

/// The larger of two indices.
pub open spec fn max_index(a: usize, b: usize) -> usize {
    if a >= b {
        a
    } else {
        b
    }
}

/// An edge from `a` to `b` added where there is none; `None` where the graph
/// already holds as many edges as edge indices can name.
pub open spec fn edge_added(g: GModel, a: usize, b: usize) -> Option<GModel> {
    if g.edges.contains((a, b)) || (g.edges.finite() && g.edges.len() < NODE_LIMIT) {
        Some(with_edge(g, a, b))
    } else {
        None
    }
}

/// Edges were added to `g0` one at a time, each where it was missing, to give
/// `g` without running out of edge indices: either none was added, or `g`
/// holds no more edges than the indices can name.
pub open spec fn edges_fit(g0: GModel, g: GModel) -> bool {
    g.edges == g0.edges || (g.edges.finite() && g.edges.len() <= NODE_LIMIT)
}

/// For each dependency in turn: empty nodes added until both ends exist, then
/// an edge from the dependency to `cur` (see `edge_added`).
pub open spec fn add_deps(g: GModel, deps: Seq<(usize, Mutability)>, cur: usize) -> Option<GModel>
    decreases deps.len(),
{
    if deps.len() == 0 {
        Some(g)
    } else {
        match add_deps(g, deps.drop_last(), cur) {
            None => None,
            Some(g0) => edge_added(grow(g0, max_index(deps.last().0, cur)), deps.last().0, cur),
        }
    }
}

/// The node of a declaration added, with edges from its dependencies.
pub open spec fn simple_step(g: GModel, i: usize, m: MetaModel, deps: Seq<(usize, Mutability)>) -> Option<GModel> {
    add_deps(with_node(g, i, m), deps, i)
}

/// Node `a` removed: the last node takes its index, its edges go, and the
/// edges of the last node follow it; where `a` is no node, nothing changes.
pub open spec fn remove_node_model(g: GModel, a: usize) -> GModel {
    let n = g.nodes.len();
    if a < n {
        GModel {
            nodes: g.nodes.update(a as int, g.nodes.last()).drop_last(),
            edges: Set::new(
                |p: (usize, usize)|
                    p.0 < n - 1 && p.1 < n - 1 && g.edges.contains(
                        (renamed(p.0, a, n), renamed(p.1, a, n)),
                    ),
            ),
        }
    } else {
        g
    }
}

/// An edge added between two existing nodes.
pub open spec fn with_edge(g: GModel, a: usize, b: usize) -> GModel {
    GModel { nodes: g.nodes, edges: g.edges.insert((a, b)) }
}

/// The edges with an end past `t`.
pub open spec fn outer_edges(g: GModel, t: usize) -> Set<(usize, usize)> {
    g.edges.filter(|p: (usize, usize)| p.0 > t || p.1 > t)
}

/// One edge with an end past `t` redirected: its target removed, then an edge
/// from its source to `t` where the source comes before `t`, or its source
/// removed too where it comes after. `None` where the new edge has no node to
/// start or end at.
pub open spec fn redirect_one(g: GModel, t: usize, e: (usize, usize)) -> Option<GModel> {
    let g1 = remove_node_model(g, e.1);
    if e.0 < t {
        if e.0 < g1.nodes.len() && t < g1.nodes.len() {
            edge_added(g1, e.0, t)
        } else {
            None
        }
    } else if e.0 > t {
        Some(remove_node_model(g1, e.0))
    } else {
        Some(g1)
    }
}

/// The edges of `order` redirected one after the other.
pub open spec fn redirect_steps(g: GModel, t: usize, order: Seq<(usize, usize)>) -> Option<GModel>
    decreases order.len(),
{
    if order.len() == 0 {
        Some(g)
    } else {
        match redirect_steps(g, t, order.drop_last(), ) {
            None => None,
            Some(g1) => redirect_one(g1, t, order.last()),
        }
    }
}

/// The graph after the branches of the condition at `t`: its edges with an end
/// past `t` are removed and then redirected in turn, in the order `order` in
/// which the graph indexes them (which the graph's history decides), and the
/// edges from a node to itself are dropped.
pub open spec fn redirected(g: GModel, t: usize, r: Option<GModel>, order: Seq<(usize, usize)>) -> bool {
    &&& order.no_duplicates()
    &&& order.to_set() == outer_edges(g, t)
    &&& r == match redirect_steps(
        GModel { nodes: g.nodes, edges: g.edges.difference(outer_edges(g, t)) },
        t,
        order,
    ) {
        None => None,
        Some(g2) => Some(drop_self_loops(g2)),
    }
}

/// The edges from a node to itself dropped.
pub open spec fn drop_self_loops(g: GModel) -> GModel {
    GModel { nodes: g.nodes, edges: g.edges.filter(|p: (usize, usize)| p.0 != p.1) }
}

/// The edges of `es` added to `g`; `None` where one of them has an end that is
/// no node of `g`, or where they do not fit (see `edges_fit`).
pub open spec fn union_edges(g: GModel, es: Set<(usize, usize)>) -> Option<GModel> {
    let g2 = GModel { nodes: g.nodes, edges: g.edges.union(es) };
    if (forall|p: (usize, usize)| #[trigger] es.contains(p) ==> p.0 < g.nodes.len() && p.1 < g.nodes.len())
        && edges_fit(g, g2) {
        Some(g2)
    } else {
        None
    }
}

/// An edge to the loop at `init` from every source of an edge into `n` that
/// comes before the loop.
pub open spec fn loop_pred_edges(edges: Set<(usize, usize)>, init: usize, n: usize) -> Set<(usize, usize)> {
    Set::new(|p: (usize, usize)| p.1 == init && p.0 < init && edges.contains((p.0, n)))
}

/// Declaration `n` of the body of the loop at `init` recorded with the loop:
/// its index added to the loop's node, an edge to the loop from every source
/// of an edge into `n` that comes before the loop, and an edge from the loop
/// to `n` (always for a `for` loop, for a `while` loop where `n` is a loop).
/// `None` where the loop's node or, where it is needed, node `n` is missing
/// or empty, or where the edges do not fit (see `edges_fit`, `edge_added`).
pub open spec fn loop_step(g: GModel, init: usize, n: usize, is_for: bool) -> Option<GModel> {
    if init < g.nodes.len() && g.nodes[init as int] is Some {
        let m = g.nodes[init as int]->Some_0;
        let m2 = MetaModel { loops_decls_indexes: m.loops_decls_indexes.push(n), ..m };
        let g1 = GModel { nodes: g.nodes.update(init as int, Some(m2)), edges: g.edges };
        let g2 = GModel {
            nodes: g1.nodes,
            edges: g1.edges.union(
                loop_pred_edges(g1.edges, init, n),
            ),
        };
        if n < g2.nodes.len() && edges_fit(g1, g2) {
            if is_for {
                edge_added(g2, init, n)
            } else if g2.nodes[n as int] is Some {
                if g2.nodes[n as int]->Some_0.class == Class::Loop {
                    edge_added(g2, init, n)
                } else {
                    Some(g2)
                }
            } else {
                None
            }
        } else {
            None
        }
    } else {
        None
    }
}

/// The declarations `init + 1 .. k` of the loop at `init` recorded in turn.
pub open spec fn loop_upto(g: GModel, init: usize, k: usize, is_for: bool) -> Option<GModel>
    decreases k,
{
    if k <= init + 1 {
        Some(g)
    } else {
        match loop_upto(g, init, (k - 1) as usize, is_for) {
            None => None,
            Some(g1) => loop_step(g1, init, (k - 1) as usize, is_for),
        }
    }
}

/// What remains of a loop after its body was analyzed twice (`gb` after the
/// first pass, `gb2`, `sb2` and `idx` after the second): the edges of the first
/// pass added to the second, for a `while` loop edges from what its condition
/// reads after the body, and the body recorded with the loop.
pub open spec fn loop_finish(
    gb: GModel,
    gb2: GModel,
    sb2: ScopeModel,
    idx: usize,
    init: usize,
    cond: Option<ExprModel>,
) -> Option<(GModel, ScopeModel, usize)> {
    match union_edges(gb2, gb.edges) {
        None => None,
        Some(g3) => {
            let deps2 = match cond {
                Some(c) => lookups(sb2, vars_of(c)),
                None => Seq::empty(),
            };
            if g3.nodes.len() == 0 && deps2.len() > 0 {
                None
            } else {
                match add_deps(g3, deps2, init) {
                    None => None,
                    Some(g4) => match loop_upto(g4, init, idx, cond is None) {
                        None => None,
                        Some(g5) => Some((g5, scope_remove(sb2), idx)),
                    },
                }
            }
        },
    }
}

/// The two passes over the body of a loop at `i`, which start from `g1` and
/// the scopes `s1`; `tr` holds what each pass gave.
pub open spec fn loop_analyzed(
    body: DeclModel,
    i: usize,
    g1: GModel,
    s1: ScopeModel,
    cond: Option<ExprModel>,
    r: Option<(GModel, ScopeModel, usize)>,
    tr: Trace,
) -> bool
    decreases decl_size(body) + 1, 1nat,
{
    match tr {
        Trace::Passes(o1, tr1, o2, tr2) => {
            &&& analyzed(body, (i + 1) as usize, g1, s1, o1, *tr1)
            &&& match o1 {
                None => r is None,
                Some(p1) => {
                    &&& analyzed(body, (i + 1) as usize, g1, p1.1, o2, *tr2)
                    &&& match o2 {
                        None => r is None,
                        Some(p2) => r == loop_finish(p1.0, p2.0, p2.1, p2.2, i, cond),
                    }
                },
            }
        },
        _ => false,
    }
}

/// What an analysis went through: for a block, what each of its declarations
/// gave; for a condition, what each branch gave and the order of the redirected
/// edges; for a loop, what each pass over its body gave.
pub enum Trace {
    Simple,
    Block(Option<(GModel, ScopeModel, usize)>, Seq<(Option<(GModel, ScopeModel, usize)>, Trace)>),
    Branches(
        Option<(GModel, ScopeModel, usize)>,
        Box<Trace>,
        Option<(GModel, ScopeModel, usize)>,
        Box<Trace>,
        Seq<(usize, usize)>,
    ),
    Passes(Option<(GModel, ScopeModel, usize)>, Box<Trace>, Option<(GModel, ScopeModel, usize)>, Box<Trace>),
}

/// The scopes after a condition at `t`: the two branches' merged, preferring
/// the larger index, every index lowered to at most `t`, and the branch scope
/// left.
pub open spec fn cond_scope(st: ScopeModel, se: ScopeModel, t: usize) -> ScopeModel {
    scope_remove(clamp_stack(merge_stacks(st, se, true), t))
}

/// What the analysis of declaration `d`, numbered `i`, makes of the graph `g`
/// and the scopes `s` along the trace `tr`: `Some` of the graph, the scopes and
/// the index of the last declaration analyzed, or `None` where the analysis
/// fails (an assignment to an undeclared name, a declaration that is empty, a
/// node that the graph lacks where one is needed, or a new edge where the graph
/// has no edge index left). Declarations are numbered
/// in the order they are written, an enclosing one before those it holds.
pub open spec fn analyzed(
    d: DeclModel,
    i: usize,
    g: GModel,
    s: ScopeModel,
    r: Option<(GModel, ScopeModel, usize)>,
    tr: Trace,
) -> bool
    decreases decl_size(d), 2nat,
{
    match d {
        DeclModel::Empty => r is None,
        DeclModel::VarDecl(name, e, m) => {
            let deps = lookups(s, vars_of(e));
            r == match simple_step(g, i, meta_of(expr_complexity(e), deps, Class::Ordinary, d), deps) {
                None => None,
                Some(g2) => Some((g2, scope_declare(s, name, (i, m)), i)),
            }
        },
        DeclModel::Stmt(st) => match st {
            StmtModel::Print(e) => {
                let deps = lookups(s, vars_of(e));
                r == match simple_step(g, i, meta_of(4, deps, Class::Ordinary, d), deps) {
                    None => None,
                    Some(g2) => Some((g2, s, i)),
                }
            },
            StmtModel::Expression(e) => {
                let deps = lookups(s, vars_of(e));
                r == match simple_step(g, i, meta_of(expr_complexity(e), deps, Class::Ordinary, d), deps) {
                    None => None,
                    Some(g2) => Some((g2, s, i)),
                }
            },
            StmtModel::Assign(name, e) => {
                let deps0 = lookups(s, vars_of(e));
                let deps = match scope_lookup(s, name) {
                    Some(v) => deps0.push(v),
                    None => deps0,
                };
                match simple_step(g, i, meta_of(expr_complexity(e), deps, Class::Ordinary, d), deps) {
                    None => r is None,
                    Some(g2) => match scope_assign(s, name, i) {
                        None => r is None,
                        Some(s2) => r == Some((g2, s2, i)),
                    },
                }
            },
            StmtModel::Block(ds) => match tr {
                Trace::Block(o, trs) => {
                    let g1 = with_node(g, i, meta_of(0, Seq::empty(), Class::Ordinary, d));
                    &&& analyzed_seq(ds, (i + 1) as usize, g1, s.push(Map::empty()), 0, o, trs)
                    &&& r == match o {
                        None => None,
                        Some(p) => Some((p.0, scope_remove(p.1), p.2)),
                    }
                },
                _ => false,
            },
            StmtModel::Condition(c, a, b) => match tr {
                Trace::Branches(ot, ttr, oe, etr, order) => {
                    let deps = lookups(s, vars_of(c));
                    let o1 = simple_step(g, i, meta_of(1, deps, Class::Ordinary, d), deps);
                    let g1 = o1->Some_0;
                    let sb = s.push(Map::empty());
                    &&& o1 is None ==> r is None
                    &&& o1 is Some ==> {
                    &&& analyzed(DeclModel::Stmt(*a), (i + 1) as usize, g1, sb, ot, *ttr)
                    &&& match ot {
                        None => r is None,
                        Some(t) => match b {
                            None => match r {
                                None => redirected(t.0, i, None, order),
                                Some(q) => q.1 == cond_scope(t.1, sb, i) && q.2 == t.2 && redirected(
                                    t.0,
                                    i,
                                    Some(q.0),
                                    order,
                                ),
                            },
                            Some(eb) => {
                                &&& analyzed(
                                    DeclModel::Stmt(*eb),
                                    (i + 1 + stmt_size(*a)) as usize,
                                    t.0,
                                    sb,
                                    oe,
                                    *etr,
                                )
                                &&& match oe {
                                    None => r is None,
                                    Some(e) => match r {
                                        None => redirected(e.0, i, None, order),
                                        Some(q) => q.1 == cond_scope(t.1, e.1, i) && q.2 == e.2 && redirected(
                                            e.0,
                                            i,
                                            Some(q.0),
                                            order,
                                        ),
                                    },
                                }
                            },
                        },
                    }
                    }
                },
                _ => false,
            },
            StmtModel::While(c, b) => {
                let deps = lookups(s, vars_of(c));
                match simple_step(g, i, meta_of(2, deps, Class::Loop, d), deps) {
                    None => r is None,
                    Some(g1) => loop_analyzed(DeclModel::Stmt(*b), i, g1, s.push(Map::empty()), Some(c), r, tr),
                }
            },
            StmtModel::For(name, arr, b) => {
                let deps = lookups(s, vars_of(arr));
                match simple_step(g, i, meta_of(2, deps, Class::Loop, d), deps) {
                    None => r is None,
                    Some(g1) => loop_analyzed(
                        DeclModel::Stmt(*b),
                        i,
                        g1,
                        s.push(Map::empty().insert(name, (i, Mutability::Immutable))),
                        None,
                        r,
                        tr,
                    ),
                }
            },
        },
    }
}

/// What the analysis of the declarations `ds`, the first numbered `i`, makes
/// of `g` and `s` along `trs`, which holds what each declaration analyzed gave;
/// `last` is the index of the last declaration analyzed before them (0 at the
/// start).
pub open spec fn analyzed_seq(
    ds: Seq<DeclModel>,
    i: usize,
    g: GModel,
    s: ScopeModel,
    last: usize,
    r: Option<(GModel, ScopeModel, usize)>,
    trs: Seq<(Option<(GModel, ScopeModel, usize)>, Trace)>,
) -> bool
    decreases decls_size(ds), 3nat,
{
    if ds.len() == 0 {
        r == Some((g, s, last))
    } else {
        &&& trs.len() > 0
        &&& analyzed(ds[0], i, g, s, trs[0].0, trs[0].1)
        &&& match trs[0].0 {
            None => r is None,
            Some(p) => analyzed_seq(
                ds.subrange(1, ds.len() as int),
                (i + decl_size(ds[0])) as usize,
                p.0,
                p.1,
                p.2,
                r,
                trs.subrange(1, trs.len() as int),
            ),
        }
    }
}

/// What the analysis of a script makes of an empty graph: `Some` of the graph,
/// the scopes and the last index, or `None` where it fails, along some trace.
pub open spec fn analyzes_to(ds: Seq<DeclModel>, r: Option<(GModel, ScopeModel, usize)>) -> bool {
    exists|trs: Seq<(Option<(GModel, ScopeModel, usize)>, Trace)>|
        #[trigger] analyzed_seq(
            ds,
            0,
            GModel { nodes: Seq::empty(), edges: Set::empty() },
            Seq::empty(),
            0,
            r,
            trs,
        )
}

// ---------------------------------------------------------------------------
// Building the graph
// ---------------------------------------------------------------------------

/// The estimated cost of evaluating an expression: 2 for a comprehension, 1
/// for anything else.
fn get_expr_complexity(e: &Expr) -> (r: usize)
    ensures
        r == expr_complexity(e@),
{
    match e {
        Expr::MapExpr(..) => 2,
        Expr::FilterExpr(..) => 2,
        Expr::ScanlExpr(..) => 2,
        Expr::FoldlExpr(..) => 2,
        _ => 1,
    }
}

/// What the names are bound to, in order, those without a binding left out.
fn lookup_deps(scope: &ScopeStack, names: &Vec<String>) -> (r: Vec<(usize, Mutability)>)
    requires
        stack_wf(scope@),
    ensures
        r@ == lookups(stack_view(scope@), names_of(names@)),
{
    let ghost sv = stack_view(scope@);
    let ghost nv = names_of(names@);
    let mut r: Vec<(usize, Mutability)> = Vec::new();
    let mut i: usize = 0;
    assert(nv.take(0) =~= Seq::<Seq<char>>::empty());
    while i < names.len()
        invariant
            i <= names.len(),
            stack_wf(scope@),
            sv == stack_view(scope@),
            nv == names_of(names@),
            nv.len() == names.len(),
            r@ == lookups(sv, nv.take(i as int)),
        decreases names.len() - i,
    {
        let found = env_lookup(scope, &names[i]);
        proof {
            assert(nv.take(i + 1).drop_last() =~= nv.take(i as int));
            assert(nv.take(i + 1).last() == names@[i as int]@);
        }
        match found {
            Some(v) => {
                r.push(v);
            },
            None => {},
        }
        i = i + 1;
    }
    assert(nv.take(names.len() as int) =~= nv);
    r
}

/// The indices of the dependencies that are mutable.
fn mut_dep_set(deps: &Vec<(usize, Mutability)>) -> (r: HashSet<usize>)
    ensures
        r@ == mut_set(deps@),
{
    let mut r: HashSet<usize> = HashSet::new();
    let mut i: usize = 0;
    while i < deps.len()
        invariant
            i <= deps.len(),
            forall|k: usize|
                #[trigger] r@.contains(k) <==> exists|j: int|
                    0 <= j < i && deps@[j] == (k, Mutability::Mutable),
        decreases deps.len() - i,
    {
        let (k, m) = deps[i];
        if m == Mutability::Mutable {
            r.insert(k);
        }
        proof {
            assert forall|x: usize| #[trigger] r@.contains(x) <==> exists|j: int|
                    0 <= j < i + 1 && deps@[j] == (x, Mutability::Mutable) by {
                if exists|j: int| 0 <= j < i + 1 && deps@[j] == (x, Mutability::Mutable) {
                    let j = choose|j: int| 0 <= j < i + 1 && deps@[j] == (x, Mutability::Mutable);
                    if j < i {
                        assert(exists|j: int| 0 <= j < i && deps@[j] == (x, Mutability::Mutable));
                    }
                }
                if r@.contains(x) && !(x == k && m == Mutability::Mutable) {
                    let j = choose|j: int| 0 <= j < i && deps@[j] == (x, Mutability::Mutable);
                    assert(0 <= j < i + 1);
                }
            }
        }
        i = i + 1;
    }
    assert(r@ =~= mut_set(deps@));
    r
}

/// The node of a declaration that has no loop body recorded yet.
fn make_meta(complexity: usize, deps: &Vec<(usize, Mutability)>, class: Class, decl: &Decl) -> (r: DeclarationMeta)
    ensures
        r@ == meta_of(complexity as nat, deps@, class, decl@),
{
    let r = DeclarationMeta {
        complexity,
        mut_deps: mut_dep_set(deps),
        class,
        decl: Arc::new(duplicate_decl(decl)),
        loops_decls_indexes: Vec::new(),
    };
    assert(r.loops_decls_indexes@ =~= Seq::<usize>::empty());
    r
}

/// After an edge is added where it was missing, no edge is there twice.
proof fn lemma_push_no_dup(s: Seq<(usize, usize)>, x: (usize, usize))
    requires
        s.no_duplicates(),
        !s.contains(x),
    ensures
        s.push(x).no_duplicates(),
        s.push(x).to_set() == s.to_set().insert(x),
{
    assert forall|i: int, j: int|
        0 <= i < s.push(x).len() && 0 <= j < s.push(x).len() && i != j implies s.push(x)[i] != s.push(x)[j] by {
        if i < s.len() && j < s.len() {
        } else if i == s.len() {
            assert(s.push(x)[j] == s[j]);
        } else {
            assert(s.push(x)[i] == s[i]);
        }
    }
    assert forall|y: (usize, usize)| #[trigger] s.push(x).to_set().contains(y) == s.to_set().insert(x).contains(y) by {
        if s.push(x).contains(y) && y != x {
            let k = choose|k: int| 0 <= k < s.push(x).len() && s.push(x)[k] == y;
            assert(s[k] == y);
        }
        if s.contains(y) {
            let k = choose|k: int| 0 <= k < s.len() && s[k] == y;
            assert(s.push(x)[k] == y);
        }
        if y == x {
            assert(s.push(x)[s.len() as int] == y);
        }
    }
    assert(s.push(x).to_set() =~= s.to_set().insert(x));
}

/// A graph the analysis works on holds finitely many edges, as many as its
/// list of edges.
proof fn lemma_edge_count(g: CodeGraph)
    requires
        graph_ok(g),
    ensures
        graph_model(g).edges.finite(),
        graph_model(g).edges.len() == code_edges(g).len(),
{
    vstd::seq_lib::seq_to_set_is_finite(code_edges(g));
    code_edges(g).unique_seq_to_set();
}

/// Adds an edge from `a` to `b` where there is none (see `edge_added`): false,
/// with nothing changed, where the graph has no index left for a new edge.
fn add_edge_once(g: &mut CodeGraph, a: usize, b: usize) -> (ok: bool)
    requires
        graph_ok(*old(g)),
        a < code_nodes(*old(g)).len(),
        b < code_nodes(*old(g)).len(),
    ensures
        graph_ok(*final(g)),
        edge_added(graph_model(*old(g)), a, b) == if ok {
            Some(graph_model(*final(g)))
        } else {
            None
        },
        !ok ==> *final(g) == *old(g),
        ok ==> code_edges(*final(g)).len() <= NODE_LIMIT || code_edges(*final(g)) == code_edges(*old(g)),
{
    let ghost e0 = code_edges(*g);
    proof {
        lemma_edge_count(*g);
    }
    if code_edge_count(g) >= NODE_LIMIT {
        if code_find_edge(g, a, b).is_none() {
            return false;
        }
    }
    code_update_edge(g, a, b);
    proof {
        if e0.contains((a, b)) {
            assert(e0.to_set().insert((a, b)) =~= e0.to_set());
        } else {
            lemma_push_no_dup(e0, (a, b));
        }
        assert forall|e: int| 0 <= e < code_edges(*g).len() implies (#[trigger] code_edges(*g)[e]).0 < code_nodes(*g).len()
            && code_edges(*g)[e].1 < code_nodes(*g).len() by {
            if e < e0.len() {
                assert(code_edges(*g)[e] == e0[e]);
            }
        }
    }
    true
}

/// Sets node `i` to `meta` where it exists, else adds `meta` as the last node.
fn update_node(g: &mut CodeGraph, i: usize, meta: DeclarationMeta)
    requires
        graph_ok(*old(g)),
        i < NODE_LIMIT,
    ensures
        graph_ok(*final(g)),
        code_nodes(*final(g)).len() >= 1,
        graph_model(*final(g)) == with_node(graph_model(*old(g)), i, meta@),
{
    let ghost m = meta@;
    if code_node_count(g) <= i {
        code_add_node(g, Some(meta));
    } else {
        code_set_node(g, i, Some(meta));
    }
    assert(graph_model(*g) =~= with_node(graph_model(*old(g)), i, m));
}

/// For each dependency in turn: empty nodes added until both ends exist, then
/// an edge from the dependency to `cur`.
fn add_deps_to_graph(g: &mut CodeGraph, deps: &Vec<(usize, Mutability)>, cur: usize) -> (ok: bool)
    requires
        graph_ok(*old(g)),
        code_nodes(*old(g)).len() >= 1,
        cur < NODE_LIMIT,
        forall|j: int| 0 <= j < deps.len() ==> (#[trigger] deps@[j]).0 < NODE_LIMIT,
    ensures
        graph_ok(*final(g)),
        code_nodes(*final(g)).len() >= 1,
        add_deps(graph_model(*old(g)), deps@, cur) == if ok {
            Some(graph_model(*final(g)))
        } else {
            None
        },
{
    let ghost g0 = graph_model(*g);
    let mut k: usize = 0;
    assert(deps@.take(0) =~= Seq::<(usize, Mutability)>::empty());
    while k < deps.len()
        invariant
            k <= deps.len(),
            graph_ok(*g),
            code_nodes(*g).len() >= 1,
            cur < NODE_LIMIT,
            forall|j: int| 0 <= j < deps.len() ==> (#[trigger] deps@[j]).0 < NODE_LIMIT,
            g0 == graph_model(*old(g)),
            add_deps(g0, deps@.take(k as int), cur) == Some(graph_model(*g)),
        decreases deps.len() - k,
    {
        let dep = deps[k].0;
        let m = if dep >= cur {
            dep
        } else {
            cur
        };
        let ghost gk = graph_model(*g);
        let ghost n0 = code_nodes(*g).len();
        while code_node_count(g) - 1 < m
            invariant
                graph_ok(*g),
                code_nodes(*g).len() >= n0,
                n0 >= 1,
                m < NODE_LIMIT,
                code_nodes(*g).len() <= if n0 > m + 1 {
                    n0
                } else {
                    (m + 1) as nat
                },
                code_nodes(*g) == gk.nodes + Seq::new((code_nodes(*g).len() - n0) as nat, |j: int| None::<MetaModel>),
                code_edges(*g).to_set() == gk.edges,
            decreases m + 1 - code_nodes(*g).len(),
        {
            let ghost before = code_nodes(*g);
            code_add_node(g, None);
            proof {
                assert(code_nodes(*g) =~= gk.nodes + Seq::new((code_nodes(*g).len() - n0) as nat, |j: int| None::<MetaModel>));
            }
        }
        proof {
            assert(graph_model(*g) == grow(gk, m));
            assert(graph_model(*g) =~= grow(gk, m)) by {
                if n0 > m {
                    assert(code_nodes(*g).len() == n0);
                    assert(code_nodes(*g) =~= gk.nodes);
                }
            }
        }
        let added = add_edge_once(g, dep, cur);
        proof {
            assert(deps@.take(k + 1).drop_last() =~= deps@.take(k as int));
            assert(deps@.take(k + 1).last() == deps@[k as int]);
        }
        if !added {
            proof {
                lemma_add_deps_fails(g0, deps@, cur, k + 1);
            }
            return false;
        }
        k = k + 1;
    }
    assert(deps@.take(deps.len() as int) =~= deps@);
    true
}

/// Once adding the first `k` dependencies fails, adding them all fails.
proof fn lemma_add_deps_fails(g: GModel, deps: Seq<(usize, Mutability)>, cur: usize, k: int)
    requires
        0 <= k <= deps.len(),
        add_deps(g, deps.take(k), cur) is None,
    ensures
        add_deps(g, deps, cur) is None,
    decreases deps.len() - k,
{
    if k < deps.len() {
        assert(deps.take(k + 1).drop_last() =~= deps.take(k));
        lemma_add_deps_fails(g, deps, cur, k + 1);
    } else {
        assert(deps.take(k) =~= deps);
    }
}

/// Removing an edge that occurs once removes it from the set of edges.
proof fn lemma_swap_remove(s: Seq<(usize, usize)>, e: int)
    requires
        s.no_duplicates(),
        0 <= e < s.len(),
    ensures
        s.update(e, s.last()).drop_last().no_duplicates(),
        s.update(e, s.last()).drop_last().to_set() == s.to_set().remove(s[e]),
{
    let r = s.update(e, s.last()).drop_last();
    assert forall|i: int, j: int| 0 <= i < r.len() && 0 <= j < r.len() && i != j implies r[i] != r[j] by {
        let si = if i == e { s.len() - 1 } else { i };
        let sj = if j == e { s.len() - 1 } else { j };
        assert(r[i] == s[si] && r[j] == s[sj]);
    }
    assert forall|y: (usize, usize)| #[trigger] r.to_set().contains(y) == s.to_set().remove(s[e]).contains(y) by {
        if r.contains(y) {
            let i = choose|i: int| 0 <= i < r.len() && r[i] == y;
            let si = if i == e { s.len() - 1 } else { i };
            assert(s[si] == y);
        }
        if s.contains(y) && y != s[e] {
            let i = choose|i: int| 0 <= i < s.len() && s[i] == y;
            if i == s.len() - 1 {
                if e < s.len() - 1 {
                    assert(r[e] == y);
                }
            } else {
                assert(i != e);
                assert(r[i] == y);
            }
        }
    }
    assert(r.to_set() =~= s.to_set().remove(s[e]));
}

/// What removing a node does to a graph without repeated edges.
proof fn lemma_remove_node(old_edges: Seq<(usize, usize)>, new_edges: Seq<(usize, usize)>, a: usize, n: nat)
    requires
        old_edges.no_duplicates(),
        a < n,
        forall|s: usize, t: usize|
            #[trigger] new_edges.to_multiset().count((s, t)) == if s < n - 1 && t < n - 1 {
                old_edges.to_multiset().count((renamed(s, a, n), renamed(t, a, n)))
            } else {
                0
            },
    ensures
        new_edges.no_duplicates(),
        forall|p: (usize, usize)|
            #[trigger] new_edges.to_set().contains(p) == (p.0 < n - 1 && p.1 < n - 1
                && old_edges.to_set().contains((renamed(p.0, a, n), renamed(p.1, a, n)))),
{
    broadcast use vstd::seq_lib::group_to_multiset_ensures;

    old_edges.lemma_multiset_has_no_duplicates();
    assert forall|x: (usize, usize)| new_edges.to_multiset().contains(x) implies new_edges.to_multiset().count(x) == 1 by {
        let c = new_edges.to_multiset().count((x.0, x.1));
        assert(old_edges.to_multiset().count((renamed(x.0, a, n), renamed(x.1, a, n))) <= 1) by {
            if old_edges.to_multiset().count((renamed(x.0, a, n), renamed(x.1, a, n))) > 0 {
                assert(old_edges.to_multiset().contains((renamed(x.0, a, n), renamed(x.1, a, n))));
            }
        }
    }
    new_edges.lemma_multiset_has_no_duplicates_conv();
    assert forall|p: (usize, usize)| #[trigger] new_edges.to_set().contains(p) == (p.0 < n - 1 && p.1 < n - 1
        && old_edges.to_set().contains((renamed(p.0, a, n), renamed(p.1, a, n)))) by {
        assert(new_edges.to_multiset().count((p.0, p.1)) == new_edges.to_multiset().count(p));
    }
}

/// Removes node `a` where it exists.
fn remove_node(g: &mut CodeGraph, a: usize)
    requires
        graph_ok(*old(g)),
        a < NODE_LIMIT,
    ensures
        graph_ok(*final(g)),
        graph_model(*final(g)) == remove_node_model(graph_model(*old(g)), a),
{
    let ghost e0 = code_edges(*g);
    let ghost n = code_nodes(*g).len();
    code_remove_node(g, a);
    proof {
        if a < n {
            lemma_remove_node(e0, code_edges(*g), a, n);
            assert(graph_model(*g).edges =~= remove_node_model(graph_model(*old(g)), a).edges);
        }
    }
}

/// Once a prefix of the redirections fails, all of them fail.
proof fn lemma_redirect_fails(g: GModel, t: usize, order: Seq<(usize, usize)>, k: int)
    requires
        0 <= k <= order.len(),
        redirect_steps(g, t, order.take(k)) is None,
    ensures
        redirect_steps(g, t, order) is None,
    decreases order.len() - k,
{
    if k < order.len() {
        assert(order.take(k + 1).drop_last() =~= order.take(k));
        lemma_redirect_fails(g, t, order, k + 1);
    } else {
        assert(order.take(k) =~= order);
    }
}

/// Redirects the edges with an end past `t` (see `redirect_one`): false where
/// an edge to `t` has no node to start or end at.
fn redirect_edges_to_target(g: &mut CodeGraph, t: usize) -> (ok: bool)
    requires
        graph_ok(*old(g)),
        t < NODE_LIMIT,
    ensures
        ok ==> graph_ok(*final(g)),
        exists|order: Seq<(usize, usize)>|
            #![trigger redirect_steps(
                GModel {
                    nodes: graph_model(*old(g)).nodes,
                    edges: graph_model(*old(g)).edges.difference(outer_edges(graph_model(*old(g)), t)),
                },
                t,
                order,
            )]
            order.no_duplicates() && order.to_set() == outer_edges(graph_model(*old(g)), t)
                && redirect_steps(
                GModel {
                    nodes: graph_model(*old(g)).nodes,
                    edges: graph_model(*old(g)).edges.difference(outer_edges(graph_model(*old(g)), t)),
                },
                t,
                order,
            ) == if ok {
                Some(graph_model(*final(g)))
            } else {
                None::<GModel>
            },
{
    let ghost g0 = graph_model(*g);
    let ghost e0 = code_edges(*g);
    let ghost n0 = code_nodes(*g).len();
    proof {
        lemma_model_in_range(*g);
    }
    let all = code_edge_list(g);
    let mut outer: Vec<(usize, usize)> = Vec::new();
    let mut k: usize = 0;
    while k < all.len()
        invariant
            k <= all.len(),
            all@ == e0,
            e0.no_duplicates(),
            outer@.no_duplicates(),
            forall|x: (usize, usize)|
                #[trigger] outer@.contains(x) <==> (e0.take(k as int).contains(x) && (x.0 > t || x.1 > t)),
        decreases all.len() - k,
    {
        let (a, b) = all[k];
        let ghost o0 = outer@;
        if a > t || b > t {
            proof {
                let s0 = e0.take(k as int);
                if o0.contains((a, b)) {
                    let i = choose|i: int| 0 <= i < s0.len() && s0[i] == (a, b);
                    assert(e0[i] == e0[k as int]);
                }
            }
            outer.push((a, b));
            proof {
                lemma_push_no_dup(o0, (a, b));
            }
        }
        proof {
            let s1 = e0.take(k + 1);
            let s0 = e0.take(k as int);
            assert forall|x: (usize, usize)|
                #[trigger] outer@.contains(x) <==> (s1.contains(x) && (x.0 > t || x.1 > t)) by {
                if s1.contains(x) {
                    let i = choose|i: int| 0 <= i < s1.len() && s1[i] == x;
                    if i < k {
                        assert(s0[i] == x);
                    }
                }
                if s0.contains(x) {
                    let i = choose|i: int| 0 <= i < s0.len() && s0[i] == x;
                    assert(s1[i] == x);
                }
                if outer@.contains(x) && !o0.contains(x) {
                    assert(x == (a, b));
                    assert(s1[k as int] == x);
                }
                if o0.contains(x) {
                    let i = choose|i: int| 0 <= i < o0.len() && o0[i] == x;
                    assert(outer@[i] == x);
                }
                if x == (a, b) && (a > t || b > t) {
                    assert(outer@[outer@.len() - 1] == x);
                }
            }
        }
        k = k + 1;
    }
    let ghost order = outer@;
    proof {
        assert(e0.take(all.len() as int) =~= e0);
        assert(order.to_set() =~= outer_edges(g0, t));
    }
    let mut j: usize = 0;
    while j < outer.len()
        invariant
            j <= outer.len(),
            order == outer@,
            order.no_duplicates(),
            order.to_set() == outer_edges(g0, t),
            g0.edges == e0.to_set(),
            edges_in_range_model(g0),
            graph_ok(*g),
            code_nodes(*g) == g0.nodes,
            graph_model(*g).edges == g0.edges.difference(order.take(j as int).to_set()),
        decreases outer.len() - j,
    {
        let (src, dst) = outer[j];
        proof {
            assert(order.to_set().contains(order[j as int]));
            assert(g0.edges.contains((src, dst)));
            let oj = order.take(j as int);
            if oj.to_set().contains((src, dst)) {
                let i = choose|i: int| 0 <= i < oj.len() && oj[i] == (src, dst);
                assert(order[i] == order[j as int]);
            }
            assert(graph_model(*g).edges.contains((src, dst)));
        }
        let ghost s0 = code_edges(*g);
        match code_find_edge(g, src, dst) {
            Some(e) => {
                code_remove_edge(g, e);
                proof {
                    lemma_swap_remove(s0, e as int);
                    assert forall|x: int| 0 <= x < code_edges(*g).len() implies (#[trigger] code_edges(*g)[x]).0
                        < code_nodes(*g).len() && code_edges(*g)[x].1 < code_nodes(*g).len() by {
                        let y = if x == e { s0.len() - 1 } else { x };
                        assert(code_edges(*g)[x] == s0[y]);
                    }
                }
            },
            None => {},
        }
        proof {
            assert(order.take(j + 1).to_set() =~= order.take(j as int).to_set().insert((src, dst))) by {
                assert(order.take(j + 1) =~= order.take(j as int).push((src, dst)));
                lemma_to_set_push(order.take(j as int), (src, dst));
            }
            assert(graph_model(*g).edges =~= g0.edges.difference(order.take(j + 1).to_set()));
        }
        j = j + 1;
    }
    let ghost cut = GModel { nodes: g0.nodes, edges: g0.edges.difference(outer_edges(g0, t)) };
    proof {
        assert(order.take(order.len() as int) =~= order);
        assert(graph_model(*g) =~= cut);
        assert(order.take(0) =~= Seq::<(usize, usize)>::empty());
    }
    let mut k: usize = 0;
    while k < outer.len()
        invariant
            k <= outer.len(),
            order == outer@,
            order.no_duplicates(),
            order.to_set() == outer_edges(g0, t),
            g0 == graph_model(*old(g)),
            cut == (GModel { nodes: g0.nodes, edges: g0.edges.difference(outer_edges(g0, t)) }),
            g0.edges == e0.to_set(),
            edges_in_range_model(g0),
            g0.nodes.len() <= NODE_LIMIT,
            t < NODE_LIMIT,
            graph_ok(*g),
            redirect_steps(cut, t, order.take(k as int)) == Some(graph_model(*g)),
        decreases outer.len() - k,
    {
        let (src, dst) = outer[k];
        proof {
            assert(order.to_set().contains(order[k as int]));
            assert(g0.edges.contains((src, dst)));
            assert(order.take(k + 1).drop_last() =~= order.take(k as int));
            assert(order.take(k + 1).last() == (src, dst));
        }
        let ghost gk = graph_model(*g);
        remove_node(g, dst);
        if src < t {
            let c = code_node_count(g);
            if src < c && t < c {
                if !add_edge_once(g, src, t) {
                    proof {
                        assert(redirect_one(gk, t, (src, dst)) is None);
                        assert(redirect_steps(cut, t, order.take(k + 1)) is None);
                        lemma_redirect_fails(cut, t, order, k + 1);
                    }
                    return false;
                }
            } else {
                proof {
                    assert(redirect_one(gk, t, (src, dst)) is None);
                    assert(redirect_steps(cut, t, order.take(k + 1)) is None);
                    lemma_redirect_fails(cut, t, order, k + 1);
                }
                return false;
            }
        } else if src > t {
            remove_node(g, src);
        }
        k = k + 1;
    }
    proof {
        assert(order.take(order.len() as int) =~= order);
    }
    true
}

/// The edges of a graph the analysis works on join its nodes.
proof fn lemma_model_in_range(g: CodeGraph)
    requires
        graph_ok(g),
    ensures
        edges_in_range_model(graph_model(g)),
{
    assert forall|p: (usize, usize)| #[trigger] graph_model(g).edges.contains(p) implies p.0 < graph_model(g).nodes.len()
        && p.1 < graph_model(g).nodes.len() by {
        let e = choose|e: int| 0 <= e < code_edges(g).len() && code_edges(g)[e] == p;
        assert(code_edges(g)[e] == p);
    }
}

/// The ends of every edge are nodes.
pub open spec fn edges_in_range_model(g: GModel) -> bool {
    forall|p: (usize, usize)| #[trigger] g.edges.contains(p) ==> p.0 < g.nodes.len() && p.1 < g.nodes.len()
}

/// The set of a sequence with one more element.
proof fn lemma_to_set_push(s: Seq<(usize, usize)>, x: (usize, usize))
    ensures
        s.push(x).to_set() == s.to_set().insert(x),
{
    assert forall|y: (usize, usize)| #[trigger] s.push(x).to_set().contains(y) == s.to_set().insert(x).contains(y) by {
        if s.push(x).contains(y) && y != x {
            let k = choose|k: int| 0 <= k < s.push(x).len() && s.push(x)[k] == y;
            assert(s[k] == y);
        }
        if s.contains(y) {
            let k = choose|k: int| 0 <= k < s.len() && s[k] == y;
            assert(s.push(x)[k] == y);
        }
        if y == x {
            assert(s.push(x)[s.len() as int] == y);
        }
    }
    assert(s.push(x).to_set() =~= s.to_set().insert(x));
}

/// Drops the edges from a node to itself, visiting the edges from the last
/// index down, as `Graph::retain_edges` does.
fn remove_self_loops(g: &mut CodeGraph)
    requires
        graph_ok(*old(g)),
    ensures
        graph_ok(*final(g)),
        graph_model(*final(g)) == drop_self_loops(graph_model(*old(g))),
{
    let ghost e0 = code_edges(*g);
    let ghost keep = |p: (usize, usize)| p.0 != p.1;
    let mut idx = code_edge_count(g);
    assert(e0.take(e0.len() as int) =~= e0);
    while idx > 0
        invariant
            idx <= code_edges(*g).len(),
            idx <= e0.len(),
            graph_ok(*g),
            code_nodes(*g) == code_nodes(*old(g)),
            e0 == code_edges(*old(g)),
            code_edges(*g).take(idx as int) == e0.take(idx as int),
            forall|x: int| idx <= x < code_edges(*g).len() ==> (#[trigger] code_edges(*g)[x]).0 != code_edges(*g)[x].1,
            forall|p: (usize, usize)|
                #[trigger] code_edges(*g).to_set().contains(p) <==> (e0.take(idx as int).contains(p) || (
                e0.subrange(idx as int, e0.len() as int).contains(p) && p.0 != p.1)),
        decreases idx,
    {
        idx = idx - 1;
        let (a, b) = code_edge_endpoints(g, idx);
        let ghost s0 = code_edges(*g);
        proof {
            assert(s0.take(idx + 1) == e0.take(idx + 1));
            assert(s0[idx as int] == s0.take(idx + 1)[idx as int]);
        }
        if a == b {
            code_remove_edge(g, idx);
            proof {
                lemma_swap_remove(s0, idx as int);
            }
        }
        proof {
            let s1 = code_edges(*g);
            let p0 = e0.take(idx as int);
            let p1 = e0.take(idx + 1);
            let q0 = e0.subrange(idx as int, e0.len() as int);
            let q1 = e0.subrange(idx + 1, e0.len() as int);
            assert(e0[idx as int] == (a, b));
            assert forall|x: int| 0 <= x < s1.len() implies (#[trigger] s1[x]).0 < code_nodes(*g).len()
                && s1[x].1 < code_nodes(*g).len() by {
                if a == b {
                    let y = if x == idx { s0.len() - 1 } else { x };
                    assert(s1[x] == s0[y]);
                }
            }
            assert(s1.take(idx as int) =~= p0) by {
                assert forall|x: int| 0 <= x < idx implies s1.take(idx as int)[x] == p0[x] by {
                    if a == b {
                        assert(s1[x] == s0[x]);
                    }
                    assert(s0[x] == s0.take(idx + 1)[x]);
                    assert(e0[x] == p1[x]);
                }
            }
            assert forall|x: int| idx <= x < s1.len() implies (#[trigger] s1[x]).0 != s1[x].1 by {
                if a == b {
                    let y = if x == idx { s0.len() - 1 } else { x };
                    assert(s1[x] == s0[y]);
                }
            }
            assert forall|p: (usize, usize)| #[trigger] s1.to_set().contains(p) <==> (p0.contains(p) || (
                q0.contains(p) && p.0 != p.1)) by {
                if p1.contains(p) {
                    let x = choose|x: int| 0 <= x < p1.len() && p1[x] == p;
                    if x < idx {
                        assert(p0[x] == p);
                    }
                }
                if p0.contains(p) {
                    let x = choose|x: int| 0 <= x < p0.len() && p0[x] == p;
                    assert(p1[x] == p);
                }
                if q1.contains(p) {
                    let x = choose|x: int| 0 <= x < q1.len() && q1[x] == p;
                    assert(q0[x + 1] == p);
                }
                if q0.contains(p) {
                    let x = choose|x: int| 0 <= x < q0.len() && q0[x] == p;
                    if x > 0 {
                        assert(q1[x - 1] == p);
                    } else {
                        assert(p == (a, b));
                    }
                }
                assert(p1[idx as int] == (a, b));
                assert(q0[0] == (a, b));
                if a == b && p == (a, b) {
                    if p0.contains(p) {
                        let x = choose|x: int| 0 <= x < p0.len() && p0[x] == p;
                        assert(e0[x] == e0[idx as int]);
                    }
                }
            }
        }
    }
    proof {
        assert(e0.take(0) =~= Seq::<(usize, usize)>::empty());
        assert(e0.subrange(0, e0.len() as int) =~= e0);
        assert(graph_model(*g).edges =~= drop_self_loops(graph_model(*old(g))).edges);
    }
}

/// Where a set of edges that holds those of `g0` has no index left and lacks
/// `e`, a set that holds it and `e` does not fit (see `edges_fit`).
proof fn lemma_overflow(g0: Set<(usize, usize)>, c: Set<(usize, usize)>, e: (usize, usize), u: Set<(usize, usize)>)
    requires
        g0.subset_of(c),
        c.finite(),
        c.len() >= NODE_LIMIT,
        !c.contains(e),
        c.insert(e).subset_of(u),
    ensures
        u != g0,
        !(u.finite() && u.len() <= NODE_LIMIT),
{
    assert(u.contains(e) && !g0.contains(e));
    if u.finite() {
        vstd::set_lib::lemma_len_subset(c.insert(e), u);
    }
}

/// Adds the edges of `from` to `g`, in the order of their indices; false where
/// one of them has an end that is no node of `g`, or where there is no index
/// left for one.
fn union_edges_exec(g: &mut CodeGraph, from: &CodeGraph) -> (ok: bool)
    requires
        graph_ok(*old(g)),
    ensures
        ok ==> graph_ok(*final(g)) && union_edges(graph_model(*old(g)), graph_model(*from).edges) == Some(
            graph_model(*final(g)),
        ),
        !ok ==> union_edges(graph_model(*old(g)), graph_model(*from).edges) is None,
{
    let list = code_edge_list(from);
    let ghost g0 = graph_model(*g);
    let mut k: usize = 0;
    assert(list@.take(0).to_set() =~= Set::<(usize, usize)>::empty());
    while k < list.len()
        invariant
            k <= list.len(),
            list@ == code_edges(*from),
            g0 == graph_model(*old(g)),
            graph_ok(*g),
            code_nodes(*g) == g0.nodes,
            graph_model(*g).edges == g0.edges.union(list@.take(k as int).to_set()),
            graph_model(*g).edges == g0.edges || code_edges(*g).len() <= NODE_LIMIT,
            forall|j: int| 0 <= j < k ==> (#[trigger] list@[j]).0 < g0.nodes.len() && list@[j].1 < g0.nodes.len(),
        decreases list.len() - k,
    {
        let (a, b) = list[k];
        let c = code_node_count(g);
        if a < c && b < c {
            let ghost before = *g;
            if !add_edge_once(g, a, b) {
                proof {
                    lemma_edge_count(before);
                    assert(graph_model(*from).edges.contains((a, b)));
                    let u = g0.edges.union(graph_model(*from).edges);
                    assert forall|p: (usize, usize)| #[trigger] graph_model(before).edges.insert((a, b)).contains(p) implies u.contains(p) by {
                        if p != (a, b) && !g0.edges.contains(p) {
                            assert(list@.take(k as int).to_set().contains(p));
                            let j = choose|j: int| 0 <= j < k && list@.take(k as int)[j] == p;
                            assert(list@[j] == p);
                        }
                    }
                    lemma_overflow(g0.edges, graph_model(before).edges, (a, b), u);
                }
                return false;
            }
            proof {
                assert(list@.take(k + 1) =~= list@.take(k as int).push((a, b)));
                lemma_to_set_push(list@.take(k as int), (a, b));
                assert(graph_model(*g).edges =~= g0.edges.union(list@.take(k + 1).to_set()));
            }
        } else {
            proof {
                assert(graph_model(*from).edges.contains((a, b)));
            }
            return false;
        }
        k = k + 1;
    }
    proof {
        assert(list@.take(list.len() as int) =~= list@);
        assert forall|p: (usize, usize)| #[trigger] graph_model(*from).edges.contains(p) implies p.0 < g0.nodes.len()
            && p.1 < g0.nodes.len() by {
            let j = choose|j: int| 0 <= j < list@.len() && list@[j] == p;
            assert(list@[j] == p);
        }
        assert(graph_model(*g) =~= GModel { nodes: g0.nodes, edges: g0.edges.union(graph_model(*from).edges) });
        lemma_edge_count(*g);
    }
    true
}

/// Records declaration `n` of the body of the loop at `init` (see
/// `loop_step`); false where a node it needs is missing or empty.
fn loop_step_exec(g: &mut CodeGraph, init: usize, n: usize, is_for: bool) -> (ok: bool)
    requires
        graph_ok(*old(g)),
    ensures
        ok ==> graph_ok(*final(g)) && loop_step(graph_model(*old(g)), init, n, is_for) == Some(graph_model(*final(g))),
        !ok ==> loop_step(graph_model(*old(g)), init, n, is_for) is None,
{
    let ghost g0 = graph_model(*g);
    let c = code_node_count(g);
    if init >= c {
        return false;
    }
    let w = match code_node(g, init) {
        None => {
            return false;
        },
        Some(m) => m.clone(),
    };
    let ghost wm = w@;
    let mut m2 = w;
    m2.loops_decls_indexes.push(n);
    let ghost mm = m2@;
    assert(mm =~= MetaModel { loops_decls_indexes: wm.loops_decls_indexes.push(n), ..wm });
    code_set_node(g, init, Some(m2));
    let ghost g1 = graph_model(*g);
    proof {
        assert(g1 =~= GModel { nodes: g0.nodes.update(init as int, Some(mm)), edges: g0.edges });
    }
    if n >= c {
        return false;
    }
    let inner = code_incoming(g, n);
    let ghost e1 = code_edges(*g);
    let mut k: usize = 0;
    assert(inner@.take(0) =~= Seq::<usize>::empty());
    while k < inner.len()
        invariant
            k <= inner.len(),
            graph_ok(*g),
            init < c,
            c == g1.nodes.len(),
            code_nodes(*g) == g1.nodes,
            g1.edges == e1.to_set(),
            edges_in_range(*g),
            forall|x: usize| #[trigger] inner@.to_multiset().count(x) == e1.to_multiset().count((x, n)),
            graph_model(*g).edges == g1.edges.union(
                Set::new(|p: (usize, usize)| p.1 == init && p.0 < init && inner@.take(k as int).contains(p.0)),
            ),
            graph_model(*g).edges == g1.edges || code_edges(*g).len() <= NODE_LIMIT,
            g0 == graph_model(*old(g)),
            g1 == (GModel { nodes: g0.nodes.update(init as int, Some(mm)), edges: g0.edges }),
            n < c,
        decreases inner.len() - k,
    {
        let src = inner[k];
        let ghost ek = graph_model(*g).edges;
        if src < init {
            let ghost before = *g;
            if !add_edge_once(g, src, init) {
                proof {
                    broadcast use vstd::seq_lib::group_to_multiset_ensures;

                    lemma_edge_count(before);
                    let u = g1.edges.union(
                        loop_pred_edges(g1.edges, init, n),
                    );
                    assert(inner@.contains(src)) by {
                        assert(inner@[k as int] == src);
                    }
                    assert(inner@.to_multiset().count(src) == e1.to_multiset().count((src, n)));
                    assert(e1.contains((src, n)));
                    assert forall|p: (usize, usize)| #[trigger] graph_model(before).edges.insert((src, init)).contains(p) implies u.contains(p) by {
                        if p != (src, init) && !g1.edges.contains(p) {
                            let t0 = inner@.take(k as int);
                            let x = choose|x: int| 0 <= x < t0.len() && t0[x] == p.0;
                            assert(inner@[x] == p.0);
                            assert(inner@.to_multiset().count(p.0) == e1.to_multiset().count((p.0, n)));
                            assert(inner@.contains(p.0));
                            assert(e1.contains((p.0, n)));
                        }
                    }
                    lemma_overflow(g1.edges, graph_model(before).edges, (src, init), u);
                    assert(!edges_fit(g1, GModel { nodes: g1.nodes, edges: u }));
                }
                return false;
            }
        }
        proof {
            let t0 = inner@.take(k as int);
            let t1 = inner@.take(k + 1);
            assert(t1 =~= t0.push(src));
            assert forall|p: (usize, usize)| #[trigger] graph_model(*g).edges.contains(p) == g1.edges.union(
                Set::new(|p: (usize, usize)| p.1 == init && p.0 < init && t1.contains(p.0)),
            ).contains(p) by {
                if t1.contains(p.0) && !t0.contains(p.0) {
                    assert(p.0 == src);
                }
                if t0.contains(p.0) {
                    let x = choose|x: int| 0 <= x < t0.len() && t0[x] == p.0;
                    assert(t1[x] == p.0);
                }
                if p.0 == src {
                    assert(t1[k as int] == src);
                }
            }
            assert(graph_model(*g).edges =~= g1.edges.union(
                Set::new(|p: (usize, usize)| p.1 == init && p.0 < init && t1.contains(p.0)),
            ));
        }
        k = k + 1;
    }
    let ghost g2 = graph_model(*g);
    proof {
        broadcast use vstd::seq_lib::group_to_multiset_ensures;

        assert(inner@.take(inner.len() as int) =~= inner@);
        assert forall|p: (usize, usize)| #[trigger] g2.edges.contains(p) == g1.edges.union(
            loop_pred_edges(g1.edges, init, n),
        ).contains(p) by {
            assert(inner@.to_multiset().count(p.0) == e1.to_multiset().count((p.0, n)));
        }
        assert(g2 =~= GModel {
            nodes: g1.nodes,
            edges: g1.edges.union(
                loop_pred_edges(g1.edges, init, n),
            ),
        });
    }
    proof {
        lemma_edge_count(*g);
    }
    if is_for {
        return add_edge_once(g, init, n);
    }
    let is_loop = match code_node(g, n) {
        None => {
            return false;
        },
        Some(mn) => mn.class == Class::Loop,
    };
    if is_loop {
        return add_edge_once(g, init, n);
    }
    true
}

/// Once a step of recording a loop body fails, recording the whole body fails.
proof fn lemma_loop_fails(g: GModel, init: usize, k: usize, idx: usize, is_for: bool)
    requires
        k <= idx,
        loop_upto(g, init, k, is_for) is None,
    ensures
        loop_upto(g, init, idx, is_for) is None,
    decreases idx - k,
{
    if k < idx {
        lemma_loop_fails(g, init, k, (idx - 1) as usize, is_for);
    }
}

/// Records the declarations `init + 1 .. idx` of the body of the loop at
/// `init` in turn (see `loop_upto`); false where a step fails.
fn record_loop_body(g: &mut CodeGraph, init: usize, idx: usize, is_for: bool) -> (ok: bool)
    requires
        graph_ok(*old(g)),
        init < NODE_LIMIT,
    ensures
        ok ==> graph_ok(*final(g)) && loop_upto(graph_model(*old(g)), init, idx, is_for) == Some(
            graph_model(*final(g)),
        ),
        !ok ==> loop_upto(graph_model(*old(g)), init, idx, is_for) is None,
{
    let ghost g0 = graph_model(*g);
    let mut n = init + 1;
    while n < idx
        invariant
            init + 1 <= n,
            n <= idx || n == init + 1,
            g0 == graph_model(*old(g)),
            graph_ok(*g),
            loop_upto(g0, init, n, is_for) == Some(graph_model(*g)),
        decreases idx - n,
    {
        let ghost gn = graph_model(*g);
        let ok = loop_step_exec(g, init, n, is_for);
        if !ok {
            proof {
                assert(loop_upto(g0, init, (n + 1) as usize, is_for) is None);
                lemma_loop_fails(g0, init, (n + 1) as usize, idx, is_for);
            }
            return false;
        }
        n = n + 1;
    }
    true
}

// ---------------------------------------------------------------------------
// The analysis
// ---------------------------------------------------------------------------

/// The content of what an analysis step returns.
pub open spec fn out_model(r: Option<(CodeGraph, ScopeStack, usize)>) -> Option<(GModel, ScopeModel, usize)> {
    match r {
        None => None,
        Some(p) => Some((graph_model(p.0), stack_view(p.1@), p.2)),
    }
}

/// What an analysis step returns is fit for the next one.
pub open spec fn out_ok(r: Option<(CodeGraph, ScopeStack, usize)>) -> bool {
    r matches Some(p) ==> graph_ok(p.0) && stack_wf(p.1@) && scope_bounded(stack_view(p.1@))
}

/// A binding found in bounded scopes is bounded.
proof fn lemma_lookup_bounded(s: ScopeModel, name: Seq<char>)
    requires
        scope_bounded(s),
    ensures
        scope_lookup(s, name) matches Some(v) ==> v.0 < NODE_LIMIT,
    decreases s.len(),
{
    if s.len() > 0 {
        if s.last().contains_key(name) {
            assert(s[s.len() - 1].contains_key(name));
        } else {
            assert(scope_bounded(s.drop_last())) by {
                assert forall|i: int, k: Seq<char>|
                    0 <= i < s.drop_last().len() && #[trigger] s.drop_last()[i].contains_key(k) implies s.drop_last()[i][k].0
                    < NODE_LIMIT by {
                    assert(s.drop_last()[i] == s[i]);
                }
            }
            lemma_lookup_bounded(s.drop_last(), name);
        }
    }
}

/// Every binding found in bounded scopes is bounded.
proof fn lemma_lookups_bounded(s: ScopeModel, names: Seq<Seq<char>>)
    requires
        scope_bounded(s),
    ensures
        forall|j: int| 0 <= j < lookups(s, names).len() ==> (#[trigger] lookups(s, names)[j]).0 < NODE_LIMIT,
    decreases names.len(),
{
    if names.len() > 0 {
        lemma_lookups_bounded(s, names.drop_last());
        lemma_lookup_bounded(s, names.last());
        let prev = lookups(s, names.drop_last());
        assert forall|j: int| 0 <= j < lookups(s, names).len() implies (#[trigger] lookups(s, names)[j]).0 < NODE_LIMIT by {
            if j < prev.len() {
                assert(lookups(s, names)[j] == prev[j]);
            }
        }
    }
}

/// Declaring an index below the limit keeps the scopes bounded.
proof fn lemma_declare_bounded(s: ScopeModel, name: Seq<char>, info: (usize, Mutability))
    requires
        scope_bounded(s),
        info.0 < NODE_LIMIT,
    ensures
        scope_bounded(scope_declare(s, name, info)),
{
    let r = scope_declare(s, name, info);
    assert forall|i: int, k: Seq<char>| 0 <= i < r.len() && #[trigger] r[i].contains_key(k) implies r[i][k].0 < NODE_LIMIT by {
        if s.len() > 0 && i < s.len() - 1 {
            assert(r[i] == s[i]);
        } else if s.len() > 0 && k != name {
            assert(s[s.len() - 1].contains_key(k));
        }
    }
}

/// Assigning an index below the limit keeps the scopes bounded.
proof fn lemma_assign_bounded(s: ScopeModel, name: Seq<char>, index: usize)
    requires
        scope_bounded(s),
        index < NODE_LIMIT,
    ensures
        scope_assign(s, name, index) matches Some(r) ==> scope_bounded(r),
    decreases s.len(),
{
    if s.len() > 0 {
        if s.last().contains_key(name) {
            let r = s.update(s.len() - 1, s.last().insert(name, (index, Mutability::Mutable)));
            assert forall|i: int, k: Seq<char>| 0 <= i < r.len() && #[trigger] r[i].contains_key(k) implies r[i][k].0 < NODE_LIMIT by {
                if i < s.len() - 1 {
                    assert(r[i] == s[i]);
                } else if k != name {
                    assert(s[s.len() - 1].contains_key(k));
                }
            }
        } else {
            let d = s.drop_last();
            assert(scope_bounded(d)) by {
                assert forall|i: int, k: Seq<char>| 0 <= i < d.len() && #[trigger] d[i].contains_key(k) implies d[i][k].0 < NODE_LIMIT by {
                    assert(d[i] == s[i]);
                }
            }
            lemma_assign_bounded(d, name, index);
            if let Some(p) = scope_assign(d, name, index) {
                let r = p.push(s.last());
                assert forall|i: int, k: Seq<char>| 0 <= i < r.len() && #[trigger] r[i].contains_key(k) implies r[i][k].0 < NODE_LIMIT by {
                    if i == p.len() {
                        assert(s[s.len() - 1].contains_key(k));
                    } else {
                        assert(r[i] == p[i]);
                    }
                }
            }
        }
    }
}

/// Opening a scope whose bindings are bounded keeps the scopes bounded.
proof fn lemma_push_bounded(s: ScopeModel, m: Map<Seq<char>, (usize, Mutability)>)
    requires
        scope_bounded(s),
        forall|k: Seq<char>| #[trigger] m.contains_key(k) ==> m[k].0 < NODE_LIMIT,
    ensures
        scope_bounded(s.push(m)),
{
    assert forall|i: int, k: Seq<char>| 0 <= i < s.push(m).len() && #[trigger] s.push(m)[i].contains_key(k) implies s.push(
        m,
    )[i][k].0 < NODE_LIMIT by {
        if i < s.len() {
            assert(s.push(m)[i] == s[i]);
        }
    }
}

/// Leaving a scope keeps the scopes bounded.
proof fn lemma_remove_bounded(s: ScopeModel)
    requires
        scope_bounded(s),
    ensures
        scope_bounded(scope_remove(s)),
{
    if s.len() > 0 {
        let d = s.drop_last();
        assert forall|i: int, k: Seq<char>| 0 <= i < d.len() && #[trigger] d[i].contains_key(k) implies d[i][k].0 < NODE_LIMIT by {
            assert(d[i] == s[i]);
        }
    }
}

/// Merged and lowered bounded scopes are bounded.
proof fn lemma_cond_scope_bounded(a: ScopeModel, b: ScopeModel, t: usize)
    requires
        scope_bounded(a),
        scope_bounded(b),
    ensures
        scope_bounded(cond_scope(a, b, t)),
{
    let m = merge_stacks(a, b, true);
    assert forall|i: int, k: Seq<char>| 0 <= i < m.len() && #[trigger] m[i].contains_key(k) implies m[i][k].0 < NODE_LIMIT by {
        if scope_at(a, i).contains_key(k) {
            assert(a[i].contains_key(k));
        }
        if scope_at(b, i).contains_key(k) {
            assert(b[i].contains_key(k));
        }
    }
    let c = clamp_stack(m, t);
    assert forall|i: int, k: Seq<char>| 0 <= i < c.len() && #[trigger] c[i].contains_key(k) implies c[i][k].0 < NODE_LIMIT by {
        assert(m[i].contains_key(k));
    }
    lemma_remove_bounded(c);
}

/// The node of a statement that has no loop body recorded yet.
fn make_stmt_meta(complexity: usize, deps: &Vec<(usize, Mutability)>, class: Class, st: &Stmt) -> (r: DeclarationMeta)
    ensures
        r@ == meta_of(complexity as nat, deps@, class, DeclModel::Stmt(st@)),
{
    let d = Decl::Stmt(crate::stmt::duplicate_stmt(st));
    let r = DeclarationMeta {
        complexity,
        mut_deps: mut_dep_set(deps),
        class,
        decl: Arc::new(d),
        loops_decls_indexes: Vec::new(),
    };
    assert(r.loops_decls_indexes@ =~= Seq::<usize>::empty());
    r
}

/// Adds the node of a declaration and the edges from its dependencies (see
/// `simple_step`).
fn add_simple_node(graph: CodeGraph, i: usize, meta: DeclarationMeta, deps: &Vec<(usize, Mutability)>) -> (r: Option<CodeGraph>)
    requires
        graph_ok(graph),
        i < NODE_LIMIT,
        forall|j: int| 0 <= j < deps.len() ==> (#[trigger] deps@[j]).0 < NODE_LIMIT,
    ensures
        r matches Some(g) ==> graph_ok(g),
        simple_step(graph_model(graph), i, meta@, deps@) == match r {
            Some(g) => Some(graph_model(g)),
            None => None,
        },
{
    let mut graph = graph;
    update_node(&mut graph, i, meta);
    if add_deps_to_graph(&mut graph, deps, i) {
        Some(graph)
    } else {
        None
    }
}

/// Analyzes a declaration that binds a name.
fn analyze_var_decl(decl: &Decl, i: usize, graph: CodeGraph, scope: ScopeStack) -> (r: Option<(CodeGraph, ScopeStack, usize)>)
    requires
        decl is VarDecl,
        graph_ok(graph),
        stack_wf(scope@),
        scope_bounded(stack_view(scope@)),
        i < NODE_LIMIT,
    ensures
        out_ok(r),
        analyzed(decl@, i, graph_model(graph), stack_view(scope@), out_model(r), Trace::Simple),
{
    match decl {
        Decl::VarDecl(name, expr, mutability) => {
            let names = expr.extract_vars();
            let deps = lookup_deps(&scope, &names);
            proof {
                lemma_lookups_bounded(stack_view(scope@), vars_of(expr@));
            }
            let meta = make_meta(get_expr_complexity(expr), &deps, Class::Ordinary, decl);
            let graph = match add_simple_node(graph, i, meta, &deps) {
                Some(g) => g,
                None => {
                    return None;
                },
            };
            proof {
                lemma_declare_bounded(stack_view(scope@), name@, (i, *mutability));
            }
            let new_scope = env_declare(scope, name.clone(), (i, *mutability));
            Some((graph, new_scope, i))
        },
        _ => None,
    }
}

/// Analyzes a statement that holds no other declaration.
fn analyze_plain_stmt(st: &Stmt, i: usize, graph: CodeGraph, scope: ScopeStack) -> (r: Option<(CodeGraph, ScopeStack, usize)>)
    requires
        st is Print || st is Expression || st is Assign,
        graph_ok(graph),
        stack_wf(scope@),
        scope_bounded(stack_view(scope@)),
        i < NODE_LIMIT,
    ensures
        out_ok(r),
        analyzed(DeclModel::Stmt(st@), i, graph_model(graph), stack_view(scope@), out_model(r), Trace::Simple),
{
    match st {
        Stmt::Print(expr) => {
            let names = expr.extract_vars();
            let deps = lookup_deps(&scope, &names);
            proof {
                lemma_lookups_bounded(stack_view(scope@), vars_of(expr@));
            }
            let meta = make_stmt_meta(4, &deps, Class::Ordinary, st);
            match add_simple_node(graph, i, meta, &deps) {
                Some(graph) => Some((graph, scope, i)),
                None => None,
            }
        },
        Stmt::Expression(expr) => {
            let names = expr.extract_vars();
            let deps = lookup_deps(&scope, &names);
            proof {
                lemma_lookups_bounded(stack_view(scope@), vars_of(expr@));
            }
            let meta = make_stmt_meta(get_expr_complexity(expr), &deps, Class::Ordinary, st);
            match add_simple_node(graph, i, meta, &deps) {
                Some(graph) => Some((graph, scope, i)),
                None => None,
            }
        },
        Stmt::Assign(name, expr) => {
            let names = expr.extract_vars();
            let mut deps = lookup_deps(&scope, &names);
            proof {
                lemma_lookups_bounded(stack_view(scope@), vars_of(expr@));
                lemma_lookup_bounded(stack_view(scope@), name@);
            }
            match env_lookup(&scope, name) {
                Some(lhs) => {
                    deps.push(lhs);
                },
                None => {},
            }
            let meta = make_stmt_meta(get_expr_complexity(expr), &deps, Class::Ordinary, st);
            let graph = match add_simple_node(graph, i, meta, &deps) {
                Some(g) => g,
                None => {
                    return None;
                },
            };
            proof {
                lemma_assign_bounded(stack_view(scope@), name@, i);
            }
            match env_assign(&scope, name, i) {
                None => None,
                Some(new_scope) => Some((graph, new_scope, i)),
            }
        },
        _ => None,
    }
}

/// The content of what an analysis step returns, and what it went through.
pub type Step = (Option<(CodeGraph, ScopeStack, usize)>, Ghost<Trace>);

/// Analyzes a block: its node, then its declarations in a scope of their own.
fn analyze_block(st: &Stmt, i: usize, graph: CodeGraph, scope: ScopeStack) -> (res: Step)
    requires
        st is Block,
        graph_ok(graph),
        stack_wf(scope@),
        scope_bounded(stack_view(scope@)),
        i + stmt_size(st@) <= NODE_LIMIT,
    ensures
        out_ok(res.0),
        analyzed(DeclModel::Stmt(st@), i, graph_model(graph), stack_view(scope@), out_model(res.0), res.1@),
    decreases stmt_size(st@), 2nat,
{
    match st {
        Stmt::Block(stmts) => {
            let no_deps: Vec<(usize, Mutability)> = Vec::new();
            let meta = make_stmt_meta(0, &no_deps, Class::Ordinary, st);
            let mut graph = graph;
            update_node(&mut graph, i, meta);
            proof {
                lemma_push_bounded(stack_view(scope@), Map::<Seq<char>, (usize, Mutability)>::empty());
            }
            let new_scope = env_add_scope(scope, NameTable::new());
            let (res, trs) = analyze_rec(new_scope, graph, stmts, i + 1);
            let ghost o = out_model(res);
            let r = match res {
                None => None,
                Some((g2, s2, idx)) => {
                    proof {
                        lemma_remove_bounded(stack_view(s2@));
                    }
                    Some((g2, env_remove_scope(s2), idx))
                },
            };
            (r, Ghost(Trace::Block(o, trs@)))
        },
        _ => (None, Ghost(Trace::Simple)),
    }
}

/// Analyzes a condition: its node, each branch in a scope of its own, the
/// second starting from the graph the first left; then the scopes of the two
/// branches are merged (see `cond_scope`) and the edges with an end in the
/// branches are redirected (see `redirected`).
#[verifier::rlimit(40)]
fn analyze_condition(st: &Stmt, i: usize, graph: CodeGraph, scope: ScopeStack) -> (res: Step)
    requires
        st is Condition,
        graph_ok(graph),
        stack_wf(scope@),
        scope_bounded(stack_view(scope@)),
        i + stmt_size(st@) <= NODE_LIMIT,
    ensures
        out_ok(res.0),
        analyzed(DeclModel::Stmt(st@), i, graph_model(graph), stack_view(scope@), out_model(res.0), res.1@),
    decreases stmt_size(st@), 2nat,
{
    match st {
        Stmt::Condition(cond, then_block, maybe_else) => {
            let names = cond.extract_vars();
            let deps = lookup_deps(&scope, &names);
            proof {
                lemma_lookups_bounded(stack_view(scope@), vars_of(cond@));
                lemma_push_bounded(stack_view(scope@), Map::<Seq<char>, (usize, Mutability)>::empty());
            }
            let meta = make_stmt_meta(1, &deps, Class::Ordinary, st);
            let graph = match add_simple_node(graph, i, meta, &deps) {
                Some(g) => g,
                None => {
                    return (None, Ghost(Trace::Branches(None, Box::new(Trace::Simple), None, Box::new(Trace::Simple), Seq::empty())));
                },
            };
            let then_scope = env_add_scope(duplicate_stack(&scope), NameTable::new());
            let (res_then, ttr) = add_stmt_stmt(then_block, i + 1, graph, then_scope);
            let ghost ot = out_model(res_then);
            let (g_then, s_then, i_then) = match res_then {
                None => {
                    return (None, Ghost(Trace::Branches(ot, Box::new(ttr@), None, Box::new(Trace::Simple), Seq::empty())));
                },
                Some(p) => p,
            };
            let (g_else, s_else, i_after, oe, etr) = match maybe_else {
                Some(else_block) => {
                    let then_size = stmt_size_capped(then_block) as usize;
                    let else_scope = env_add_scope(scope, NameTable::new());
                    let (res_else, etr) = add_stmt_stmt(else_block, i + 1 + then_size, g_then, else_scope);
                    let ghost oe = out_model(res_else);
                    match res_else {
                        None => {
                            return (None, Ghost(Trace::Branches(ot, Box::new(ttr@), oe, Box::new(etr@), Seq::empty())));
                        },
                        Some(p) => (p.0, p.1, p.2, Ghost(oe), etr),
                    }
                },
                None => (g_then, env_add_scope(scope, NameTable::new()), i_then, Ghost(None), Ghost(Trace::Simple)),
            };
            let merged = merge_scopes_preferring_larger(&s_then, &s_else);
            let clamped = apply_min_index_to_scope(&merged, i);
            let next_scope = env_remove_scope(clamped);
            proof {
                lemma_cond_scope_bounded(stack_view(s_then@), stack_view(s_else@), i);
            }
            let ghost ge = graph_model(g_else);
            let mut next_graph = g_else;
            let ok = redirect_edges_to_target(&mut next_graph, i);
            let ghost order = choose|order: Seq<(usize, usize)>|
                order.no_duplicates() && order.to_set() == outer_edges(ge, i) && redirect_steps(
                    GModel { nodes: ge.nodes, edges: ge.edges.difference(outer_edges(ge, i)) },
                    i,
                    order,
                ) == if ok {
                    Some(graph_model(next_graph))
                } else {
                    None::<GModel>
                };
            let ghost tr = Trace::Branches(ot, Box::new(ttr@), oe@, Box::new(etr@), order);
            if !ok {
                return (None, Ghost(tr));
            }
            remove_self_loops(&mut next_graph);
            (Some((next_graph, next_scope, i_after)), Ghost(tr))
        },
        _ => (None, Ghost(Trace::Simple)),
    }
}

/// The two passes over the body of a loop at `i` (see `loop_analyzed`), from
/// the graph `graph` and the scopes `s1`.
fn loop_passes(block: &Stmt, i: usize, graph: CodeGraph, s1: ScopeStack, cond: Option<&Expr>) -> (res: Step)
    requires
        graph_ok(graph),
        stack_wf(s1@),
        scope_bounded(stack_view(s1@)),
        i + 1 + stmt_size(block@) <= NODE_LIMIT,
    ensures
        out_ok(res.0),
        loop_analyzed(
            DeclModel::Stmt(block@),
            i,
            graph_model(graph),
            stack_view(s1@),
            match cond {
                Some(c) => Some(c@),
                None => None,
            },
            out_model(res.0),
            res.1@,
        ),
    decreases stmt_size(block@) + 1, 1nat,
{
    let first = code_graph_clone(&graph);
    let (res1, tr1) = add_stmt_stmt(block, i + 1, first, s1);
    let ghost o1 = out_model(res1);
    let (g_block, sb1, _) = match res1 {
        None => {
            return (None, Ghost(Trace::Passes(o1, Box::new(tr1@), None, Box::new(Trace::Simple))));
        },
        Some(p) => p,
    };
    let (res2, tr2) = add_stmt_stmt(block, i + 1, graph, sb1);
    let ghost o2 = out_model(res2);
    let ghost tr = Trace::Passes(o1, Box::new(tr1@), o2, Box::new(tr2@));
    let (mut g_block2, sb2, index_after_block) = match res2 {
        None => {
            return (None, Ghost(tr));
        },
        Some(p) => p,
    };
    if !union_edges_exec(&mut g_block2, &g_block) {
        return (None, Ghost(tr));
    }
    let deps2 = match cond {
        Some(c) => lookup_deps(&sb2, &c.extract_vars()),
        None => Vec::new(),
    };
    proof {
        if let Some(c) = cond {
            lemma_lookups_bounded(stack_view(sb2@), vars_of(c@));
        }
    }
    if code_node_count(&g_block2) == 0 && deps2.len() > 0 {
        return (None, Ghost(tr));
    }
    if deps2.len() > 0 {
        if !add_deps_to_graph(&mut g_block2, &deps2, i) {
            return (None, Ghost(tr));
        }
    } else {
        assert(add_deps(graph_model(g_block2), deps2@, i) == Some(graph_model(g_block2)));
    }
    if !record_loop_body(&mut g_block2, i, index_after_block, cond.is_none()) {
        return (None, Ghost(tr));
    }
    proof {
        lemma_remove_bounded(stack_view(sb2@));
    }
    let next_scope = env_remove_scope(sb2);
    (Some((g_block2, next_scope, index_after_block)), Ghost(tr))
}

/// Analyzes a loop: its node, then its body twice in a scope of its own (for a
/// `for` loop, one that binds the loop variable), the second pass from the
/// scopes the first left; then `loop_finish`.
fn analyze_loop(st: &Stmt, i: usize, graph: CodeGraph, scope: ScopeStack) -> (res: Step)
    requires
        st is While || st is For,
        graph_ok(graph),
        stack_wf(scope@),
        scope_bounded(stack_view(scope@)),
        i + stmt_size(st@) <= NODE_LIMIT,
    ensures
        out_ok(res.0),
        analyzed(DeclModel::Stmt(st@), i, graph_model(graph), stack_view(scope@), out_model(res.0), res.1@),
    decreases stmt_size(st@), 2nat,
{
    match st {
        Stmt::While(cond, block) => {
            let names = cond.extract_vars();
            let deps = lookup_deps(&scope, &names);
            proof {
                lemma_lookups_bounded(stack_view(scope@), vars_of(cond@));
                lemma_push_bounded(stack_view(scope@), Map::<Seq<char>, (usize, Mutability)>::empty());
            }
            let meta = make_stmt_meta(2, &deps, Class::Loop, st);
            let graph = match add_simple_node(graph, i, meta, &deps) {
                Some(g) => g,
                None => {
                    return (None, Ghost(Trace::Simple));
                },
            };
            let s1 = env_add_scope(scope, NameTable::new());
            loop_passes(block, i, graph, s1, Some(cond))
        },
        Stmt::For(name, arr, block) => {
            let names = arr.extract_vars();
            let deps = lookup_deps(&scope, &names);
            let mut top = NameTable::new();
            top.insert(name.clone(), (i, Mutability::Immutable));
            proof {
                lemma_lookups_bounded(stack_view(scope@), vars_of(arr@));
                lemma_push_bounded(stack_view(scope@), top@);
            }
            let meta = make_stmt_meta(2, &deps, Class::Loop, st);
            let graph = match add_simple_node(graph, i, meta, &deps) {
                Some(g) => g,
                None => {
                    return (None, Ghost(Trace::Simple));
                },
            };
            let s1 = env_add_scope(scope, top);
            loop_passes(block, i, graph, s1, None)
        },
        _ => (None, Ghost(Trace::Simple)),
    }
}

/// Analyzes a statement numbered `i` (see `analyzed`).
fn add_stmt_stmt(st: &Stmt, i: usize, graph: CodeGraph, scope: ScopeStack) -> (res: Step)
    requires
        graph_ok(graph),
        stack_wf(scope@),
        scope_bounded(stack_view(scope@)),
        i + stmt_size(st@) <= NODE_LIMIT,
    ensures
        out_ok(res.0),
        analyzed(DeclModel::Stmt(st@), i, graph_model(graph), stack_view(scope@), out_model(res.0), res.1@),
    decreases stmt_size(st@), 3nat,
{
    match st {
        Stmt::Block(_) => analyze_block(st, i, graph, scope),
        Stmt::Condition(..) => analyze_condition(st, i, graph, scope),
        Stmt::While(..) | Stmt::For(..) => analyze_loop(st, i, graph, scope),
        _ => (analyze_plain_stmt(st, i, graph, scope), Ghost(Trace::Simple)),
    }
}

/// Analyzes a declaration numbered `i` (see `analyzed`).
fn add_stmt(decl: &Decl, i: usize, graph: CodeGraph, scope: ScopeStack) -> (res: Step)
    requires
        graph_ok(graph),
        stack_wf(scope@),
        scope_bounded(stack_view(scope@)),
        i + decl_size(decl@) <= NODE_LIMIT,
    ensures
        out_ok(res.0),
        analyzed(decl@, i, graph_model(graph), stack_view(scope@), out_model(res.0), res.1@),
    decreases decl_size(decl@), 4nat,
{
    match decl {
        Decl::VarDecl(..) => (analyze_var_decl(decl, i, graph, scope), Ghost(Trace::Simple)),
        Decl::Stmt(st) => add_stmt_stmt(st, i, graph, scope),
        Decl::Empty => (None, Ghost(Trace::Simple)),
    }
}

/// Analyzes the declarations of `decls` in turn, the first numbered `first`
/// (see `analyzed_seq`); the index that comes back is that of the last
/// declaration analyzed, 0 where there is none.
#[verifier::loop_isolation(false)]
fn analyze_rec(scope: ScopeStack, graph: CodeGraph, decls: &Vec<Decl>, first: usize) -> (res: (
    Option<(CodeGraph, ScopeStack, usize)>,
    Ghost<Seq<(Option<(GModel, ScopeModel, usize)>, Trace)>>,
))
    requires
        graph_ok(graph),
        stack_wf(scope@),
        scope_bounded(stack_view(scope@)),
        first + decls_size(model_decls(decls@)) <= NODE_LIMIT,
    ensures
        out_ok(res.0),
        analyzed_seq(model_decls(decls@), first, graph_model(graph), stack_view(scope@), 0, out_model(res.0), res.1@),
    decreases decls_size(model_decls(decls@)), 5nat,
{
    let ghost ds = model_decls(decls@);
    let ghost g0 = graph_model(graph);
    let ghost s0 = stack_view(scope@);
    proof {
        lemma_model_decls_len(decls@);
        assert(ds.subrange(0, ds.len() as int) =~= ds);
    }
    let mut graph = graph;
    let mut scope = scope;
    let mut last_index: usize = 0;
    let mut index = first;
    let mut done: Ghost<Seq<(Option<(GModel, ScopeModel, usize)>, Trace)>> = Ghost(Seq::empty());
    let mut k: usize = 0;
    while k < decls.len()
        invariant
            k <= decls.len(),
            ds == model_decls(decls@),
            ds.len() == decls.len(),
            first <= index,
            index + decls_size(ds.subrange(k as int, ds.len() as int)) == first + decls_size(ds),
            first + decls_size(ds) <= NODE_LIMIT,
            graph_ok(graph),
            stack_wf(scope@),
            scope_bounded(stack_view(scope@)),
            forall|r: Option<(GModel, ScopeModel, usize)>, rest: Seq<(Option<(GModel, ScopeModel, usize)>, Trace)>|
                #[trigger] analyzed_seq(ds.subrange(k as int, ds.len() as int), index, graph_model(graph), stack_view(scope@), last_index, r, rest)
                    ==> analyzed_seq(ds, first, g0, s0, 0, r, done@ + rest),
        decreases decls.len() - k,
    {
        let ghost sub = ds.subrange(k as int, ds.len() as int);
        let ghost gk = graph_model(graph);
        let ghost sk = stack_view(scope@);
        let ghost lk = last_index;
        let ghost ik = index;
        let ghost dk = done@;
        proof {
            lemma_model_decls_index(decls@, k as int);
            assert(sub[0] == ds[k as int]);
            assert(sub.subrange(1, sub.len() as int) =~= ds.subrange(k + 1, ds.len() as int));
            lemma_decl_size_pos(ds[k as int]);
            assert(decls_size(sub) == decl_size(sub[0]) + decls_size(sub.subrange(1, sub.len() as int)));
        }
        let size = decl_size_capped(&decls[k]) as usize;
        let (res, tr) = add_stmt(&decls[k], index, graph, scope);
        let ghost o = out_model(res);
        match res {
            None => {
                proof {
                    let rest = seq![(o, tr@)];
                    assert(rest.subrange(1, rest.len() as int) =~= Seq::<(Option<(GModel, ScopeModel, usize)>, Trace)>::empty());
                    assert(analyzed_seq(sub, ik, gk, sk, lk, None, rest));
                    assert(analyzed_seq(ds, first, g0, s0, 0, None, dk + rest));
                }
                return (None, Ghost(dk + seq![(o, tr@)]));
            },
            Some((g2, s2, idx)) => {
                proof {
                    assert forall|r: Option<(GModel, ScopeModel, usize)>, rest: Seq<(Option<(GModel, ScopeModel, usize)>, Trace)>|
                        #[trigger] analyzed_seq(ds.subrange(k + 1, ds.len() as int), (ik + size) as usize, graph_model(g2), stack_view(s2@), idx, r, rest)
                            implies analyzed_seq(ds, first, g0, s0, 0, r, (dk + seq![(o, tr@)]) + rest) by {
                        let full = seq![(o, tr@)] + rest;
                        assert(full.subrange(1, full.len() as int) =~= rest);
                        assert(analyzed_seq(sub, ik, gk, sk, lk, r, full));
                        assert(dk + full =~= (dk + seq![(o, tr@)]) + rest);
                    }
                }
                graph = g2;
                scope = s2;
                last_index = idx;
                index = index + size;
                done = Ghost(dk + seq![(o, tr@)]);
            },
        }
        k = k + 1;
    }
    let r = Some((graph, scope, last_index));
    proof {
        assert(ds.subrange(k as int, ds.len() as int) =~= Seq::<DeclModel>::empty());
        assert(analyzed_seq(ds.subrange(k as int, ds.len() as int), index, graph_model(graph), stack_view(scope@), last_index, out_model(r), Seq::empty()));
        assert(done@ + Seq::<(Option<(GModel, ScopeModel, usize)>, Trace)>::empty() =~= done@);
    }
    (r, done)
}

/// Sizes add up over a concatenation.
proof fn lemma_decls_size_append(a: Seq<DeclModel>, b: Seq<DeclModel>)
    ensures
        decls_size(a + b) == decls_size(a) + decls_size(b),
    decreases a.len(),
{
    if a.len() > 0 {
        lemma_decls_size_append(a.subrange(1, a.len() as int), b);
        assert((a + b).subrange(1, (a + b).len() as int) =~= a.subrange(1, a.len() as int) + b);
        assert((a + b)[0] == a[0]);
    } else {
        assert(a + b =~= b);
    }
}

/// The index that `analyze` gives each top-level declaration: the number of
/// declarations that come before it.
pub fn first_decl_indices(decls: &Vec<Decl>) -> (r: Vec<usize>)
    requires
        decls_size(model_decls(decls@)) <= NODE_LIMIT,
    ensures
        r@.len() == decls@.len(),
        forall|k: int| 0 <= k < r@.len() ==> r@[k] == decls_size(#[trigger] model_decls(decls@).take(k)),
{
    let ghost ds = model_decls(decls@);
    proof {
        lemma_model_decls_len(decls@);
    }
    let mut r: Vec<usize> = Vec::new();
    let mut next: usize = 0;
    let mut k: usize = 0;
    while k < decls.len()
        invariant
            k <= decls.len(),
            ds == model_decls(decls@),
            ds.len() == decls.len(),
            decls_size(ds) <= NODE_LIMIT,
            r@.len() == k,
            next == decls_size(ds.take(k as int)),
            forall|j: int| 0 <= j < k ==> r@[j] == decls_size(#[trigger] ds.take(j)),
        decreases decls.len() - k,
    {
        r.push(next);
        proof {
            lemma_model_decls_index(decls@, k as int);
            assert(ds.take(k + 1) =~= ds.take(k as int) + seq![ds[k as int]]);
            lemma_decls_size_append(ds.take(k as int), seq![ds[k as int]]);
            let one = seq![ds[k as int]];
            assert(one.subrange(1, 1) =~= Seq::<DeclModel>::empty());
            assert(decls_size(Seq::<DeclModel>::empty()) == 0);
            lemma_decls_size_cons(one);
            assert(decls_size(one) == decl_size(ds[k as int]));
            assert(ds =~= ds.take(k + 1) + ds.skip(k + 1));
            lemma_decls_size_append(ds.take(k + 1), ds.skip(k + 1));
        }
        let size = decl_size_capped(&decls[k]);
        next = next + size as usize;
        k = k + 1;
    }
    r
}

/// Builds the dependency graph of a script: its declarations are numbered in
/// the order they are written, an enclosing one before those it holds, from 0
/// (see `analyzed_seq`). `None` where the analysis fails (see `analyzed`), and
/// where the script holds more declarations than the graph can index. An
/// assignment to a name that no enclosing scope declares is such a failure:
/// the analysis answers it with `None` and goes no further, so that a script
/// the statement parser would refuse cannot stop the program.
pub fn analyze(decls: &Vec<Decl>) -> (r: Option<CodeGraph>)
    ensures
        decls_size(model_decls(decls@)) > NODE_LIMIT ==> r is None,
        decls_size(model_decls(decls@)) <= NODE_LIMIT ==> exists|o: Option<(GModel, ScopeModel, usize)>|
            #[trigger] analyzes_to(model_decls(decls@), o) && match o {
                None => r is None,
                Some(p) => r matches Some(g) && graph_model(g) == p.0,
            },
{
    let total = decls_size_capped(decls);
    if total > NODE_LIMIT as u64 {
        return None;
    }
    let graph = code_graph_new();
    let scope: ScopeStack = Vec::new();
    proof {
        assert(graph_model(graph) =~= GModel { nodes: Seq::empty(), edges: Set::empty() });
        assert(stack_view(scope@) =~= Seq::<Map<Seq<char>, (usize, Mutability)>>::empty());
    }
    let (res, trs) = analyze_rec(scope, graph, decls, 0);
    let ghost o = out_model(res);
    proof {
        assert(analyzes_to(model_decls(decls@), o));
    }
    match res {
        None => None,
        Some((g, _, _)) => Some(g),
    }
}

} // verus!
