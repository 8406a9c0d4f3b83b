//! Statements and declarations, and the parser that reads a script into them.
//!
//! A script is a sequence of declarations: `var x = e;` and `final x = e;`
//! bind a name, mutable or not; every other declaration is a statement:
//! `print e;`, `x = e;` (only to a name declared mutable earlier in the text),
//! `e;`, a block `{ ... }`, `if c { ... } else { ... }`, `while c { ... }` and
//! `for x in arr { ... }`. An expression runs to the next `;`, and a condition
//! or an array to the next `{`.

use crate::expr::{Expr, ExprModel};
use crate::parser::{p_expr, starts, Parser, copy_tokens};
use crate::token::TokenType;
use vstd::prelude::*;

verus! {

#[derive(Debug)]
pub enum Stmt {
    Print(Expr),
    Expression(Expr),
    Assign(String, Expr),
    Block(Vec<Decl>),
    Condition(Expr, Box<Stmt>, Option<Box<Stmt>>),
    While(Expr, Box<Stmt>),
    For(String, Expr, Box<Stmt>),
}

#[derive(Debug)]
pub enum Decl {
    VarDecl(String, Expr, Mutability),
    Stmt(Stmt),
    Empty,
}

#[derive(Debug, Clone, Copy, PartialEq, Eq, Structural)]
pub enum Mutability {
    Mutable,
    Immutable,
}

#[derive(Debug, Clone, Copy, PartialEq, Eq, Structural)]
pub enum Type {
    Number,
    Bool,
    String,
    Nil,
    Array,
    Any,
}

/// The mathematical content of a statement.
pub enum StmtModel {
    Print(ExprModel),
    Expression(ExprModel),
    Assign(Seq<char>, ExprModel),
    Block(Seq<DeclModel>),
    Condition(ExprModel, Box<StmtModel>, Option<Box<StmtModel>>),
    While(ExprModel, Box<StmtModel>),
    For(Seq<char>, ExprModel, Box<StmtModel>),
}

/// The mathematical content of a declaration.
pub enum DeclModel {
    VarDecl(Seq<char>, ExprModel, Mutability),
    Stmt(StmtModel),
    Empty,
}

pub open spec fn model_decls(s: Seq<Decl>) -> Seq<DeclModel>
    decreases s,
{
    if s.len() == 0 {
        Seq::empty()
    } else {
        seq![model_decl(s[0])] + model_decls(s.subrange(1, s.len() as int))
    }
}

pub open spec fn model_decl(d: Decl) -> DeclModel
    decreases d,
{
    match d {
        Decl::VarDecl(x, e, m) => DeclModel::VarDecl(x@, e@, m),
        Decl::Stmt(s) => DeclModel::Stmt(model_stmt(s)),
        Decl::Empty => DeclModel::Empty,
    }
}

pub open spec fn model_stmt(s: Stmt) -> StmtModel
    decreases s,
{
    match s {
        Stmt::Print(e) => StmtModel::Print(e@),
        Stmt::Expression(e) => StmtModel::Expression(e@),
        Stmt::Assign(x, e) => StmtModel::Assign(x@, e@),
        Stmt::Block(v) => StmtModel::Block(model_decls(v@)),
        Stmt::Condition(c, a, b) => StmtModel::Condition(
            c@,
            Box::new(model_stmt(*a)),
            match b {
                Some(b) => Some(Box::new(model_stmt(*b))),
                None => None,
            },
        ),
        Stmt::While(c, b) => StmtModel::While(c@, Box::new(model_stmt(*b))),
        Stmt::For(x, a, b) => StmtModel::For(x@, a@, Box::new(model_stmt(*b))),
    }
}

impl View for Stmt {
    type V = StmtModel;

    open spec fn view(&self) -> StmtModel {
        model_stmt(*self)
    }
}

impl View for Decl {
    type V = DeclModel;

    open spec fn view(&self) -> DeclModel {
        model_decl(*self)
    }
}

pub proof fn lemma_model_decls_push(s: Seq<Decl>, d: Decl)
    ensures
        model_decls(s.push(d)) == model_decls(s).push(model_decl(d)),
    decreases s.len(),
{
    if s.len() == 0 {
        assert(s.push(d).subrange(1, 1) =~= Seq::<Decl>::empty());
        assert(model_decls(Seq::<Decl>::empty()) == Seq::<DeclModel>::empty());
        assert(s =~= Seq::<Decl>::empty());
        assert(s.push(d)[0] == d);
        assert(seq![model_decl(d)] + Seq::<DeclModel>::empty() =~= Seq::<DeclModel>::empty().push(
            model_decl(d),
        ));
    } else {
        assert(s.push(d).subrange(1, s.len() as int + 1) =~= s.subrange(1, s.len() as int).push(
            d,
        ));
        lemma_model_decls_push(s.subrange(1, s.len() as int), d);
        let m0 = seq![model_decl(s[0])];
        let t = model_decls(s.subrange(1, s.len() as int));
        assert(s.push(d)[0] == s[0]);
        assert(m0 + t.push(model_decl(d)) =~= (m0 + t).push(model_decl(d)));
        assert(model_decls(s) == m0 + t);
        assert(model_decls(s.push(d)) == m0 + model_decls(s.push(d).subrange(1, s.len() as int + 1)));
        assert(model_decls(s.push(d)) == m0 + t.push(model_decl(d)));
    }
}

pub proof fn lemma_model_decls_empty()
    ensures
        model_decls(Seq::<Decl>::empty()) == Seq::<DeclModel>::empty(),
{
}

/// A copy of a statement.
pub fn duplicate_stmt(s: &Stmt) -> (r: Stmt)
    ensures
        r@ == s@,
    decreases s,
{
    match s {
        Stmt::Print(e) => Stmt::Print(e.duplicate()),
        Stmt::Expression(e) => Stmt::Expression(e.duplicate()),
        Stmt::Assign(x, e) => Stmt::Assign(x.clone(), e.duplicate()),
        Stmt::Block(v) => Stmt::Block(duplicate_decls(v)),
        Stmt::Condition(c, a, b) => {
            let a2 = Box::new(duplicate_stmt(a));
            let b2 = match b {
                None => None,
                Some(b) => Some(Box::new(duplicate_stmt(b))),
            };
            Stmt::Condition(c.duplicate(), a2, b2)
        },
        Stmt::While(c, b) => Stmt::While(c.duplicate(), Box::new(duplicate_stmt(b))),
        Stmt::For(x, a, b) => Stmt::For(x.clone(), a.duplicate(), Box::new(duplicate_stmt(b))),
    }
}

/// A copy of a declaration.
pub fn duplicate_decl(d: &Decl) -> (r: Decl)
    ensures
        r@ == d@,
    decreases d,
{
    match d {
        Decl::VarDecl(x, e, m) => Decl::VarDecl(x.clone(), e.duplicate(), *m),
        Decl::Stmt(s) => Decl::Stmt(duplicate_stmt(s)),
        Decl::Empty => Decl::Empty,
    }
}

/// A copy of a list of declarations.
pub fn duplicate_decls(v: &Vec<Decl>) -> (r: Vec<Decl>)
    ensures
        model_decls(r@) == model_decls(v@),
    decreases v,
{
    let mut r: Vec<Decl> = Vec::new();
    let mut i: usize = 0;
    while i < v.len()
        invariant
            i <= v.len(),
            model_decls(r@) == model_decls(v@.subrange(0, i as int)),
        decreases v.len() - i,
    {
        proof {
            assert(decreases_to!(v => v@[i as int]));
        }
        let d = duplicate_decl(&v[i]);
        proof {
            lemma_model_decls_push(r@, d);
            lemma_model_decls_push(v@.subrange(0, i as int), v@[i as int]);
            assert(v@.subrange(0, i as int).push(v@[i as int]) =~= v@.subrange(0, i + 1));
        }
        r.push(d);
        i = i + 1;
    }
    assert(v@.subrange(0, v.len() as int) =~= v@);
    r
}

// ---------------------------------------------------------------------------
// Sizes: how many declarations a declaration holds, itself included
// ---------------------------------------------------------------------------

/// The number of declarations in `d`, `d` itself included; the body of a
/// loop and each branch of a condition count as declarations too.
pub open spec fn decl_size(d: DeclModel) -> nat
    decreases d,
{
    match d {
        DeclModel::Stmt(s) => stmt_size(s),
        _ => 1,
    }
}

/// The number of declarations in a statement, itself included.
pub open spec fn stmt_size(s: StmtModel) -> nat
    decreases s,
{
    match s {
        StmtModel::Block(ds) => 1 + decls_size(ds),
        StmtModel::Condition(_, a, b) => 1 + stmt_size(*a) + match b {
            Some(b) => stmt_size(*b),
            None => 0,
        },
        StmtModel::While(_, b) => 1 + stmt_size(*b),
        StmtModel::For(_, _, b) => 1 + stmt_size(*b),
        _ => 1,
    }
}

/// The number of declarations in a list of declarations.
pub open spec fn decls_size(ds: Seq<DeclModel>) -> nat
    decreases ds,
{
    if ds.len() == 0 {
        0
    } else {
        decl_size(ds[0]) + decls_size(ds.subrange(1, ds.len() as int))
    }
}

/// Every declaration counts at least itself.
pub proof fn lemma_decl_size_pos(d: DeclModel)
    ensures
        decl_size(d) >= 1,
{
    match d {
        DeclModel::Stmt(s) => {
            assert(stmt_size(s) >= 1);
        },
        _ => {},
    }
}

/// The size of a list is that of its head and its tail.
pub proof fn lemma_decls_size_cons(ds: Seq<DeclModel>)
    requires
        ds.len() > 0,
    ensures
        decls_size(ds) == decl_size(ds[0]) + decls_size(ds.subrange(1, ds.len() as int)),
{
}

/// The size of a statement, capped at `u64::MAX`.
pub fn stmt_size_capped(s: &Stmt) -> (r: u64)
    ensures
        r == if stmt_size(s@) <= u64::MAX {
            stmt_size(s@)
        } else {
            u64::MAX as nat
        },
    decreases s,
{
    match s {
        Stmt::Block(v) => 1u64.saturating_add(decls_size_capped(v)),
        Stmt::Condition(_, a, b) => {
            let x = stmt_size_capped(a);
            let y = match b {
                None => 0u64,
                Some(b) => stmt_size_capped(b),
            };
            1u64.saturating_add(x).saturating_add(y)
        },
        Stmt::While(_, b) => 1u64.saturating_add(stmt_size_capped(b)),
        Stmt::For(_, _, b) => 1u64.saturating_add(stmt_size_capped(b)),
        _ => 1,
    }
}

/// The size of a declaration, capped at `u64::MAX`.
pub fn decl_size_capped(d: &Decl) -> (r: u64)
    ensures
        r == if decl_size(d@) <= u64::MAX {
            decl_size(d@)
        } else {
            u64::MAX as nat
        },
    decreases d,
{
    match d {
        Decl::Stmt(s) => stmt_size_capped(s),
        _ => 1,
    }
}

/// The size of a list of declarations, capped at `u64::MAX`.
pub fn decls_size_capped(v: &Vec<Decl>) -> (r: u64)
    ensures
        r == if decls_size(model_decls(v@)) <= u64::MAX {
            decls_size(model_decls(v@))
        } else {
            u64::MAX as nat
        },
    decreases v,
{
    let mut total: u64 = 0;
    let mut i: usize = v.len();
    let ghost mv = model_decls(v@);
    proof {
        lemma_model_decls_len(v@);
    }
    while i > 0
        invariant
            i <= v.len(),
            mv == model_decls(v@),
            mv.len() == v.len(),
            total == if decls_size(mv.subrange(i as int, mv.len() as int)) <= u64::MAX {
                decls_size(mv.subrange(i as int, mv.len() as int))
            } else {
                u64::MAX as nat
            },
        decreases i,
    {
        i = i - 1;
        proof {
            assert(decreases_to!(v => v@[i as int]));
            lemma_model_decls_index(v@, i as int);
            let t = mv.subrange(i as int, mv.len() as int);
            assert(t[0] == mv[i as int]);
            assert(t.subrange(1, t.len() as int) =~= mv.subrange(i + 1, mv.len() as int));
        }
        let x = decl_size_capped(&v[i]);
        total = x.saturating_add(total);
    }
    assert(mv.subrange(0, mv.len() as int) =~= mv);
    total
}

/// The model of a list has its length.
pub proof fn lemma_model_decls_len(s: Seq<Decl>)
    ensures
        model_decls(s).len() == s.len(),
    decreases s.len(),
{
    if s.len() > 0 {
        lemma_model_decls_len(s.subrange(1, s.len() as int));
    }
}

/// The model of a list holds the model of each element at its place.
pub proof fn lemma_model_decls_index(s: Seq<Decl>, i: int)
    requires
        0 <= i < s.len(),
    ensures
        model_decls(s)[i] == model_decl(s[i]),
    decreases s.len(),
{
    lemma_model_decls_len(s.subrange(1, s.len() as int));
    if i > 0 {
        lemma_model_decls_index(s.subrange(1, s.len() as int), i - 1);
    }
}

// ---------------------------------------------------------------------------
// The names a script declares
// ---------------------------------------------------------------------------

/// The names declared so far, each with its mutability and type; a later
/// declaration of a name replaces an earlier one.
pub struct TypeEnv {
    entries: Vec<(String, Mutability, Type)>,
}

impl View for TypeEnv {
    type V = Map<Seq<char>, (Mutability, Type)>;

    closed spec fn view(&self) -> Map<Seq<char>, (Mutability, Type)> {
        Map::new(
            |k: Seq<char>| exists|i: int| 0 <= i < self.entries.len() && self.entries@[i].0@ == k,
            |k: Seq<char>|
                {
                    let i = choose|i: int| 0 <= i < self.entries.len() && self.entries@[i].0@ == k;
                    (self.entries@[i].1, self.entries@[i].2)
                },
        )
    }
}

impl TypeEnv {
    /// No two entries bind the same name.
    pub closed spec fn wf(&self) -> bool {
        forall|i: int, j: int|
            0 <= i < j < self.entries.len() ==> self.entries@[i].0@ != self.entries@[j].0@
    }

    /// The index of the entry for `name`, if there is one.
    fn find(&self, name: &String) -> (r: Option<usize>)
        requires
            self.wf(),
        ensures
            match r {
                None => forall|i: int|
                    0 <= i < self.entries.len() ==> self.entries@[i].0@ != name@,
                Some(i) => i < self.entries.len() && self.entries@[i as int].0@ == name@,
            },
    {
        let mut i: usize = 0;
        while i < self.entries.len()
            invariant
                i <= self.entries.len(),
                forall|j: int| 0 <= j < i ==> self.entries@[j].0@ != name@,
            decreases self.entries.len() - i,
        {
            if self.entries[i].0 == *name {
                return Some(i);
            }
            i = i + 1;
        }
        None
    }

    /// A copy of the environment.
    pub fn duplicate(&self) -> (r: TypeEnv)
        requires
            self.wf(),
        ensures
            r.wf(),
            r@ == self@,
    {
        let mut entries: Vec<(String, Mutability, Type)> = Vec::new();
        let mut i: usize = 0;
        while i < self.entries.len()
            invariant
                i <= self.entries.len(),
                entries@ == self.entries@.subrange(0, i as int),
            decreases self.entries.len() - i,
        {
            let e = (self.entries[i].0.clone(), self.entries[i].1, self.entries[i].2);
            entries.push(e);
            assert(entries@ =~= self.entries@.subrange(0, i + 1));
            i = i + 1;
        }
        assert(entries@ =~= self.entries@);
        TypeEnv { entries }
    }

    /// The empty environment.
    pub fn new() -> (e: TypeEnv)
        ensures
            e.wf(),
            e@ == Map::<Seq<char>, (Mutability, Type)>::empty(),
    {
        let e = TypeEnv { entries: Vec::new() };
        assert(e@ =~= Map::<Seq<char>, (Mutability, Type)>::empty());
        e
    }

    /// What `name` is declared as.
    pub fn get(&self, name: &String) -> (r: Option<(Mutability, Type)>)
        requires
            self.wf(),
        ensures
            r == if self@.contains_key(name@) {
                Some(self@[name@])
            } else {
                None::<(Mutability, Type)>
            },
    {
        match self.find(name) {
            None => {
                assert(!self@.contains_key(name@));
                None
            },
            Some(i) => {
                assert(self@.contains_key(name@));
                let ghost c = choose|c: int|
                    0 <= c < self.entries.len() && self.entries@[c].0@ == name@;
                assert(c == i);
                Some((self.entries[i].1, self.entries[i].2))
            },
        }
    }

    /// Declares `name`, replacing what it was declared as before.
    pub fn insert(&mut self, name: String, m: Mutability, t: Type)
        requires
            old(self).wf(),
        ensures
            final(self).wf(),
            final(self)@ == old(self)@.insert(name@, (m, t)),
    {
        let ghost old_entries = self.entries@;
        match self.find(&name) {
            None => {
                self.entries.push((name, m, t));
                proof {
                    assert forall|k: Seq<char>| #[trigger]
                        self@.contains_key(k) == old(self)@.insert(
                            name@,
                            (m, t),
                        ).contains_key(k) by {
                        if k != name@ && self@.contains_key(k) {
                            let i = choose|i: int|
                                0 <= i < self.entries.len() && self.entries@[i].0@ == k;
                            assert(old_entries[i].0@ == k);
                        }
                        if k != name@ && old(self)@.contains_key(k) {
                            let i = choose|i: int|
                                0 <= i < old_entries.len() && old_entries[i].0@ == k;
                            assert(self.entries@[i].0@ == k);
                        }
                        if k == name@ {
                            assert(self.entries@[self.entries.len() - 1].0@ == k);
                        }
                    }
                    assert forall|k: Seq<char>| #[trigger]
                        self@.contains_key(k) implies self@[k] == old(self)@.insert(
                            name@,
                            (m, t),
                        )[k] by {
                        let i = choose|i: int|
                            0 <= i < self.entries.len() && self.entries@[i].0@ == k;
                        if k == name@ {
                            assert(i == self.entries.len() - 1);
                        } else {
                            let j = choose|j: int|
                                0 <= j < old_entries.len() && old_entries[j].0@ == k;
                            assert(self.entries@[j].0@ == k);
                            assert(i == j);
                        }
                    }
                    assert(self@ =~= old(self)@.insert(name@, (m, t)));
                }
            },
            Some(i) => {
                self.entries.set(i, (name, m, t));
                proof {
                    assert forall|k: Seq<char>| #[trigger]
                        self@.contains_key(k) == old(self)@.insert(
                            name@,
                            (m, t),
                        ).contains_key(k) by {
                        if k != name@ && self@.contains_key(k) {
                            let j = choose|j: int|
                                0 <= j < self.entries.len() && self.entries@[j].0@ == k;
                            assert(old_entries[j].0@ == k);
                        }
                        if k != name@ && old(self)@.contains_key(k) {
                            let j = choose|j: int|
                                0 <= j < old_entries.len() && old_entries[j].0@ == k;
                            assert(self.entries@[j].0@ == k);
                        }
                        if k == name@ {
                            assert(self.entries@[i as int].0@ == k);
                        }
                    }
                    assert forall|k: Seq<char>| #[trigger]
                        self@.contains_key(k) implies self@[k] == old(self)@.insert(
                            name@,
                            (m, t),
                        )[k] by {
                        let j = choose|j: int|
                            0 <= j < self.entries.len() && self.entries@[j].0@ == k;
                        if k == name@ {
                            assert(j == i);
                        } else {
                            let j2 = choose|j2: int|
                                0 <= j2 < old_entries.len() && old_entries[j2].0@ == k;
                            assert(self.entries@[j2].0@ == k);
                            assert(j == j2);
                        }
                    }
                    assert(self@ =~= old(self)@.insert(name@, (m, t)));
                }
            },
        }
    }
}


// ---------------------------------------------------------------------------
// The grammar of statements
// ---------------------------------------------------------------------------

/// The names declared so far, as the statement grammar sees them.
pub type Names = Map<Seq<char>, (Mutability, Type)>;

/// The index of the first token of the kind of `stop` at or after `j`, or the end.
pub open spec fn stop_end(stop: TokenType, t: Seq<TokenType>, j: int) -> int
    decreases t.len() - j,
{
    if 0 <= j < t.len() && !starts(t.skip(j), stop) {
        stop_end(stop, t, j + 1)
    } else {
        j
    }
}

/// The expression that starts the tokens before the first `stop`, and the
/// tokens from that `stop` on.
pub open spec fn s_until(stop: TokenType, t: Seq<TokenType>) -> Option<(ExprModel, Seq<TokenType>)> {
    let e = stop_end(stop, t, 0);
    if 0 <= e <= t.len() {
        match p_expr(t.take(e)) {
            None => None,
            Some((x, _)) => Some((x, t.skip(e))),
        }
    } else {
        None
    }
}

/// An expression up to a `;`, and the `;`.
pub open spec fn s_terminated(t: Seq<TokenType>) -> Option<(ExprModel, Seq<TokenType>)> {
    match s_until(TokenType::Semicolon, t) {
        None => None,
        Some((e, r)) => if starts(r, TokenType::Semicolon) {
            Some((e, r.skip(1)))
        } else {
            None
        },
    }
}

/// What follows `var` or `final`: `name = e;`.
pub open spec fn s_binding(m: Mutability, t: Seq<TokenType>, names: Names) -> Option<
    (DeclModel, Seq<TokenType>, Names),
> {
    if t.len() >= 1 && t[0] is Identifier && starts(t.skip(1), TokenType::Equal) {
        let x = match t[0] {
            TokenType::Identifier(s) => s@,
            _ => Seq::empty(),
        };
        match s_terminated(t.skip(2)) {
            None => None,
            Some((e, r)) => Some((DeclModel::VarDecl(x, e, m), r, names.insert(x, (m, Type::Any)))),
        }
    } else {
        None
    }
}

/// `name = e;`, where `name` is declared mutable.
pub open spec fn s_assign(t: Seq<TokenType>, names: Names) -> Option<
    (StmtModel, Seq<TokenType>, Names),
> {
    if t.len() >= 1 && t[0] is Identifier {
        let x = match t[0] {
            TokenType::Identifier(s) => s@,
            _ => Seq::empty(),
        };
        if !names.contains_key(x) || names[x].0 == Mutability::Immutable {
            None
        } else if !starts(t.skip(1), TokenType::Equal) {
            None
        } else {
            match s_terminated(t.skip(2)) {
                None => None,
                Some((e, r)) => Some((StmtModel::Assign(x, e), r, names)),
            }
        }
    } else {
        None
    }
}

pub open spec fn s_decl(t: Seq<TokenType>, names: Names) -> Option<(DeclModel, Seq<TokenType>, Names)>
    decreases t.len(), 10int,
{
    if starts(t, TokenType::Var) {
        s_binding(Mutability::Mutable, t.skip(1), names)
    } else if starts(t, TokenType::Final) {
        s_binding(Mutability::Immutable, t.skip(1), names)
    } else {
        match s_stmt(t, names) {
            None => None,
            Some((st, r, n)) => Some((DeclModel::Stmt(st), r, n)),
        }
    }
}

pub open spec fn s_stmt(t: Seq<TokenType>, names: Names) -> Option<(StmtModel, Seq<TokenType>, Names)>
    decreases t.len(), 9int,
{
    if t.len() == 0 {
        None
    } else {
        let k = stmt_tag(t[0]);
        if k == 0 {
            match s_terminated(t.skip(1)) {
                None => None,
                Some((e, r)) => Some((StmtModel::Print(e), r, names)),
            }
        } else if k == 1 {
            s_block(t, names)
        } else if k == 2 {
            s_if(t.skip(1), names)
        } else if k == 3 {
            s_while(t.skip(1), names)
        } else if k == 4 {
            s_for(t.skip(1), names)
        } else if k == 5 && starts(t.skip(1), TokenType::Equal) {
            s_assign(t, names)
        } else {
            match s_terminated(t) {
                None => None,
                Some((e, r)) => Some((StmtModel::Expression(e), r, names)),
            }
        }
    }
}

/// Which statement a token starts: 0 `print`, 1 a block, 2 `if`, 3 `while`,
/// 4 `for`, 5 a name (an assignment where `=` follows), 6 an expression.
pub open spec fn stmt_tag(t: TokenType) -> int {
    match t {
        TokenType::Print => 0,
        TokenType::LeftBrace => 1,
        TokenType::If => 2,
        TokenType::While => 3,
        TokenType::For => 4,
        TokenType::Identifier(_) => 5,
        _ => 6,
    }
}

fn stmt_tag_of(t: &TokenType) -> (r: u8)
    ensures
        r == stmt_tag(*t),
{
    match t {
        TokenType::Print => 0,
        TokenType::LeftBrace => 1,
        TokenType::If => 2,
        TokenType::While => 3,
        TokenType::For => 4,
        TokenType::Identifier(_) => 5,
        _ => 6,
    }
}

/// A block: its first token (which opens it) is skipped, then declarations up
/// to the `}` that closes it.
pub open spec fn s_block(t: Seq<TokenType>, names: Names) -> Option<(StmtModel, Seq<TokenType>, Names)>
    decreases t.len(), 8int,
{
    if t.len() == 0 {
        None
    } else {
        match s_block_items(Seq::empty(), t.skip(1), names) {
            None => None,
            Some((ds, r, n)) => Some((StmtModel::Block(ds), r, n)),
        }
    }
}

/// The declarations of a block that follow `acc`, up to and with its `}`.
pub open spec fn s_block_items(acc: Seq<DeclModel>, t: Seq<TokenType>, names: Names) -> Option<
    (Seq<DeclModel>, Seq<TokenType>, Names),
>
    decreases t.len(), 12int,
{
    if starts(t, TokenType::RightBrace) {
        Some((acc, t.skip(1), names))
    } else if t.len() == 0 {
        None
    } else {
        match s_decl(t, names) {
            None => None,
            Some((d, r, n)) => if r.len() < t.len() {
                s_block_items(acc.push(d), r, n)
            } else {
                None
            },
        }
    }
}

/// What follows `if`: a condition up to a `{`, a block, and optionally `else`
/// and a block.
pub open spec fn s_if(t: Seq<TokenType>, names: Names) -> Option<(StmtModel, Seq<TokenType>, Names)>
    decreases t.len(), 11int,
{
    match s_until(TokenType::LeftBrace, t) {
        None => None,
        Some((c, r)) => if r.len() <= t.len() {
            match s_block(r, names) {
                None => None,
                Some((th, r2, n2)) => if r2.len() <= t.len() {
                    if starts(r2, TokenType::Else) {
                        match s_block(r2.skip(1), n2) {
                            None => None,
                            Some((el, r3, n3)) => Some(
                                (
                                    StmtModel::Condition(c, Box::new(th), Some(Box::new(el))),
                                    r3,
                                    n3,
                                ),
                            ),
                        }
                    } else {
                        Some((StmtModel::Condition(c, Box::new(th), None), r2, n2))
                    }
                } else {
                    None
                },
            }
        } else {
            None
        },
    }
}

/// What follows `while`: a condition up to a `{`, and a block.
pub open spec fn s_while(t: Seq<TokenType>, names: Names) -> Option<(StmtModel, Seq<TokenType>, Names)>
    decreases t.len(), 11int,
{
    match s_until(TokenType::LeftBrace, t) {
        None => None,
        Some((c, r)) => if r.len() <= t.len() {
            match s_block(r, names) {
                None => None,
                Some((b, r2, n2)) => Some((StmtModel::While(c, Box::new(b)), r2, n2)),
            }
        } else {
            None
        },
    }
}

/// What follows `for`: `x in`, an array up to a `{`, and a block.
pub open spec fn s_for(t: Seq<TokenType>, names: Names) -> Option<(StmtModel, Seq<TokenType>, Names)>
    decreases t.len(), 11int,
{
    if t.len() >= 1 && t[0] is Identifier && starts(t.skip(1), TokenType::In) {
        let x = match t[0] {
            TokenType::Identifier(s) => s@,
            _ => Seq::empty(),
        };
        match s_until(TokenType::LeftBrace, t.skip(2)) {
            None => None,
            Some((a, r)) => if r.len() <= t.len() {
                match s_block(r, names) {
                    None => None,
                    Some((b, r2, n2)) => Some((StmtModel::For(x, a, Box::new(b)), r2, n2)),
                }
            } else {
                None
            },
        }
    } else {
        None
    }
}

/// The declarations of a script that follow `acc`, to the end of the tokens.
pub open spec fn s_program_items(acc: Seq<DeclModel>, t: Seq<TokenType>, names: Names) -> Option<
    (Seq<DeclModel>, Names),
>
    decreases t.len(),
{
    if t.len() == 0 {
        Some((acc, names))
    } else {
        match s_decl(t, names) {
            None => None,
            Some((d, r, n)) => if r.len() < t.len() {
                s_program_items(acc.push(d), r, n)
            } else {
                None
            },
        }
    }
}

/// The result of a statement parsing method agrees with its grammar rule, and a
/// success reads at least one token.
pub open spec fn stmt_agrees(
    r: Option<Stmt>,
    rule: Option<(StmtModel, Seq<TokenType>, Names)>,
    after: Seq<TokenType>,
    names: Names,
    moved: bool,
) -> bool {
    match rule {
        None => r is None,
        Some((st, rest, n)) => r matches Some(x) && x@ == st && after == rest && names == n && moved,
    }
}

// ---------------------------------------------------------------------------
// The statement parser
// ---------------------------------------------------------------------------

pub struct StmtParser {
    tokens: Vec<TokenType>,
    pos: usize,
    type_env: TypeEnv,
}

impl StmtParser {
    pub closed spec fn remaining(&self) -> Seq<TokenType> {
        self.tokens@.skip(self.pos as int)
    }

    pub closed spec fn names(&self) -> Names {
        self.type_env@
    }

    pub closed spec fn wf(&self) -> bool {
        self.pos <= self.tokens.len() && self.type_env.wf()
    }

    /// A parser at the start of `tokens`, with no names declared.
    pub fn new(tokens: Vec<TokenType>) -> (p: Self)
        ensures
            p.wf(),
            p.remaining() == tokens@,
            p.names() == Map::<Seq<char>, (Mutability, Type)>::empty(),
    {
        let p = StmtParser { tokens, pos: 0, type_env: TypeEnv::new() };
        assert(p.tokens@.skip(0) =~= p.tokens@);
        p
    }

    fn advance(&mut self)
        requires
            old(self).wf(),
        ensures
            final(self).wf(),
            final(self).tokens@ == old(self).tokens@,
            final(self).type_env == old(self).type_env,
            final(self).pos == if old(self).pos < old(self).tokens.len() {
                old(self).pos + 1
            } else {
                old(self).pos as int
            },
            final(self).remaining() == if old(self).remaining().len() > 0 {
                old(self).remaining().skip(1)
            } else {
                old(self).remaining()
            },
    {
        if self.pos < self.tokens.len() {
            assert(self.tokens@.skip(self.pos + 1) =~= self.tokens@.skip(self.pos as int).skip(1));
            self.pos += 1;
        }
    }

    fn check(&self, expected: &TokenType) -> (r: bool)
        requires
            self.wf(),
        ensures
            r == starts(self.remaining(), *expected),
    {
        if self.pos < self.tokens.len() {
            self.tokens[self.pos].kind() == expected.kind()
        } else {
            false
        }
    }

    /// The next token, if it is an identifier: its name.
    fn identifier(&self) -> (r: Option<String>)
        requires
            self.wf(),
        ensures
            match r {
                None => !(self.remaining().len() >= 1 && self.remaining()[0] is Identifier),
                Some(x) => self.remaining().len() >= 1 && self.remaining()[0] == TokenType::Identifier(
                    x,
                ),
            },
    {
        if self.pos < self.tokens.len() {
            match &self.tokens[self.pos] {
                TokenType::Identifier(x) => Some(x.clone()),
                _ => None,
            }
        } else {
            None
        }
    }

    /// Parses an expression from the tokens before the next token of the kind
    /// of `stop`; reading goes on at that token.
    fn parse_expr_until(&mut self, stop: &TokenType) -> (r: Option<Expr>)
        requires
            old(self).wf(),
        ensures
            final(self).wf(),
            final(self).tokens@ == old(self).tokens@,
            final(self).type_env == old(self).type_env,
            old(self).pos <= final(self).pos,
            agrees_until(r, s_until(*stop, old(self).remaining()), final(self).remaining()),
            r is Some ==> old(self).pos < final(self).pos,
    {
        let ghost t0 = self.remaining();
        let start = self.pos;
        while self.pos < self.tokens.len() && !self.check(stop)
            invariant
                self.wf(),
                self.tokens@ == old(self).tokens@,
                self.type_env == old(self).type_env,
                start == old(self).pos,
                t0 == old(self).remaining(),
                start <= self.pos,
                stop_end(*stop, t0, 0) == stop_end(*stop, t0, self.pos - start),
            decreases self.tokens.len() - self.pos,
        {
            assert(t0.skip(self.pos - start) =~= self.remaining());
            self.advance();
        }
        let end = self.pos;
        proof {
            assert(t0.skip(end - start) =~= self.remaining());
            assert(stop_end(*stop, t0, end - start) == end - start);
            assert(t0.take(end - start) =~= self.tokens@.subrange(start as int, end as int));
        }
        let mut parser = Parser::new(copy_tokens(&self.tokens, start, end));
        let r = parser.parse_expr();
        proof {
            if r is Some {
                lemma_empty_is_no_expression();
                assert(end - start > 0) by {
                    if end == start {
                        assert(t0.take(0) =~= Seq::<TokenType>::empty());
                    }
                }
            }
        }
        r
    }

    /// Parses `e;`.
    fn parse_terminated(&mut self) -> (r: Option<Expr>)
        requires
            old(self).wf(),
        ensures
            final(self).wf(),
            final(self).tokens@ == old(self).tokens@,
            final(self).type_env == old(self).type_env,
            old(self).pos <= final(self).pos,
            agrees_until(r, s_terminated(old(self).remaining()), final(self).remaining()),
            r is Some ==> old(self).pos < final(self).pos,
    {
        let expr = match self.parse_expr_until(&TokenType::Semicolon) {
            None => {
                return None;
            },
            Some(e) => e,
        };
        if !self.check(&TokenType::Semicolon) {
            return None;
        }
        self.advance();
        Some(expr)
    }

    /// Parses a whole script: its declarations, and the names it declares.
    pub fn parse(&mut self) -> (r: Option<(Vec<Decl>, TypeEnv)>)
        requires
            old(self).wf(),
        ensures
            match s_program_items(Seq::empty(), old(self).remaining(), old(self).names()) {
                None => r is None,
                Some((ds, n)) => r matches Some((v, e)) && model_decls(v@) == ds && e@ == n,
            },
    {
        let mut decls: Vec<Decl> = Vec::new();
        proof {
            lemma_model_decls_empty();
        }
        while self.pos < self.tokens.len()
            invariant
                self.wf(),
                self.tokens@ == old(self).tokens@,
                s_program_items(Seq::empty(), old(self).remaining(), old(self).names())
                    == s_program_items(model_decls(decls@), self.remaining(), self.names()),
            decreases self.tokens.len() - self.pos,
        {
            let d = match self.parse_decl() {
                None => {
                    return None;
                },
                Some(d) => d,
            };
            proof {
                lemma_model_decls_push(decls@, d);
            }
            decls.push(d);
        }
        assert(self.remaining().len() == 0);
        Some((decls, self.type_env.duplicate()))
    }

    fn parse_decl(&mut self) -> (r: Option<Decl>)
        requires
            old(self).wf(),
        ensures
            final(self).wf(),
            final(self).tokens@ == old(self).tokens@,
            old(self).pos <= final(self).pos,
            match s_decl(old(self).remaining(), old(self).names()) {
                None => r is None,
                Some((d, rest, n)) => r matches Some(x) && x@ == d && final(self).remaining()
                    == rest && final(self).names() == n && old(self).pos < final(self).pos,
            },
        decreases old(self).remaining().len(), 10int,
    {
        if self.check(&TokenType::Var) {
            self.parse_binding(Mutability::Mutable)
        } else if self.check(&TokenType::Final) {
            self.parse_binding(Mutability::Immutable)
        } else {
            match self.parse_stmt() {
                None => None,
                Some(st) => Some(Decl::Stmt(st)),
            }
        }
    }

    /// Parses `var name = e;` (or `final`), and declares the name.
    fn parse_binding(&mut self, m: Mutability) -> (r: Option<Decl>)
        requires
            old(self).wf(),
            old(self).remaining().len() > 0,
        ensures
            final(self).wf(),
            final(self).tokens@ == old(self).tokens@,
            old(self).pos <= final(self).pos,
            match s_binding(m, old(self).remaining().skip(1), old(self).names()) {
                None => r is None,
                Some((d, rest, n)) => r matches Some(x) && x@ == d && final(self).remaining()
                    == rest && final(self).names() == n && old(self).pos < final(self).pos,
            },
    {
        let ghost t = self.remaining().skip(1);
        self.advance();
        let name = match self.identifier() {
            None => {
                return None;
            },
            Some(x) => x,
        };
        self.advance();
        if !self.check(&TokenType::Equal) {
            return None;
        }
        self.advance();
        assert(self.remaining() == t.skip(2)) by {
            assert(t.skip(1).skip(1) =~= t.skip(2));
        }
        let expr = match self.parse_terminated() {
            None => {
                return None;
            },
            Some(e) => e,
        };
        self.type_env.insert(name.clone(), m, Type::Any);
        Some(Decl::VarDecl(name, expr, m))
    }

    fn parse_stmt(&mut self) -> (r: Option<Stmt>)
        requires
            old(self).wf(),
        ensures
            final(self).wf(),
            final(self).tokens@ == old(self).tokens@,
            old(self).pos <= final(self).pos,
            stmt_agrees(
                r,
                s_stmt(old(self).remaining(), old(self).names()),
                final(self).remaining(),
                final(self).names(),
                old(self).pos < final(self).pos,
            ),
        decreases old(self).remaining().len(), 9int,
    {
        if self.pos >= self.tokens.len() {
            return None;
        }
        let tag = stmt_tag_of(&self.tokens[self.pos]);
        assert(self.remaining()[0] == self.tokens@[self.pos as int]);
        if tag == 0 {
            self.advance();
            match self.parse_terminated() {
                None => None,
                Some(e) => Some(Stmt::Print(e)),
            }
        } else if tag == 1 {
            self.parse_block()
        } else if tag == 2 {
            self.advance();
            self.parse_if()
        } else if tag == 3 {
            self.advance();
            self.parse_while()
        } else if tag == 4 {
            self.advance();
            self.parse_for()
        } else if tag == 5 && self.pos + 1 < self.tokens.len() && self.tokens[self.pos + 1].kind()
            == TokenType::Equal.kind() {
            assert(self.remaining().skip(1)[0] == self.tokens@[self.pos + 1]);
            self.parse_assign()
        } else {
            proof {
                if self.pos + 1 < self.tokens.len() {
                    assert(self.remaining().skip(1)[0] == self.tokens@[self.pos + 1]);
                }
            }
            match self.parse_terminated() {
                None => None,
                Some(e) => Some(Stmt::Expression(e)),
            }
        }
    }

    /// Parses `name = e;`, where `name` must be declared mutable.
    fn parse_assign(&mut self) -> (r: Option<Stmt>)
        requires
            old(self).wf(),
        ensures
            final(self).wf(),
            final(self).tokens@ == old(self).tokens@,
            old(self).pos <= final(self).pos,
            stmt_agrees(
                r,
                s_assign(old(self).remaining(), old(self).names()),
                final(self).remaining(),
                final(self).names(),
                old(self).pos < final(self).pos,
            ),
    {
        let ghost t = self.remaining();
        let name = match self.identifier() {
            None => {
                return None;
            },
            Some(x) => x,
        };
        self.advance();
        match self.type_env.get(&name) {
            Some((mutability, _)) => {
                if mutability == Mutability::Immutable {
                    return None;
                }
            },
            None => {
                return None;
            },
        }
        if !self.check(&TokenType::Equal) {
            return None;
        }
        self.advance();
        assert(self.remaining() == t.skip(2)) by {
            assert(t.skip(1).skip(1) =~= t.skip(2));
        }
        match self.parse_terminated() {
            None => None,
            Some(e) => Some(Stmt::Assign(name, e)),
        }
    }

    /// Parses a block; its first token is taken to be the `{` that opens it.
    fn parse_block(&mut self) -> (r: Option<Stmt>)
        requires
            old(self).wf(),
        ensures
            final(self).wf(),
            final(self).tokens@ == old(self).tokens@,
            old(self).pos <= final(self).pos,
            stmt_agrees(
                r,
                s_block(old(self).remaining(), old(self).names()),
                final(self).remaining(),
                final(self).names(),
                old(self).pos < final(self).pos,
            ),
        decreases old(self).remaining().len(), 8int,
    {
        if self.pos >= self.tokens.len() {
            return None;
        }
        self.advance();
        let mut decls: Vec<Decl> = Vec::new();
        proof {
            lemma_model_decls_empty();
        }
        loop
            invariant
                self.wf(),
                self.tokens@ == old(self).tokens@,
                old(self).pos < self.pos,
                s_block(old(self).remaining(), old(self).names()) == match s_block_items(
                    model_decls(decls@),
                    self.remaining(),
                    self.names(),
                ) {
                    None => None,
                    Some((ds, r, n)) => Some((StmtModel::Block(ds), r, n)),
                },
            decreases self.tokens.len() - self.pos,
        {
            if self.check(&TokenType::RightBrace) {
                self.advance();
                return Some(Stmt::Block(decls));
            }
            if self.pos >= self.tokens.len() {
                return None;
            }
            let d = match self.parse_decl() {
                None => {
                    return None;
                },
                Some(d) => d,
            };
            proof {
                lemma_model_decls_push(decls@, d);
            }
            decls.push(d);
        }
    }

    /// Parses what follows `if`.
    fn parse_if(&mut self) -> (r: Option<Stmt>)
        requires
            old(self).wf(),
        ensures
            final(self).wf(),
            final(self).tokens@ == old(self).tokens@,
            old(self).pos <= final(self).pos,
            stmt_agrees(
                r,
                s_if(old(self).remaining(), old(self).names()),
                final(self).remaining(),
                final(self).names(),
                old(self).pos < final(self).pos,
            ),
        decreases old(self).remaining().len(), 11int,
    {
        let cond = match self.parse_expr_until(&TokenType::LeftBrace) {
            None => {
                return None;
            },
            Some(c) => c,
        };
        let then_stmt = match self.parse_block() {
            None => {
                return None;
            },
            Some(s) => s,
        };
        if self.check(&TokenType::Else) {
            self.advance();
            match self.parse_block() {
                None => None,
                Some(e) => Some(Stmt::Condition(cond, Box::new(then_stmt), Some(Box::new(e)))),
            }
        } else {
            Some(Stmt::Condition(cond, Box::new(then_stmt), None))
        }
    }

    /// Parses what follows `while`.
    fn parse_while(&mut self) -> (r: Option<Stmt>)
        requires
            old(self).wf(),
        ensures
            final(self).wf(),
            final(self).tokens@ == old(self).tokens@,
            old(self).pos <= final(self).pos,
            stmt_agrees(
                r,
                s_while(old(self).remaining(), old(self).names()),
                final(self).remaining(),
                final(self).names(),
                old(self).pos < final(self).pos,
            ),
        decreases old(self).remaining().len(), 11int,
    {
        let cond = match self.parse_expr_until(&TokenType::LeftBrace) {
            None => {
                return None;
            },
            Some(c) => c,
        };
        match self.parse_block() {
            None => None,
            Some(b) => Some(Stmt::While(cond, Box::new(b))),
        }
    }

    /// Parses what follows `for`.
    fn parse_for(&mut self) -> (r: Option<Stmt>)
        requires
            old(self).wf(),
        ensures
            final(self).wf(),
            final(self).tokens@ == old(self).tokens@,
            old(self).pos <= final(self).pos,
            stmt_agrees(
                r,
                s_for(old(self).remaining(), old(self).names()),
                final(self).remaining(),
                final(self).names(),
                old(self).pos < final(self).pos,
            ),
        decreases old(self).remaining().len(), 11int,
    {
        let ghost t = self.remaining();
        let var = match self.identifier() {
            None => {
                return None;
            },
            Some(x) => x,
        };
        self.advance();
        if !self.check(&TokenType::In) {
            return None;
        }
        self.advance();
        assert(self.remaining() == t.skip(2)) by {
            assert(t.skip(1).skip(1) =~= t.skip(2));
        }
        let arr = match self.parse_expr_until(&TokenType::LeftBrace) {
            None => {
                return None;
            },
            Some(a) => a,
        };
        match self.parse_block() {
            None => None,
            Some(b) => Some(Stmt::For(var, arr, Box::new(b))),
        }
    }
}

/// The result of an expression read up to a delimiter agrees with its rule.
pub open spec fn agrees_until(
    r: Option<Expr>,
    rule: Option<(ExprModel, Seq<TokenType>)>,
    after: Seq<TokenType>,
) -> bool {
    match rule {
        None => r is None,
        Some((e, rest)) => r matches Some(x) && x@ == e && after == rest,
    }
}

/// No expression can be read from no tokens.
pub proof fn lemma_empty_is_no_expression()
    ensures
        p_expr(Seq::<TokenType>::empty()) is None,
{
    let t = Seq::<TokenType>::empty();
    assert(crate::parser::p_primary(t) is None);
    assert(crate::parser::p_unary(t) is None);
    assert(crate::parser::p_level(5, t) is None);
    assert(crate::parser::p_level(4, t) is None);
    assert(crate::parser::p_level(3, t) is None);
    assert(crate::parser::p_level(2, t) is None);
    assert(crate::parser::p_level(1, t) is None);
    assert(crate::parser::p_level(0, t) is None);
}


/// The declarations of a block end no later than where they started.
proof fn lemma_block_items_rest(acc: Seq<DeclModel>, t: Seq<TokenType>, names: Names)
    ensures
        s_block_items(acc, t, names) matches Some((_, r, _)) ==> r.len() <= t.len(),
    decreases t.len(),
{
    if !starts(t, TokenType::RightBrace) && t.len() > 0 {
        match s_decl(t, names) {
            None => {},
            Some((d, r, n)) => if r.len() < t.len() {
                lemma_block_items_rest(acc.push(d), r, n);
            },
        }
    }
}

/// A block reads at least its opening token.
proof fn lemma_block_rest(t: Seq<TokenType>, names: Names)
    ensures
        s_block(t, names) matches Some((_, r, _)) ==> r.len() < t.len(),
{
    if t.len() > 0 {
        lemma_block_items_rest(Seq::empty(), t.skip(1), names);
    }
}

/// `if` reads its condition and its first block as `while` reads its
/// condition and body, and fails where `while` would: the two differ only in
/// what they build, and in that `if` reads an `else` and a second block where
/// one follows. Without an `else` the statement is `Condition(c, b, None)`,
/// and parsing goes on right after the block.
pub proof fn law_if_reads_as_while_does(t: Seq<TokenType>, names: Names)
    ensures
        match s_while(t, names) {
            None => s_if(t, names) is None,
            Some((w, r, n)) => match w {
                StmtModel::While(c, b) => if starts(r, TokenType::Else) {
                    s_if(t, names) == match s_block(r.skip(1), n) {
                        None => None,
                        Some((el, r3, n3)) => Some(
                            (StmtModel::Condition(c, b, Some(Box::new(el))), r3, n3),
                        ),
                    }
                } else {
                    s_if(t, names) == Some((StmtModel::Condition(c, b, None), r, n))
                },
                _ => false,
            },
        },
{
    match s_until(TokenType::LeftBrace, t) {
        None => {},
        Some((c, r)) => {
            if r.len() <= t.len() {
                lemma_block_rest(r, names);
            }
        },
    }
}

} // verus!
