//! Expressions of the script language, which are also its runtime values.

use vstd::prelude::*;

verus! {

/// An expression. `Number`, `String`, `Bool`, `Nil` and `Array` are also the
/// values that evaluation produces; a `Number` keeps the decimal text of its
/// numeral.
#[derive(Debug)]
pub enum Expr {
    Number(String),
    String(String),
    Bool(bool),
    Nil,
    Var(String),
    Unary(UnaryOp, Box<Expr>),
    Binary(Box<Expr>, BinaryOp, Box<Expr>),
    Array(Vec<Expr>),
    Range(Box<Expr>, Box<Expr>),
    MapExpr(String, Box<Expr>, Box<Expr>),
    FilterExpr(String, Box<Expr>, Box<Expr>),
    ScanlExpr(String, Box<Expr>, String, Box<Expr>, Box<Expr>),
    FoldlExpr(String, Box<Expr>, String, Box<Expr>, Box<Expr>),
}

#[derive(Debug, Clone, Copy, PartialEq, Eq, Structural)]
pub enum UnaryOp {
    Bang,
    Minus,
}

#[derive(Debug, Clone, Copy, PartialEq, Eq, Structural)]
pub enum BinaryOp {
    Plus,
    Minus,
    Star,
    Slash,
    EqualEqual,
    BangEqual,
    Less,
    LessEqual,
    Greater,
    GreaterEqual,
    And,
    Or,
    Get,
    Modulo,
}

/// The mathematical content of an expression: names and texts as sequences of
/// characters, the elements of an array as a sequence.
pub enum ExprModel {
    Number(Seq<char>),
    Str(Seq<char>),
    Bool(bool),
    Nil,
    Var(Seq<char>),
    Unary(UnaryOp, Box<ExprModel>),
    Binary(Box<ExprModel>, BinaryOp, Box<ExprModel>),
    Array(Seq<ExprModel>),
    Range(Box<ExprModel>, Box<ExprModel>),
    MapExpr(Seq<char>, Box<ExprModel>, Box<ExprModel>),
    FilterExpr(Seq<char>, Box<ExprModel>, Box<ExprModel>),
    ScanlExpr(Seq<char>, Box<ExprModel>, Seq<char>, Box<ExprModel>, Box<ExprModel>),
    FoldlExpr(Seq<char>, Box<ExprModel>, Seq<char>, Box<ExprModel>, Box<ExprModel>),
}

/// The models of a sequence of expressions.
pub open spec fn model_seq(s: Seq<Expr>) -> Seq<ExprModel>
    decreases s,
{
    if s.len() == 0 {
        Seq::empty()
    } else {
        seq![model_of(s[0])] + model_seq(s.subrange(1, s.len() as int))
    }
}

/// The model of an expression.
pub open spec fn model_of(e: Expr) -> ExprModel
    decreases e,
{
    match e {
        Expr::Number(s) => ExprModel::Number(s@),
        Expr::String(s) => ExprModel::Str(s@),
        Expr::Bool(b) => ExprModel::Bool(b),
        Expr::Nil => ExprModel::Nil,
        Expr::Var(s) => ExprModel::Var(s@),
        Expr::Unary(op, a) => ExprModel::Unary(op, Box::new(model_of(*a))),
        Expr::Binary(a, op, b) => ExprModel::Binary(
            Box::new(model_of(*a)),
            op,
            Box::new(model_of(*b)),
        ),
        Expr::Array(v) => ExprModel::Array(model_seq(v@)),
        Expr::Range(a, b) => ExprModel::Range(Box::new(model_of(*a)), Box::new(model_of(*b))),
        Expr::MapExpr(x, a, b) => ExprModel::MapExpr(
            x@,
            Box::new(model_of(*a)),
            Box::new(model_of(*b)),
        ),
        Expr::FilterExpr(x, a, b) => ExprModel::FilterExpr(
            x@,
            Box::new(model_of(*a)),
            Box::new(model_of(*b)),
        ),
        Expr::ScanlExpr(acc, a, x, b, c) => ExprModel::ScanlExpr(
            acc@,
            Box::new(model_of(*a)),
            x@,
            Box::new(model_of(*b)),
            Box::new(model_of(*c)),
        ),
        Expr::FoldlExpr(acc, a, x, b, c) => ExprModel::FoldlExpr(
            acc@,
            Box::new(model_of(*a)),
            x@,
            Box::new(model_of(*b)),
            Box::new(model_of(*c)),
        ),
    }
}

impl View for Expr {
    type V = ExprModel;

    open spec fn view(&self) -> ExprModel {
        model_of(*self)
    }
}

impl Expr {
    /// A copy of the expression with the same model.
    pub fn duplicate(&self) -> (r: Expr)
        ensures
            r@ == self@,
        decreases self,
    {
        match self {
            Expr::Number(s) => Expr::Number(s.clone()),
            Expr::String(s) => Expr::String(s.clone()),
            Expr::Bool(b) => Expr::Bool(*b),
            Expr::Nil => Expr::Nil,
            Expr::Var(s) => Expr::Var(s.clone()),
            Expr::Unary(op, a) => Expr::Unary(*op, Box::new(a.duplicate())),
            Expr::Binary(a, op, b) => Expr::Binary(
                Box::new(a.duplicate()),
                *op,
                Box::new(b.duplicate()),
            ),
            Expr::Array(v) => Expr::Array(duplicate_all(v)),
            Expr::Range(a, b) => Expr::Range(Box::new(a.duplicate()), Box::new(b.duplicate())),
            Expr::MapExpr(x, a, b) => Expr::MapExpr(
                x.clone(),
                Box::new(a.duplicate()),
                Box::new(b.duplicate()),
            ),
            Expr::FilterExpr(x, a, b) => Expr::FilterExpr(
                x.clone(),
                Box::new(a.duplicate()),
                Box::new(b.duplicate()),
            ),
            Expr::ScanlExpr(acc, a, x, b, c) => Expr::ScanlExpr(
                acc.clone(),
                Box::new(a.duplicate()),
                x.clone(),
                Box::new(b.duplicate()),
                Box::new(c.duplicate()),
            ),
            Expr::FoldlExpr(acc, a, x, b, c) => Expr::FoldlExpr(
                acc.clone(),
                Box::new(a.duplicate()),
                x.clone(),
                Box::new(b.duplicate()),
                Box::new(c.duplicate()),
            ),
        }
    }
}

/// Copies of the expressions of `v`, with the same models.
pub fn duplicate_all(v: &Vec<Expr>) -> (r: Vec<Expr>)
    ensures
        model_seq(r@) == model_seq(v@),
    decreases v,
{
    let mut r: Vec<Expr> = Vec::new();
    let mut i: usize = 0;
    while i < v.len()
        invariant
            i <= v.len(),
            model_seq(r@) == model_seq(v@.subrange(0, i as int)),
        decreases v.len() - i,
    {
        proof {
            assert(decreases_to!(v => v@[i as int]));
        }
        let e = v[i].duplicate();
        proof {
            lemma_model_seq_push(r@, e);
            lemma_model_seq_push(v@.subrange(0, i as int), v@[i as int]);
            assert(v@.subrange(0, i as int).push(v@[i as int]) =~= v@.subrange(0, i + 1));
        }
        r.push(e);
        i = i + 1;
    }
    assert(v@.subrange(0, v.len() as int) =~= v@);
    r
}

/// The model of a sequence extended by one expression.
pub proof fn lemma_model_seq_push(s: Seq<Expr>, e: Expr)
    ensures
        model_seq(s.push(e)) == model_seq(s).push(model_of(e)),
    decreases s.len(),
{
    if s.len() == 0 {
        assert(s.push(e).subrange(1, 1) =~= Seq::<Expr>::empty());
        assert(seq![model_of(e)] + Seq::<ExprModel>::empty() =~= Seq::<ExprModel>::empty().push(model_of(e)));
        assert(model_seq(Seq::<Expr>::empty()) == Seq::<ExprModel>::empty());
        assert(s =~= Seq::<Expr>::empty());
        assert(s.push(e)[0] == e);
    } else {
        assert(s.push(e).subrange(1, s.len() as int + 1) =~= s.subrange(1, s.len() as int).push(e));
        lemma_model_seq_push(s.subrange(1, s.len() as int), e);
        let m0 = seq![model_of(s[0])];
        let t = model_seq(s.subrange(1, s.len() as int));
        assert(s.push(e)[0] == s[0]);
        assert(m0 + t.push(model_of(e)) =~= (m0 + t).push(model_of(e)));
        assert(model_seq(s) == m0 + t);
        assert(model_seq(s.push(e)) == m0 + model_seq(s.push(e).subrange(1, s.len() as int + 1)));
        assert(model_seq(s.push(e)) == m0 + t.push(model_of(e)));
    }
}

/// The model of a sequence has the same length, and its elements are the models
/// of the elements.
pub proof fn lemma_model_seq_index(s: Seq<Expr>)
    ensures
        model_seq(s).len() == s.len(),
        forall|i: int| 0 <= i < s.len() ==> #[trigger] model_seq(s)[i] == model_of(s[i]),
    decreases s.len(),
{
    if s.len() > 0 {
        lemma_model_seq_index(s.subrange(1, s.len() as int));
    }
}

/// The names of the strings of `v`.
pub open spec fn names_of(v: Seq<String>) -> Seq<Seq<char>> {
    v.map_values(|s: String| s@)
}

/// The variable names an expression mentions, in order from left to right,
/// each as often as it occurs. The names that a comprehension binds are not
/// left out.
pub open spec fn vars_of(e: ExprModel) -> Seq<Seq<char>>
    decreases e,
{
    match e {
        ExprModel::Var(x) => seq![x],
        ExprModel::Array(es) => vars_of_all(es),
        ExprModel::Unary(_, a) => vars_of(*a),
        ExprModel::Binary(a, _, b) => vars_of(*a) + vars_of(*b),
        ExprModel::MapExpr(_, a, b) => vars_of(*a) + vars_of(*b),
        ExprModel::FilterExpr(_, a, b) => vars_of(*a) + vars_of(*b),
        ExprModel::ScanlExpr(_, a, _, b, c) => vars_of(*a) + vars_of(*b) + vars_of(*c),
        ExprModel::FoldlExpr(_, a, _, b, c) => vars_of(*a) + vars_of(*b) + vars_of(*c),
        ExprModel::Range(a, b) => vars_of(*a) + vars_of(*b),
        _ => Seq::empty(),
    }
}

/// The variable names that the expressions of `es` mention, one expression
/// after the other.
pub open spec fn vars_of_all(es: Seq<ExprModel>) -> Seq<Seq<char>>
    decreases es,
{
    if es.len() == 0 {
        Seq::empty()
    } else {
        vars_of(es[0]) + vars_of_all(es.subrange(1, es.len() as int))
    }
}

/// `s` is `e` or stands somewhere inside it: an operand, an element, a
/// bound, the array or the body of a comprehension, its initial value, and so
/// on down.
pub open spec fn subterm(s: ExprModel, e: ExprModel) -> bool
    decreases e,
{
    s == e || match e {
        ExprModel::Unary(_, a) => subterm(s, *a),
        ExprModel::Binary(a, _, b) => subterm(s, *a) || subterm(s, *b),
        ExprModel::Array(es) => subterm_any(s, es),
        ExprModel::Range(a, b) => subterm(s, *a) || subterm(s, *b),
        ExprModel::MapExpr(_, a, b) => subterm(s, *a) || subterm(s, *b),
        ExprModel::FilterExpr(_, a, b) => subterm(s, *a) || subterm(s, *b),
        ExprModel::ScanlExpr(_, a, _, b, c) => subterm(s, *a) || subterm(s, *b) || subterm(s, *c),
        ExprModel::FoldlExpr(_, a, _, b, c) => subterm(s, *a) || subterm(s, *b) || subterm(s, *c),
        _ => false,
    }
}

/// `s` stands inside one of the expressions of `es`.
pub open spec fn subterm_any(s: ExprModel, es: Seq<ExprModel>) -> bool
    decreases es,
{
    if es.len() == 0 {
        false
    } else {
        subterm(s, es[0]) || subterm_any(s, es.subrange(1, es.len() as int))
    }
}

/// The names that an expression yields are exactly the variables that stand
/// anywhere in it: every variable read by any operand, element or part is
/// there, and no other name.
pub proof fn law_vars_are_the_variables_inside(e: ExprModel, x: Seq<char>)
    ensures
        vars_of(e).contains(x) <==> subterm(ExprModel::Var(x), e),
    decreases e,
{
    match e {
        ExprModel::Var(y) => {
            assert(vars_of(e) =~= seq![y]);
            assert(seq![y].contains(x) <==> y == x) by {
                if y == x {
                    assert(seq![y][0] == x);
                }
            }
        },
        ExprModel::Unary(_, a) => {
            law_vars_are_the_variables_inside(*a, x);
        },
        ExprModel::Binary(a, _, b) => {
            law_vars_are_the_variables_inside(*a, x);
            law_vars_are_the_variables_inside(*b, x);
            lemma_contains_concat(vars_of(*a), vars_of(*b), x);
        },
        ExprModel::Range(a, b) => {
            law_vars_are_the_variables_inside(*a, x);
            law_vars_are_the_variables_inside(*b, x);
            lemma_contains_concat(vars_of(*a), vars_of(*b), x);
        },
        ExprModel::MapExpr(_, a, b) => {
            law_vars_are_the_variables_inside(*a, x);
            law_vars_are_the_variables_inside(*b, x);
            lemma_contains_concat(vars_of(*a), vars_of(*b), x);
        },
        ExprModel::FilterExpr(_, a, b) => {
            law_vars_are_the_variables_inside(*a, x);
            law_vars_are_the_variables_inside(*b, x);
            lemma_contains_concat(vars_of(*a), vars_of(*b), x);
        },
        ExprModel::ScanlExpr(_, a, _, b, c) => {
            law_vars_are_the_variables_inside(*a, x);
            law_vars_are_the_variables_inside(*b, x);
            law_vars_are_the_variables_inside(*c, x);
            lemma_contains_concat(vars_of(*a), vars_of(*b), x);
            lemma_contains_concat(vars_of(*a) + vars_of(*b), vars_of(*c), x);
        },
        ExprModel::FoldlExpr(_, a, _, b, c) => {
            law_vars_are_the_variables_inside(*a, x);
            law_vars_are_the_variables_inside(*b, x);
            law_vars_are_the_variables_inside(*c, x);
            lemma_contains_concat(vars_of(*a), vars_of(*b), x);
            lemma_contains_concat(vars_of(*a) + vars_of(*b), vars_of(*c), x);
        },
        ExprModel::Array(es) => {
            lemma_vars_all_inside(es, x);
        },
        _ => {
            assert(vars_of(e) =~= Seq::<Seq<char>>::empty());
        },
    }
}

proof fn lemma_vars_all_inside(es: Seq<ExprModel>, x: Seq<char>)
    ensures
        vars_of_all(es).contains(x) <==> subterm_any(ExprModel::Var(x), es),
    decreases es,
{
    if es.len() == 0 {
        assert(vars_of_all(es) =~= Seq::<Seq<char>>::empty());
    } else {
        let rest = es.subrange(1, es.len() as int);
        law_vars_are_the_variables_inside(es[0], x);
        lemma_vars_all_inside(rest, x);
        lemma_contains_concat(vars_of(es[0]), vars_of_all(rest), x);
    }
}

/// How many times the variable `x` stands in `e`, as an operand, an element
/// or a part at any depth.
pub open spec fn var_count(x: Seq<char>, e: ExprModel) -> nat
    decreases e,
{
    match e {
        ExprModel::Var(y) => if y == x {
            1
        } else {
            0
        },
        ExprModel::Unary(_, a) => var_count(x, *a),
        ExprModel::Binary(a, _, b) => var_count(x, *a) + var_count(x, *b),
        ExprModel::Array(es) => var_count_all(x, es),
        ExprModel::Range(a, b) => var_count(x, *a) + var_count(x, *b),
        ExprModel::MapExpr(_, a, b) => var_count(x, *a) + var_count(x, *b),
        ExprModel::FilterExpr(_, a, b) => var_count(x, *a) + var_count(x, *b),
        ExprModel::ScanlExpr(_, a, _, b, c) => var_count(x, *a) + var_count(x, *b) + var_count(x, *c),
        ExprModel::FoldlExpr(_, a, _, b, c) => var_count(x, *a) + var_count(x, *b) + var_count(x, *c),
        _ => 0,
    }
}

/// How many times `x` stands in the expressions of `es`.
pub open spec fn var_count_all(x: Seq<char>, es: Seq<ExprModel>) -> nat
    decreases es,
{
    if es.len() == 0 {
        0
    } else {
        var_count(x, es[0]) + var_count_all(x, es.subrange(1, es.len() as int))
    }
}

/// A name is yielded once for each time its variable stands in the
/// expression: none is dropped, and none is yielded more often.
pub proof fn law_vars_counted_per_occurrence(e: ExprModel, x: Seq<char>)
    ensures
        vars_of(e).to_multiset().count(x) == var_count(x, e),
    decreases e,
{
    broadcast use vstd::seq_lib::lemma_multiset_commutative;
    broadcast use vstd::multiset::group_multiset_axioms;
    broadcast use vstd::seq_lib::group_to_multiset_ensures;

    match e {
        ExprModel::Var(y) => {
            assert(vars_of(e) =~= Seq::<Seq<char>>::empty().push(y));
        },
        ExprModel::Unary(_, a) => {
            law_vars_counted_per_occurrence(*a, x);
        },
        ExprModel::Binary(a, _, b) => {
            law_vars_counted_per_occurrence(*a, x);
            law_vars_counted_per_occurrence(*b, x);
        },
        ExprModel::Range(a, b) => {
            law_vars_counted_per_occurrence(*a, x);
            law_vars_counted_per_occurrence(*b, x);
        },
        ExprModel::MapExpr(_, a, b) => {
            law_vars_counted_per_occurrence(*a, x);
            law_vars_counted_per_occurrence(*b, x);
        },
        ExprModel::FilterExpr(_, a, b) => {
            law_vars_counted_per_occurrence(*a, x);
            law_vars_counted_per_occurrence(*b, x);
        },
        ExprModel::ScanlExpr(_, a, _, b, c) => {
            law_vars_counted_per_occurrence(*a, x);
            law_vars_counted_per_occurrence(*b, x);
            law_vars_counted_per_occurrence(*c, x);
        },
        ExprModel::FoldlExpr(_, a, _, b, c) => {
            law_vars_counted_per_occurrence(*a, x);
            law_vars_counted_per_occurrence(*b, x);
            law_vars_counted_per_occurrence(*c, x);
        },
        ExprModel::Array(es) => {
            lemma_vars_all_counted(es, x);
        },
        _ => {
            assert(vars_of(e) =~= Seq::<Seq<char>>::empty());
        },
    }
}

proof fn lemma_vars_all_counted(es: Seq<ExprModel>, x: Seq<char>)
    ensures
        vars_of_all(es).to_multiset().count(x) == var_count_all(x, es),
    decreases es,
{
    broadcast use vstd::seq_lib::lemma_multiset_commutative;
    broadcast use vstd::multiset::group_multiset_axioms;
    broadcast use vstd::seq_lib::group_to_multiset_ensures;

    if es.len() == 0 {
        assert(vars_of_all(es) =~= Seq::<Seq<char>>::empty());
    } else {
        law_vars_counted_per_occurrence(es[0], x);
        lemma_vars_all_counted(es.subrange(1, es.len() as int), x);
    }
}

/// A name is in a concatenation exactly when it is in one of its parts.
proof fn lemma_contains_concat(a: Seq<Seq<char>>, b: Seq<Seq<char>>, x: Seq<char>)
    ensures
        (a + b).contains(x) <==> (a.contains(x) || b.contains(x)),
{
    if a.contains(x) {
        let i = choose|i: int| 0 <= i < a.len() && a[i] == x;
        assert((a + b)[i] == x);
    }
    if b.contains(x) {
        let i = choose|i: int| 0 <= i < b.len() && b[i] == x;
        assert((a + b)[a.len() + i] == x);
    }
    if (a + b).contains(x) {
        let i = choose|i: int| 0 <= i < (a + b).len() && (a + b)[i] == x;
        if i < a.len() {
            assert(a[i] == x);
        } else {
            assert(b[i - a.len()] == x);
        }
    }
}

/// The names of a sequence extended by one expression.
proof fn lemma_vars_of_all_push(es: Seq<ExprModel>, x: ExprModel)
    ensures
        vars_of_all(es.push(x)) == vars_of_all(es) + vars_of(x),
    decreases es.len(),
{
    if es.len() == 0 {
        assert(es.push(x).subrange(1, 1) =~= Seq::<ExprModel>::empty());
        assert(vars_of_all(Seq::<ExprModel>::empty()) == Seq::<Seq<char>>::empty());
        assert(vars_of_all(es.push(x)) =~= vars_of(x));
        assert(vars_of_all(es) + vars_of(x) =~= vars_of(x));
    } else {
        let t = es.subrange(1, es.len() as int);
        lemma_vars_of_all_push(t, x);
        assert(es.push(x).subrange(1, (es.len() + 1) as int) =~= t.push(x));
        assert(vars_of_all(es.push(x)) =~= vars_of_all(es) + vars_of(x));
    }
}

/// The variable names of the expressions of `v`, one after the other (see
/// `vars_of_all`).
fn extract_vars_all(v: &Vec<Expr>) -> (r: Vec<String>)
    ensures
        names_of(r@) == vars_of_all(model_seq(v@)),
    decreases v,
{
    let mut r: Vec<String> = Vec::new();
    let mut i: usize = 0;
    assert(model_seq(v@.subrange(0, 0)) =~= Seq::<ExprModel>::empty()) by {
        assert(v@.subrange(0, 0) =~= Seq::<Expr>::empty());
    }
    assert(names_of(r@) =~= Seq::<Seq<char>>::empty());
    while i < v.len()
        invariant
            i <= v.len(),
            names_of(r@) == vars_of_all(model_seq(v@.subrange(0, i as int))),
        decreases v.len() - i,
    {
        proof {
            assert(decreases_to!(v => v@[i as int]));
        }
        let w = v[i].extract_vars();
        proof {
            lemma_model_seq_push(v@.subrange(0, i as int), v@[i as int]);
            assert(v@.subrange(0, i as int).push(v@[i as int]) =~= v@.subrange(0, i + 1));
            lemma_vars_of_all_push(model_seq(v@.subrange(0, i as int)), v@[i as int]@);
        }
        append_names(&mut r, w);
        i = i + 1;
    }
    assert(v@.subrange(0, v.len() as int) =~= v@);
    r
}

fn append_names(v: &mut Vec<String>, w: Vec<String>)
    ensures
        names_of(final(v)@) == names_of(old(v)@) + names_of(w@),
{
    let ghost w0 = w@;
    let mut w = w;
    v.append(&mut w);
    assert(names_of(v@) =~= names_of(old(v)@) + names_of(w0));
}

impl Expr {
    /// Extracts the variable names from an expression (see `vars_of`).
    pub fn extract_vars(&self) -> (r: Vec<String>)
        ensures
            names_of(r@) == vars_of(self@),
        decreases self,
    {
        let r = match self {
            Expr::Var(name) => {
                let mut v = Vec::new();
                v.push(name.clone());
                v
            },
            Expr::Unary(_, inner) => inner.extract_vars(),
            Expr::Binary(l, _, r) => {
                let mut v = l.extract_vars();
                append_names(&mut v, r.extract_vars());
                v
            },
            Expr::MapExpr(_, a, b) | Expr::FilterExpr(_, a, b) => {
                let mut v = a.extract_vars();
                append_names(&mut v, b.extract_vars());
                v
            },
            Expr::ScanlExpr(_, a, _, b, c) | Expr::FoldlExpr(_, a, _, b, c) => {
                let mut v = a.extract_vars();
                append_names(&mut v, b.extract_vars());
                append_names(&mut v, c.extract_vars());
                v
            },
            Expr::Range(a, b) => {
                let mut v = a.extract_vars();
                append_names(&mut v, b.extract_vars());
                v
            },
            Expr::Array(es) => extract_vars_all(es),
            _ => Vec::new(),
        };
        proof {
            if let Expr::Var(name) = self {
                assert(names_of(r@) =~= seq![name@]);
            }
            if !(self is Var || self is Unary || self is Binary || self is MapExpr
                || self is FilterExpr || self is ScanlExpr || self is FoldlExpr || self is Range
                || self is Array) {
                assert(names_of(r@) =~= Seq::<Seq<char>>::empty());
            }
        }
        r
    }
}

} // verus!
