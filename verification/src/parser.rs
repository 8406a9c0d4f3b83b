//! The expression parser: a recursive-descent parser over tokens.
//!
//! Its grammar, from the loosest binding to the tightest:
//! `or`, `and`, `== !=`, `< <= > >=`, `+ -`, `* / %`, the prefix operators
//! `! -`, and the primary expressions: literals, variables, parenthesised
//! expressions, arrays `[a, b, ...]`, ranges `[a .. b]`, and the comprehensions
//! `map x in arr { body }`, `filter x in arr { body }`,
//! `scanl acc, init, x in arr { body }` and `foldl acc, init, x in arr { body }`.
//! The array of a comprehension runs to the first `{` outside brackets, its body
//! to the matching `}`, and the initial value of a scan or fold to the first `,`
//! outside brackets; each is parsed as an expression of its own, whose trailing
//! tokens are not read.

use crate::expr::{model_of, BinaryOp, Expr, ExprModel, UnaryOp};
use crate::token::{token_kind, TokenType};
use vstd::prelude::*;

verus! {

// ---------------------------------------------------------------------------
// The grammar
// ---------------------------------------------------------------------------

/// `t` starts with a token of the same kind as `k`.
pub open spec fn starts(t: Seq<TokenType>, k: TokenType) -> bool {
    t.len() > 0 && token_kind(t[0]) == token_kind(k)
}

pub open spec fn bin(a: ExprModel, op: BinaryOp, b: ExprModel) -> ExprModel {
    ExprModel::Binary(Box::new(a), op, Box::new(b))
}

/// The binary operator that the token `k` stands for at precedence level `lvl`
/// (0: `or`, 1: `and`, 2: equality, 3: comparison, 4: addition,
/// 5: multiplication).
pub open spec fn op_at(lvl: int, k: TokenType) -> Option<BinaryOp> {
    match k {
        TokenType::Or => if lvl == 0 {
            Some(BinaryOp::Or)
        } else {
            None
        },
        TokenType::And => if lvl == 1 {
            Some(BinaryOp::And)
        } else {
            None
        },
        TokenType::EqualEqual => if lvl == 2 {
            Some(BinaryOp::EqualEqual)
        } else {
            None
        },
        TokenType::BangEqual => if lvl == 2 {
            Some(BinaryOp::BangEqual)
        } else {
            None
        },
        TokenType::Less => if lvl == 3 {
            Some(BinaryOp::Less)
        } else {
            None
        },
        TokenType::LessEqual => if lvl == 3 {
            Some(BinaryOp::LessEqual)
        } else {
            None
        },
        TokenType::Greater => if lvl == 3 {
            Some(BinaryOp::Greater)
        } else {
            None
        },
        TokenType::GreaterEqual => if lvl == 3 {
            Some(BinaryOp::GreaterEqual)
        } else {
            None
        },
        TokenType::Plus => if lvl == 4 {
            Some(BinaryOp::Plus)
        } else {
            None
        },
        TokenType::Minus => if lvl == 4 {
            Some(BinaryOp::Minus)
        } else {
            None
        },
        TokenType::Star => if lvl == 5 {
            Some(BinaryOp::Star)
        } else {
            None
        },
        TokenType::Slash => if lvl == 5 {
            Some(BinaryOp::Slash)
        } else {
            None
        },
        TokenType::Percent => if lvl == 5 {
            Some(BinaryOp::Modulo)
        } else {
            None
        },
        _ => None,
    }
}

/// The prefix operator a token stands for.
pub open spec fn unary_op(k: TokenType) -> Option<UnaryOp> {
    match k {
        TokenType::Bang => Some(UnaryOp::Bang),
        TokenType::Minus => Some(UnaryOp::Minus),
        _ => None,
    }
}

/// The delimited scans: 0 runs to a `{`, 1 to a `}`, 2 to a `,`, each at depth 0.
pub open spec fn scan_stops(k: int, t: TokenType) -> bool {
    match t {
        TokenType::LeftBrace => k == 0,
        TokenType::RightBrace => k == 1,
        TokenType::Comma => k == 2,
        _ => false,
    }
}

/// Tokens that open a nesting level for scan `k`.
pub open spec fn scan_opens(k: int, t: TokenType) -> bool {
    match t {
        TokenType::LeftParen => k == 0 || k == 2,
        TokenType::LeftBracket => k == 0 || k == 2,
        TokenType::LeftBrace => k == 1 || k == 2,
        _ => false,
    }
}

/// Tokens that close a nesting level for scan `k`.
pub open spec fn scan_closes(k: int, t: TokenType) -> bool {
    match t {
        TokenType::RightParen => k == 0 || k == 2,
        TokenType::RightBracket => k == 0 || k == 2,
        TokenType::RightBrace => k == 1 || k == 2,
        _ => false,
    }
}

/// Where scan `k` started at index `j` with depth `d` stops: at the first
/// stopping token met at depth 0, or at the end.
pub open spec fn scan_end(k: int, t: Seq<TokenType>, j: int, d: int) -> int
    decreases t.len() - j,
{
    if j < 0 || j >= t.len() {
        j
    } else if scan_stops(k, t[j]) && d == 0 {
        j
    } else {
        scan_end(
            k,
            t,
            j + 1,
            if scan_opens(k, t[j]) {
                d + 1
            } else if scan_closes(k, t[j]) {
                d - 1
            } else {
                d
            },
        )
    }
}

pub open spec fn p_expr(t: Seq<TokenType>) -> Option<(ExprModel, Seq<TokenType>)>
    decreases t.len(), 41int,
{
    p_level(0, t)
}

/// An expression at precedence level `lvl`: an operand followed by any number
/// of operators of that level with their operands, grouped to the left.
pub open spec fn p_level(lvl: int, t: Seq<TokenType>) -> Option<(ExprModel, Seq<TokenType>)>
    decreases t.len(), 40 - 2 * lvl,
{
    if !(0 <= lvl <= 5) {
        None
    } else {
        match (if lvl == 5 {
            p_unary(t)
        } else {
            p_level(lvl + 1, t)
        }) {
            None => None,
            Some((e, r)) => if r.len() <= t.len() {
                p_rest(lvl, e, r)
            } else {
                None
            },
        }
    }
}

/// The operators of level `lvl` that follow the left operand `e`.
pub open spec fn p_rest(lvl: int, e: ExprModel, t: Seq<TokenType>) -> Option<
    (ExprModel, Seq<TokenType>),
>
    decreases t.len(), 39 - 2 * lvl,
{
    if !(0 <= lvl <= 5) {
        None
    } else if t.len() > 0 && op_at(lvl, t[0]) is Some {
        let op = op_at(lvl, t[0]).unwrap();
        match (if lvl == 5 {
            p_unary(t.skip(1))
        } else {
            p_level(lvl + 1, t.skip(1))
        }) {
            None => None,
            Some((b, r)) => if r.len() < t.len() {
                p_rest(lvl, bin(e, op, b), r)
            } else {
                None
            },
        }
    } else {
        Some((e, t))
    }
}

pub open spec fn p_unary(t: Seq<TokenType>) -> Option<(ExprModel, Seq<TokenType>)>
    decreases t.len(), 27int,
{
    if t.len() > 0 && unary_op(t[0]) is Some {
        match p_unary(t.skip(1)) {
            None => None,
            Some((e, r)) => Some((ExprModel::Unary(unary_op(t[0]).unwrap(), Box::new(e)), r)),
        }
    } else {
        p_primary(t)
    }
}

pub open spec fn p_primary(t: Seq<TokenType>) -> Option<(ExprModel, Seq<TokenType>)>
    decreases t.len(), 26int,
{
    if t.len() == 0 {
        None
    } else {
        let u = t.skip(1);
        match t[0] {
            TokenType::Number(n) => Some((ExprModel::Number(n@), u)),
            TokenType::StringLit(s) => Some((ExprModel::Str(s@), u)),
            TokenType::True => Some((ExprModel::Bool(true), u)),
            TokenType::False => Some((ExprModel::Bool(false), u)),
            TokenType::Nil => Some((ExprModel::Nil, u)),
            TokenType::Identifier(x) => Some((ExprModel::Var(x@), u)),
            TokenType::LeftParen => match p_expr(u) {
                None => None,
                Some((e, r)) => if starts(r, TokenType::RightParen) {
                    Some((e, r.skip(1)))
                } else {
                    None
                },
            },
            TokenType::LeftBracket => p_array_or_range(u),
            TokenType::MapKeyword => p_map(u),
            TokenType::Filter => p_filter(u),
            TokenType::Scanl => p_scanl(u),
            TokenType::Foldl => p_foldl(u),
            _ => None,
        }
    }
}

/// What follows `map`.
pub open spec fn p_map(t: Seq<TokenType>) -> Option<(ExprModel, Seq<TokenType>)>
    decreases t.len(), 50int,
{
    match p_binder(t) {
        None => None,
        Some((x, a, b, r)) => Some((ExprModel::MapExpr(x, Box::new(a), Box::new(b)), r)),
    }
}

/// What follows `filter`.
pub open spec fn p_filter(t: Seq<TokenType>) -> Option<(ExprModel, Seq<TokenType>)>
    decreases t.len(), 50int,
{
    match p_binder(t) {
        None => None,
        Some((x, a, b, r)) => Some((ExprModel::FilterExpr(x, Box::new(a), Box::new(b)), r)),
    }
}

/// What follows `scanl`.
pub open spec fn p_scanl(t: Seq<TokenType>) -> Option<(ExprModel, Seq<TokenType>)>
    decreases t.len(), 50int,
{
    match p_accumulate(t) {
        None => None,
        Some((acc, init, x, a, b, r)) => Some(
            (ExprModel::ScanlExpr(acc, Box::new(init), x, Box::new(a), Box::new(b)), r),
        ),
    }
}

/// What follows `foldl`.
pub open spec fn p_foldl(t: Seq<TokenType>) -> Option<(ExprModel, Seq<TokenType>)>
    decreases t.len(), 50int,
{
    match p_accumulate(t) {
        None => None,
        Some((acc, init, x, a, b, r)) => Some(
            (ExprModel::FoldlExpr(acc, Box::new(init), x, Box::new(a), Box::new(b)), r),
        ),
    }
}

/// What follows a `[`: `]`, or `first .. last ]`, or `first, ..., ]` with an
/// optional trailing comma.
pub open spec fn p_array_or_range(t: Seq<TokenType>) -> Option<(ExprModel, Seq<TokenType>)>
    decreases t.len(), 50int,
{
    if starts(t, TokenType::RightBracket) {
        Some((ExprModel::Array(Seq::empty()), t.skip(1)))
    } else {
        match p_expr(t) {
            None => None,
            Some((first, r)) => if r.len() <= t.len() {
                if starts(r, TokenType::DotDot) {
                    match p_expr(r.skip(1)) {
                        None => None,
                        Some((last, r2)) => if starts(r2, TokenType::RightBracket) {
                            Some((ExprModel::Range(Box::new(first), Box::new(last)), r2.skip(1)))
                        } else {
                            None
                        },
                    }
                } else {
                    close_array(p_elements(seq![first], r))
                }
            } else {
                None
            },
        }
    }
}

/// The array whose elements were read, where a `]` follows them.
pub open spec fn close_array(res: Option<(Seq<ExprModel>, Seq<TokenType>)>) -> Option<
    (ExprModel, Seq<TokenType>),
> {
    match res {
        None => None,
        Some((elems, r)) => if starts(r, TokenType::RightBracket) {
            Some((ExprModel::Array(elems), r.skip(1)))
        } else {
            None
        },
    }
}

/// The elements `, e` that follow the elements `acc` of an array.
pub open spec fn p_elements(acc: Seq<ExprModel>, t: Seq<TokenType>) -> Option<
    (Seq<ExprModel>, Seq<TokenType>),
>
    decreases t.len(), 49int,
{
    if starts(t, TokenType::Comma) {
        let u = t.skip(1);
        if starts(u, TokenType::RightBracket) {
            Some((acc, u))
        } else {
            match p_expr(u) {
                None => None,
                Some((e, r)) => if r.len() < t.len() {
                    p_elements(acc.push(e), r)
                } else {
                    None
                },
            }
        }
    } else {
        Some((acc, t))
    }
}

/// `x in arr { body }`: the name, the array, the body and what follows.
pub open spec fn p_binder(t: Seq<TokenType>) -> Option<
    (Seq<char>, ExprModel, ExprModel, Seq<TokenType>),
>
    decreases t.len(), 48int,
{
    if t.len() >= 2 && t[0] is Identifier && starts(t.skip(1), TokenType::In) {
        let x = match t[0] {
            TokenType::Identifier(s) => s@,
            _ => Seq::empty(),
        };
        match p_delimited(0, t.skip(2)) {
            None => None,
            Some((a, r)) => if r.len() < t.len() && starts(r, TokenType::LeftBrace) {
                match p_delimited(1, r.skip(1)) {
                    None => None,
                    Some((b, r2)) => if starts(r2, TokenType::RightBrace) {
                        Some((x, a, b, r2.skip(1)))
                    } else {
                        None
                    },
                }
            } else {
                None
            },
        }
    } else {
        None
    }
}

/// `acc, init, x in arr { body }`.
pub open spec fn p_accumulate(t: Seq<TokenType>) -> Option<
    (Seq<char>, ExprModel, Seq<char>, ExprModel, ExprModel, Seq<TokenType>),
>
    decreases t.len(), 49int,
{
    if t.len() >= 2 && t[0] is Identifier && starts(t.skip(1), TokenType::Comma) {
        let acc = match t[0] {
            TokenType::Identifier(s) => s@,
            _ => Seq::empty(),
        };
        match p_delimited(2, t.skip(2)) {
            None => None,
            Some((init, r)) => if r.len() < t.len() && starts(r, TokenType::Comma) {
                match p_binder(r.skip(1)) {
                    None => None,
                    Some((x, a, b, r2)) => Some((acc, init, x, a, b, r2)),
                }
            } else {
                None
            },
        }
    } else {
        None
    }
}

/// The expression that starts the tokens up to where scan `k` stops, and the
/// tokens from there on.
pub open spec fn p_delimited(k: int, t: Seq<TokenType>) -> Option<(ExprModel, Seq<TokenType>)>
    decreases t.len(), 45int,
{
    let e = scan_end(k, t, 0, 0);
    if 0 <= e <= t.len() {
        match p_expr(t.take(e)) {
            None => None,
            Some((x, _)) => Some((x, t.skip(e))),
        }
    } else {
        None
    }
}

/// The result of a parsing method agrees with its grammar rule.
pub open spec fn agrees(
    r: Option<Expr>,
    rule: Option<(ExprModel, Seq<TokenType>)>,
    after: Seq<TokenType>,
) -> bool {
    match rule {
        None => r is None,
        Some((e, rest)) => r is Some && r.unwrap()@ == e && after == rest,
    }
}

// ---------------------------------------------------------------------------
// The parser
// ---------------------------------------------------------------------------

pub struct Parser {
    tokens: Vec<TokenType>,
    pos: usize,
}

/// Copies of the tokens `v[start..end]`.
pub fn copy_tokens(v: &Vec<TokenType>, start: usize, end: usize) -> (r: Vec<TokenType>)
    requires
        start <= end <= v.len(),
    ensures
        r@ == v@.subrange(start as int, end as int),
{
    let mut r: Vec<TokenType> = Vec::new();
    let mut k = start;
    while k < end
        invariant
            start <= k <= end <= v.len(),
            r@ == v@.subrange(start as int, k as int),
        decreases end - k,
    {
        r.push(v[k].duplicate());
        assert(r@ =~= v@.subrange(start as int, k + 1));
        k = k + 1;
    }
    r
}

impl Parser {
    /// The tokens that are left to read.
    pub closed spec fn remaining(&self) -> Seq<TokenType> {
        self.tokens@.skip(self.pos as int)
    }

    pub closed spec fn wf(&self) -> bool {
        self.pos <= self.tokens.len()
    }

    /// All the tokens, read or not.
    pub closed spec fn all_tokens(&self) -> Seq<TokenType> {
        self.tokens@
    }

    /// How many tokens have been read.
    pub closed spec fn position(&self) -> nat {
        self.pos as nat
    }

    /// A parser at the start of `tokens`.
    pub fn new(tokens: Vec<TokenType>) -> (p: Self)
        ensures
            p.wf(),
            p.remaining() == tokens@,
    {
        let p = Parser { tokens, pos: 0 };
        assert(p.tokens@.skip(0) =~= p.tokens@);
        p
    }

    fn peek(&self) -> (r: Option<&TokenType>)
        requires
            self.wf(),
        ensures
            self.remaining().len() == 0 ==> r is None,
            self.remaining().len() > 0 ==> r == Some(&self.remaining()[0]),
    {
        if self.pos < self.tokens.len() {
            Some(&self.tokens[self.pos])
        } else {
            None
        }
    }

    fn advance(&mut self) -> (r: Option<TokenType>)
        requires
            old(self).wf(),
        ensures
            final(self).wf(),
            final(self).tokens@ == old(self).tokens@,
            old(self).remaining().len() == 0 ==> r is None && final(self).pos == old(self).pos,
            old(self).remaining().len() > 0 ==> r == Some(old(self).remaining()[0])
                && final(self).pos == old(self).pos + 1,
            final(self).remaining() == if old(self).remaining().len() > 0 {
                old(self).remaining().skip(1)
            } else {
                old(self).remaining()
            },
    {
        if self.pos < self.tokens.len() {
            assert(self.tokens@.skip(self.pos + 1) =~= self.tokens@.skip(self.pos as int).skip(1));
            let token = self.tokens[self.pos].duplicate();
            self.pos += 1;
            Some(token)
        } else {
            None
        }
    }

    fn check(&self, expected: &TokenType) -> (r: bool)
        requires
            self.wf(),
        ensures
            r == starts(self.remaining(), *expected),
    {
        if self.pos < self.tokens.len() {
            self.tokens[self.pos].kind() == expected.kind()
        } else {
            false
        }
    }

    /// Parses one expression from the tokens that are left; the tokens after it
    /// stay unread.
    pub fn parse_expr(&mut self) -> (r: Option<Expr>)
        requires
            old(self).wf(),
        ensures
            final(self).wf(),
            final(self).all_tokens() == old(self).all_tokens(),
            old(self).position() <= final(self).position(),
            agrees(r, p_expr(old(self).remaining()), final(self).remaining()),
        decreases old(self).remaining().len(), 42int,
    {
        self.parse_or()
    }

    /// Reads the operators of level `lvl` that follow `left`, as `p_rest` does.
    fn parse_rest(&mut self, lvl: u8, left: Expr) -> (r: Option<Expr>)
        requires
            old(self).wf(),
            lvl <= 5,
        ensures
            final(self).wf(),
            final(self).tokens@ == old(self).tokens@,
            old(self).pos <= final(self).pos,
            agrees(r, p_rest(lvl as int, left@, old(self).remaining()), final(self).remaining()),
        decreases old(self).remaining().len(), 39 - 4 * lvl,
    {
        let ghost t0 = self.remaining();
        let ghost pos0 = self.pos;
        let mut expr = left;
        loop
            invariant
                self.wf(),
                self.tokens@ == old(self).tokens@,
                pos0 == old(self).pos,
                t0 == old(self).remaining(),
                pos0 <= self.pos,
                lvl <= 5,
                p_rest(lvl as int, left@, t0) == p_rest(lvl as int, expr@, self.remaining()),
            decreases self.tokens.len() - self.pos,
        {
            let op = match self.peek() {
                None => None,
                Some(tok) => binary_op_at(lvl, tok),
            };
            match op {
                None => {
                    return Some(expr);
                },
                Some(op) => {
                    let ghost t = self.remaining();
                    self.advance();
                    assert(self.remaining() == t.skip(1));
                    let right = if lvl == 5 {
                        self.parse_unary()
                    } else if lvl == 4 {
                        self.parse_multiplication()
                    } else if lvl == 3 {
                        self.parse_addition()
                    } else if lvl == 2 {
                        self.parse_comparison()
                    } else if lvl == 1 {
                        self.parse_equality()
                    } else {
                        self.parse_and()
                    };
                    match right {
                        None => {
                            return None;
                        },
                        Some(right) => {
                            let ghost e0 = expr@;
                            expr = Expr::Binary(Box::new(expr), op, Box::new(right));
                            assert(expr@ == bin(e0, op, right@));
                        },
                    }
                },
            }
        }
    }

    /// Parses an operand of level `lvl` and the operators of that level after it.
    fn parse_level(&mut self, lvl: u8) -> (r: Option<Expr>)
        requires
            old(self).wf(),
            lvl <= 5,
        ensures
            final(self).wf(),
            final(self).tokens@ == old(self).tokens@,
            old(self).pos <= final(self).pos,
            agrees(r, p_level(lvl as int, old(self).remaining()), final(self).remaining()),
        decreases old(self).remaining().len(), 40 - 4 * lvl,
    {
        let operand = if lvl == 5 {
            self.parse_unary()
        } else if lvl == 4 {
            self.parse_multiplication()
        } else if lvl == 3 {
            self.parse_addition()
        } else if lvl == 2 {
            self.parse_comparison()
        } else if lvl == 1 {
            self.parse_equality()
        } else {
            self.parse_and()
        };
        match operand {
            None => None,
            Some(e) => self.parse_rest(lvl, e),
        }
    }

    fn parse_or(&mut self) -> (r: Option<Expr>)
        requires
            old(self).wf(),
        ensures
            final(self).wf(),
            final(self).tokens@ == old(self).tokens@,
            old(self).pos <= final(self).pos,
            agrees(r, p_level(0, old(self).remaining()), final(self).remaining()),
        decreases old(self).remaining().len(), 41int,
    {
        self.parse_level(0)
    }

    fn parse_and(&mut self) -> (r: Option<Expr>)
        requires
            old(self).wf(),
        ensures
            final(self).wf(),
            final(self).tokens@ == old(self).tokens@,
            old(self).pos <= final(self).pos,
            agrees(r, p_level(1, old(self).remaining()), final(self).remaining()),
        decreases old(self).remaining().len(), 37int,
    {
        self.parse_level(1)
    }

    fn parse_equality(&mut self) -> (r: Option<Expr>)
        requires
            old(self).wf(),
        ensures
            final(self).wf(),
            final(self).tokens@ == old(self).tokens@,
            old(self).pos <= final(self).pos,
            agrees(r, p_level(2, old(self).remaining()), final(self).remaining()),
        decreases old(self).remaining().len(), 33int,
    {
        self.parse_level(2)
    }

    fn parse_comparison(&mut self) -> (r: Option<Expr>)
        requires
            old(self).wf(),
        ensures
            final(self).wf(),
            final(self).tokens@ == old(self).tokens@,
            old(self).pos <= final(self).pos,
            agrees(r, p_level(3, old(self).remaining()), final(self).remaining()),
        decreases old(self).remaining().len(), 29int,
    {
        self.parse_level(3)
    }

    fn parse_addition(&mut self) -> (r: Option<Expr>)
        requires
            old(self).wf(),
        ensures
            final(self).wf(),
            final(self).tokens@ == old(self).tokens@,
            old(self).pos <= final(self).pos,
            agrees(r, p_level(4, old(self).remaining()), final(self).remaining()),
        decreases old(self).remaining().len(), 25int,
    {
        self.parse_level(4)
    }

    fn parse_multiplication(&mut self) -> (r: Option<Expr>)
        requires
            old(self).wf(),
        ensures
            final(self).wf(),
            final(self).tokens@ == old(self).tokens@,
            old(self).pos <= final(self).pos,
            agrees(r, p_level(5, old(self).remaining()), final(self).remaining()),
        decreases old(self).remaining().len(), 21int,
    {
        self.parse_level(5)
    }

    fn parse_unary(&mut self) -> (r: Option<Expr>)
        requires
            old(self).wf(),
        ensures
            final(self).wf(),
            final(self).tokens@ == old(self).tokens@,
            old(self).pos <= final(self).pos,
            agrees(r, p_unary(old(self).remaining()), final(self).remaining()),
        decreases old(self).remaining().len(), 15int,
    {
        let op = match self.peek() {
            Some(TokenType::Bang) => Some(UnaryOp::Bang),
            Some(TokenType::Minus) => Some(UnaryOp::Minus),
            _ => None,
        };
        match op {
            Some(op) => {
                self.advance();
                match self.parse_unary() {
                    None => None,
                    Some(e) => Some(Expr::Unary(op, Box::new(e))),
                }
            },
            None => self.parse_primary(),
        }
    }

    fn parse_primary(&mut self) -> (r: Option<Expr>)
        requires
            old(self).wf(),
        ensures
            final(self).wf(),
            final(self).tokens@ == old(self).tokens@,
            old(self).pos <= final(self).pos,
            agrees(r, p_primary(old(self).remaining()), final(self).remaining()),
        decreases old(self).remaining().len(), 14int,
    {
        let first = match self.advance() {
            None => {
                return None;
            },
            Some(tok) => tok,
        };
        match first {
            TokenType::Number(n) => Some(Expr::Number(n)),
            TokenType::StringLit(s) => Some(Expr::String(s)),
            TokenType::True => Some(Expr::Bool(true)),
            TokenType::False => Some(Expr::Bool(false)),
            TokenType::Nil => Some(Expr::Nil),
            TokenType::Identifier(name) => Some(Expr::Var(name)),
            TokenType::LeftParen => {
                let expr = match self.parse_expr() {
                    None => {
                        return None;
                    },
                    Some(e) => e,
                };
                if !self.check(&TokenType::RightParen) {
                    return None;
                }
                self.advance();
                Some(expr)
            },
            TokenType::LeftBracket => self.parse_array_or_range(),
            TokenType::MapKeyword => self.parse_map(),
            TokenType::Filter => self.parse_filter(),
            TokenType::Scanl => self.parse_scanl(),
            TokenType::Foldl => self.parse_foldl(),
            _ => None,
        }
    }

    fn parse_array_or_range(&mut self) -> (r: Option<Expr>)
        requires
            old(self).wf(),
        ensures
            final(self).wf(),
            final(self).tokens@ == old(self).tokens@,
            old(self).pos <= final(self).pos,
            agrees(r, p_array_or_range(old(self).remaining()), final(self).remaining()),
        decreases old(self).remaining().len(), 50int,
    {
        if self.check(&TokenType::RightBracket) {
            self.advance();
            let empty: Vec<Expr> = Vec::new();
            proof {
                crate::expr::lemma_model_seq_index(empty@);
                assert(crate::expr::model_seq(empty@) =~= Seq::<ExprModel>::empty());
            }
            return Some(Expr::Array(empty));
        }
        let first = match self.parse_expr() {
            None => {
                return None;
            },
            Some(e) => e,
        };
        if self.check(&TokenType::DotDot) {
            self.advance();
            let end = match self.parse_expr() {
                None => {
                    return None;
                },
                Some(e) => e,
            };
            if !self.check(&TokenType::RightBracket) {
                return None;
            }
            self.advance();
            return Some(Expr::Range(Box::new(first), Box::new(end)));
        }
        let ghost first_model = first@;
        let mut elements: Vec<Expr> = Vec::new();
        elements.push(first);
        proof {
            crate::expr::lemma_model_seq_index(elements@);
            assert(crate::expr::model_seq(elements@) =~= seq![first_model]);
        }
        let ghost t1 = self.remaining();
        assert(p_array_or_range(old(self).remaining()) == close_array(
            p_elements(seq![first_model], t1),
        ));
        loop
            invariant
                self.wf(),
                self.tokens@ == old(self).tokens@,
                old(self).pos <= self.pos,
                p_array_or_range(old(self).remaining()) == close_array(
                    p_elements(crate::expr::model_seq(elements@), self.remaining()),
                ),
            decreases self.tokens.len() - self.pos,
        {
            if !self.check(&TokenType::Comma) {
                if !self.check(&TokenType::RightBracket) {
                    return None;
                }
                self.advance();
                return Some(Expr::Array(elements));
            }
            let ghost t = self.remaining();
            self.advance();
            if self.check(&TokenType::RightBracket) {
                assert(p_elements(crate::expr::model_seq(elements@), t) == Some(
                    (crate::expr::model_seq(elements@), t.skip(1)),
                ));
                self.advance();
                return Some(Expr::Array(elements));
            }
            let e = match self.parse_expr() {
                None => {
                    return None;
                },
                Some(e) => e,
            };
            proof {
                crate::expr::lemma_model_seq_push(elements@, e);
            }
            elements.push(e);
        }
    }

    fn parse_map(&mut self) -> (r: Option<Expr>)
        requires
            old(self).wf(),
        ensures
            final(self).wf(),
            final(self).tokens@ == old(self).tokens@,
            old(self).pos <= final(self).pos,
            agrees(r, p_map(old(self).remaining()), final(self).remaining()),
        decreases old(self).remaining().len(), 50int,
    {
        match self.parse_binder() {
            None => None,
            Some((var, arr, body)) => Some(Expr::MapExpr(var, Box::new(arr), Box::new(body))),
        }
    }

    fn parse_filter(&mut self) -> (r: Option<Expr>)
        requires
            old(self).wf(),
        ensures
            final(self).wf(),
            final(self).tokens@ == old(self).tokens@,
            old(self).pos <= final(self).pos,
            agrees(r, p_filter(old(self).remaining()), final(self).remaining()),
        decreases old(self).remaining().len(), 50int,
    {
        match self.parse_binder() {
            None => None,
            Some((var, arr, body)) => Some(Expr::FilterExpr(var, Box::new(arr), Box::new(body))),
        }
    }

    fn parse_scanl(&mut self) -> (r: Option<Expr>)
        requires
            old(self).wf(),
        ensures
            final(self).wf(),
            final(self).tokens@ == old(self).tokens@,
            old(self).pos <= final(self).pos,
            agrees(r, p_scanl(old(self).remaining()), final(self).remaining()),
        decreases old(self).remaining().len(), 50int,
    {
        match self.parse_accumulate() {
            None => None,
            Some((acc, init, var, arr, body)) => Some(
                Expr::ScanlExpr(acc, Box::new(init), var, Box::new(arr), Box::new(body)),
            ),
        }
    }

    fn parse_foldl(&mut self) -> (r: Option<Expr>)
        requires
            old(self).wf(),
        ensures
            final(self).wf(),
            final(self).tokens@ == old(self).tokens@,
            old(self).pos <= final(self).pos,
            agrees(r, p_foldl(old(self).remaining()), final(self).remaining()),
        decreases old(self).remaining().len(), 50int,
    {
        match self.parse_accumulate() {
            None => None,
            Some((acc, init, var, arr, body)) => Some(
                Expr::FoldlExpr(acc, Box::new(init), var, Box::new(arr), Box::new(body)),
            ),
        }
    }

    /// Reads `x in arr { body }`.
    fn parse_binder(&mut self) -> (r: Option<(String, Expr, Expr)>)
        requires
            old(self).wf(),
        ensures
            final(self).wf(),
            final(self).tokens@ == old(self).tokens@,
            old(self).pos <= final(self).pos,
            match p_binder(old(self).remaining()) {
                None => r is None,
                Some((x, a, b, rest)) => r matches Some((rx, ra, rb)) && rx@ == x && ra@ == a
                    && rb@ == b && final(self).remaining() == rest,
            },
        decreases old(self).remaining().len(), 48int,
    {
        let ghost t = self.remaining();
        let var = match self.advance() {
            Some(TokenType::Identifier(v)) => v,
            _ => {
                return None;
            },
        };
        if !self.check(&TokenType::In) {
            return None;
        }
        self.advance();
        assert(self.remaining() == t.skip(2)) by {
            assert(t.skip(1).skip(1) =~= t.skip(2));
        }
        let arr = match self.parse_delimited(0) {
            None => {
                return None;
            },
            Some(a) => a,
        };
        if !self.check(&TokenType::LeftBrace) {
            return None;
        }
        self.advance();
        let body = match self.parse_delimited(1) {
            None => {
                return None;
            },
            Some(b) => b,
        };
        if !self.check(&TokenType::RightBrace) {
            return None;
        }
        self.advance();
        Some((var, arr, body))
    }

    /// Reads `acc, init, x in arr { body }`.
    fn parse_accumulate(&mut self) -> (r: Option<(String, Expr, String, Expr, Expr)>)
        requires
            old(self).wf(),
        ensures
            final(self).wf(),
            final(self).tokens@ == old(self).tokens@,
            old(self).pos <= final(self).pos,
            match p_accumulate(old(self).remaining()) {
                None => r is None,
                Some((acc, init, x, a, b, rest)) => r matches Some((racc, rinit, rx, ra, rb))
                    && racc@ == acc && rinit@ == init && rx@ == x && ra@ == a && rb@ == b
                    && final(self).remaining() == rest,
            },
        decreases old(self).remaining().len(), 49int,
    {
        let ghost t = self.remaining();
        let acc = match self.advance() {
            Some(TokenType::Identifier(a)) => a,
            _ => {
                return None;
            },
        };
        if !self.check(&TokenType::Comma) {
            return None;
        }
        self.advance();
        assert(self.remaining() == t.skip(2)) by {
            assert(t.skip(1).skip(1) =~= t.skip(2));
        }
        let init = match self.parse_delimited(2) {
            None => {
                return None;
            },
            Some(e) => e,
        };
        if !self.check(&TokenType::Comma) {
            return None;
        }
        self.advance();
        match self.parse_binder() {
            None => None,
            Some((var, arr, body)) => Some((acc, init, var, arr, body)),
        }
    }

    /// Reads the tokens up to where scan `k` stops and parses an expression from
    /// them; reading goes on after them.
    fn parse_delimited(&mut self, k: u8) -> (r: Option<Expr>)
        requires
            old(self).wf(),
            k <= 2,
        ensures
            final(self).wf(),
            final(self).tokens@ == old(self).tokens@,
            old(self).pos <= final(self).pos,
            agrees(r, p_delimited(k as int, old(self).remaining()), final(self).remaining()),
        decreases old(self).remaining().len(), 45int,
    {
        let ghost t0 = self.remaining();
        let start = self.pos;
        let mut opens: usize = 0;
        let mut closes: usize = 0;
        while self.pos < self.tokens.len() && !(scan_stops_at(k, &self.tokens[self.pos]) && opens
            == closes)
            invariant
                self.wf(),
                self.tokens@ == old(self).tokens@,
                start == old(self).pos,
                t0 == old(self).remaining(),
                start <= self.pos,
                opens + closes <= self.pos - start,
                k <= 2,
                scan_end(k as int, t0, 0, 0) == scan_end(
                    k as int,
                    t0,
                    self.pos - start,
                    opens - closes,
                ),
            decreases self.tokens.len() - self.pos,
        {
            assert(t0[self.pos - start] == self.tokens@[self.pos as int]);
            if scan_opens_at(k, &self.tokens[self.pos]) {
                opens = opens + 1;
            } else if scan_closes_at(k, &self.tokens[self.pos]) {
                closes = closes + 1;
            }
            self.pos = self.pos + 1;
        }
        let end = self.pos;
        proof {
            if end < self.tokens.len() {
                assert(t0[end - start] == self.tokens@[end as int]);
            }
            assert(scan_end(k as int, t0, end - start, opens - closes) == end - start);
            assert(t0.take(end - start) =~= self.tokens@.subrange(start as int, end as int));
            assert(t0.skip(end - start) =~= self.remaining());
        }
        let mut sub = Parser::new(copy_tokens(&self.tokens, start, end));
        sub.parse_expr()
    }

}

/// The binary operator that a token stands for at level `lvl`.
fn binary_op_at(lvl: u8, tok: &TokenType) -> (r: Option<BinaryOp>)
    ensures
        r == op_at(lvl as int, *tok),
{
    match tok {
        TokenType::Or => if lvl == 0 {
            Some(BinaryOp::Or)
        } else {
            None
        },
        TokenType::And => if lvl == 1 {
            Some(BinaryOp::And)
        } else {
            None
        },
        TokenType::EqualEqual => if lvl == 2 {
            Some(BinaryOp::EqualEqual)
        } else {
            None
        },
        TokenType::BangEqual => if lvl == 2 {
            Some(BinaryOp::BangEqual)
        } else {
            None
        },
        TokenType::Less => if lvl == 3 {
            Some(BinaryOp::Less)
        } else {
            None
        },
        TokenType::LessEqual => if lvl == 3 {
            Some(BinaryOp::LessEqual)
        } else {
            None
        },
        TokenType::Greater => if lvl == 3 {
            Some(BinaryOp::Greater)
        } else {
            None
        },
        TokenType::GreaterEqual => if lvl == 3 {
            Some(BinaryOp::GreaterEqual)
        } else {
            None
        },
        TokenType::Plus => if lvl == 4 {
            Some(BinaryOp::Plus)
        } else {
            None
        },
        TokenType::Minus => if lvl == 4 {
            Some(BinaryOp::Minus)
        } else {
            None
        },
        TokenType::Star => if lvl == 5 {
            Some(BinaryOp::Star)
        } else {
            None
        },
        TokenType::Slash => if lvl == 5 {
            Some(BinaryOp::Slash)
        } else {
            None
        },
        TokenType::Percent => if lvl == 5 {
            Some(BinaryOp::Modulo)
        } else {
            None
        },
        _ => None,
    }
}

// ---------------------------------------------------------------------------
// Laws of the operators
// ---------------------------------------------------------------------------

/// The token that spells each binary operator of the surface syntax (`Get`,
/// the indexing of an array, has none).
pub open spec fn op_token(o: BinaryOp) -> Option<TokenType> {
    match o {
        BinaryOp::Or => Some(TokenType::Or),
        BinaryOp::And => Some(TokenType::And),
        BinaryOp::EqualEqual => Some(TokenType::EqualEqual),
        BinaryOp::BangEqual => Some(TokenType::BangEqual),
        BinaryOp::Less => Some(TokenType::Less),
        BinaryOp::LessEqual => Some(TokenType::LessEqual),
        BinaryOp::Greater => Some(TokenType::Greater),
        BinaryOp::GreaterEqual => Some(TokenType::GreaterEqual),
        BinaryOp::Plus => Some(TokenType::Plus),
        BinaryOp::Minus => Some(TokenType::Minus),
        BinaryOp::Star => Some(TokenType::Star),
        BinaryOp::Slash => Some(TokenType::Slash),
        BinaryOp::Modulo => Some(TokenType::Percent),
        BinaryOp::Get => None,
    }
}

/// How tightly each binary operator binds, from 0 (`or`) to 5 (`* / %`).
pub open spec fn op_level(o: BinaryOp) -> int {
    match o {
        BinaryOp::Or => 0,
        BinaryOp::And => 1,
        BinaryOp::EqualEqual | BinaryOp::BangEqual => 2,
        BinaryOp::Less | BinaryOp::LessEqual | BinaryOp::Greater | BinaryOp::GreaterEqual => 3,
        BinaryOp::Plus | BinaryOp::Minus => 4,
        BinaryOp::Star | BinaryOp::Slash | BinaryOp::Modulo => 5,
        BinaryOp::Get => -1,
    }
}

/// A token is read as the operator it spells, and only at that operator's
/// level: at level `lvl` the token `k` gives `o` exactly when `k` spells `o`
/// and `o` binds at `lvl`.
pub proof fn law_token_gives_its_own_operator(lvl: int, k: TokenType, o: BinaryOp)
    ensures
        op_at(lvl, k) == Some(o) <==> (op_token(o) == Some(k) && op_level(o) == lvl),
{
}

/// No two tokens, nor one token at two levels, give the same operator.
pub proof fn law_operators_are_told_apart(l1: int, k1: TokenType, l2: int, k2: TokenType)
    requires
        op_at(l1, k1) is Some,
        op_at(l1, k1) == op_at(l2, k2),
    ensures
        k1 == k2,
        l1 == l2,
{
    let o = op_at(l1, k1).unwrap();
    law_token_gives_its_own_operator(l1, k1, o);
    law_token_gives_its_own_operator(l2, k2, o);
}

/// The tokens `a o b`, with `a` and `b` names.
pub open spec fn simple_binary(a: String, k: TokenType, b: String) -> Seq<TokenType> {
    seq![TokenType::Identifier(a), k, TokenType::Identifier(b)]
}

proof fn lemma_simple_binary_level(lvl: int, a: String, o: BinaryOp, k: TokenType, b: String)
    requires
        0 <= lvl <= 5,
        op_token(o) == Some(k),
    ensures
        p_level(lvl, simple_binary(a, k, b)) == if lvl <= op_level(o) {
            Some((bin(ExprModel::Var(a@), o, ExprModel::Var(b@)), Seq::<TokenType>::empty()))
        } else {
            Some((ExprModel::Var(a@), simple_binary(a, k, b).skip(1)))
        },
    decreases 5 - lvl,
{
    let t = simple_binary(a, k, b);
    let r1 = t.skip(1);
    let r2 = r1.skip(1);
    let empty = Seq::<TokenType>::empty();
    assert(r1 =~= seq![k, TokenType::Identifier(b)]);
    assert(r2 =~= seq![TokenType::Identifier(b)]);
    assert(r2.skip(1) =~= empty);
    law_token_gives_its_own_operator(lvl, k, o);
    assert(unary_op(TokenType::Identifier(a)) is None);
    assert(unary_op(TokenType::Identifier(b)) is None);
    assert(p_primary(t) == Some((ExprModel::Var(a@), r1)));
    assert(p_unary(t) == Some((ExprModel::Var(a@), r1)));
    assert(p_primary(r2) == Some((ExprModel::Var(b@), empty)));
    assert(p_unary(r2) == Some((ExprModel::Var(b@), empty)));
    let whole = bin(ExprModel::Var(a@), o, ExprModel::Var(b@));
    assert(p_rest(lvl, whole, empty) == Some((whole, empty)));
    if lvl < 5 {
        lemma_simple_binary_level(lvl + 1, a, o, k, b);
        if lvl + 1 <= op_level(o) {
            assert(p_rest(lvl, whole, empty) == Some((whole, empty)));
        } else {
            if lvl == op_level(o) {
                lemma_simple_binary_level_operand(lvl + 1, b);
                assert(p_level(lvl + 1, r2) == Some((ExprModel::Var(b@), empty)));
                assert(p_rest(lvl, ExprModel::Var(a@), r1) == Some((whole, empty)));
            } else {
                assert(op_at(lvl, k) is None);
                assert(p_rest(lvl, ExprModel::Var(a@), r1) == Some((ExprModel::Var(a@), r1)));
            }
        }
    } else {
        if lvl == op_level(o) {
            assert(p_rest(lvl, ExprModel::Var(a@), r1) == Some((whole, empty)));
        } else {
            assert(op_at(lvl, k) is None);
            assert(p_rest(lvl, ExprModel::Var(a@), r1) == Some((ExprModel::Var(a@), r1)));
        }
    }
}

/// A lone name parses at every level to itself, with nothing left.
proof fn lemma_simple_binary_level_operand(lvl: int, b: String)
    requires
        0 <= lvl <= 5,
    ensures
        p_level(lvl, seq![TokenType::Identifier(b)]) == Some((ExprModel::Var(b@), Seq::<TokenType>::empty())),
    decreases 5 - lvl,
{
    let t = seq![TokenType::Identifier(b)];
    let empty = Seq::<TokenType>::empty();
    assert(t.skip(1) =~= empty);
    assert(unary_op(TokenType::Identifier(b)) is None);
    assert(p_primary(t) == Some((ExprModel::Var(b@), empty)));
    assert(p_unary(t) == Some((ExprModel::Var(b@), empty)));
    assert(p_rest(lvl, ExprModel::Var(b@), empty) == Some((ExprModel::Var(b@), empty)));
    if lvl < 5 {
        lemma_simple_binary_level_operand(lvl + 1, b);
    }
}

/// The tokens `a o1 b o2 c`, with `a`, `b` and `c` names.
pub open spec fn two_binaries(a: String, k1: TokenType, b: String, k2: TokenType, c: String) -> Seq<TokenType> {
    seq![TokenType::Identifier(a), k1, TokenType::Identifier(b), k2, TokenType::Identifier(c)]
}

/// How `a o1 b o2 c` groups: to the left where `o1` binds at least as
/// tightly as `o2`, else to the right.
pub open spec fn grouped(a: String, o1: BinaryOp, b: String, o2: BinaryOp, c: String) -> ExprModel {
    let (x, y, z) = (ExprModel::Var(a@), ExprModel::Var(b@), ExprModel::Var(c@));
    if op_level(o1) >= op_level(o2) {
        bin(bin(x, o1, y), o2, z)
    } else {
        bin(x, o1, bin(y, o2, z))
    }
}

proof fn lemma_two_binaries_level(
    lvl: int,
    a: String,
    o1: BinaryOp,
    k1: TokenType,
    b: String,
    o2: BinaryOp,
    k2: TokenType,
    c: String,
)
    requires
        0 <= lvl <= 5,
        op_token(o1) == Some(k1),
        op_token(o2) == Some(k2),
    ensures
        p_level(lvl, two_binaries(a, k1, b, k2, c)) == ({
            let t = two_binaries(a, k1, b, k2, c);
            let (l1, l2) = (op_level(o1), op_level(o2));
            let (x, y) = (ExprModel::Var(a@), ExprModel::Var(b@));
            if l1 >= l2 {
                if lvl <= l2 {
                    Some((grouped(a, o1, b, o2, c), Seq::<TokenType>::empty()))
                } else if lvl <= l1 {
                    Some((bin(x, o1, y), t.skip(3)))
                } else {
                    Some((x, t.skip(1)))
                }
            } else {
                if lvl <= l1 {
                    Some((grouped(a, o1, b, o2, c), Seq::<TokenType>::empty()))
                } else {
                    Some((x, t.skip(1)))
                }
            }
        }),
    decreases 5 - lvl,
{
    let t = two_binaries(a, k1, b, k2, c);
    let empty = Seq::<TokenType>::empty();
    let (l1, l2) = (op_level(o1), op_level(o2));
    let (x, y, z) = (ExprModel::Var(a@), ExprModel::Var(b@), ExprModel::Var(c@));
    let s1 = t.skip(1);
    let s2 = s1.skip(1);
    let s3 = t.skip(3);
    let s4 = s3.skip(1);
    assert(s1 =~= seq![k1, TokenType::Identifier(b), k2, TokenType::Identifier(c)]);
    assert(s2 =~= simple_binary(b, k2, c));
    assert(s3 =~= seq![k2, TokenType::Identifier(c)]);
    assert(s2.skip(1) =~= s3);
    assert(s4 =~= seq![TokenType::Identifier(c)]);
    assert(s4.skip(1) =~= empty);
    law_token_gives_its_own_operator(lvl, k1, o1);
    law_token_gives_its_own_operator(lvl, k2, o2);
    assert(unary_op(TokenType::Identifier(a)) is None);
    assert(unary_op(TokenType::Identifier(b)) is None);
    assert(unary_op(TokenType::Identifier(c)) is None);
    assert(p_primary(t) == Some((x, s1)));
    assert(p_unary(t) == Some((x, s1)));
    assert(p_primary(s2) == Some((y, s3)));
    assert(p_unary(s2) == Some((y, s3)));
    assert(p_primary(s4) == Some((z, empty)));
    assert(p_unary(s4) == Some((z, empty)));
    // What the operands of this level read.
    if lvl < 5 {
        lemma_two_binaries_level(lvl + 1, a, o1, k1, b, o2, k2, c);
        lemma_simple_binary_level(lvl + 1, b, o2, k2, c);
        lemma_simple_binary_level_operand(lvl + 1, c);
    }
    let g = grouped(a, o1, b, o2, c);
    assert(p_rest(lvl, g, empty) == Some((g, empty)));
    let xy = bin(x, o1, y);
    let yz = bin(y, o2, z);
    assert(p_rest(lvl, bin(x, o1, yz), empty) == Some((bin(x, o1, yz), empty)));
    assert(p_rest(lvl, bin(xy, o2, z), empty) == Some((bin(xy, o2, z), empty)));
    if lvl == l2 {
        assert(p_rest(lvl, xy, s3) == Some((bin(xy, o2, z), empty)));
    } else {
        assert(p_rest(lvl, xy, s3) == Some((xy, s3)));
    }
    if lvl == l1 {
        if l1 < l2 {
            assert(p_rest(lvl, x, s1) == Some((g, empty)));
        } else {
            assert(p_rest(lvl, x, s1) == p_rest(lvl, xy, s3));
        }
    } else {
        assert(p_rest(lvl, x, s1) == Some((x, s1)));
    }
}

/// Operators group by how tightly they bind, and those that bind alike group
/// to the left: `a o1 b o2 c` is `(a o1 b) o2 c` where `o1` binds at least as
/// tightly as `o2` (so `a - b - c` is `(a - b) - c`), and `a o1 (b o2 c)`
/// where `o2` binds more tightly (so `a + b * c` is `a + (b * c)`).
pub proof fn law_operators_group_by_precedence(a: String, o1: BinaryOp, b: String, o2: BinaryOp, c: String)
    requires
        op_token(o1) is Some,
        op_token(o2) is Some,
    ensures
        p_expr(two_binaries(a, op_token(o1).unwrap(), b, op_token(o2).unwrap(), c)) == Some(
            (grouped(a, o1, b, o2, c), Seq::<TokenType>::empty()),
        ),
{
    lemma_two_binaries_level(0, a, o1, op_token(o1).unwrap(), b, o2, op_token(o2).unwrap(), c);
}

/// Two names joined by an operator's token parse as that operator applied to
/// the two names, whatever the operator: `a != b` is `a` `BangEqual` `b`.
pub proof fn law_binary_of_two_names(a: String, o: BinaryOp, b: String)
    requires
        op_token(o) is Some,
    ensures
        p_expr(simple_binary(a, op_token(o).unwrap(), b)) == Some(
            (bin(ExprModel::Var(a@), o, ExprModel::Var(b@)), Seq::<TokenType>::empty()),
        ),
{
    lemma_simple_binary_level(0, a, o, op_token(o).unwrap(), b);
}

} // verus!

verus! {

fn scan_stops_at(k: u8, t: &TokenType) -> (r: bool)
    ensures
        r == scan_stops(k as int, *t),
{
    match t {
        TokenType::LeftBrace => k == 0,
        TokenType::RightBrace => k == 1,
        TokenType::Comma => k == 2,
        _ => false,
    }
}

fn scan_opens_at(k: u8, t: &TokenType) -> (r: bool)
    ensures
        r == scan_opens(k as int, *t),
{
    match t {
        TokenType::LeftParen => k == 0 || k == 2,
        TokenType::LeftBracket => k == 0 || k == 2,
        TokenType::LeftBrace => k == 1 || k == 2,
        _ => false,
    }
}

fn scan_closes_at(k: u8, t: &TokenType) -> (r: bool)
    ensures
        r == scan_closes(k as int, *t),
{
    match t {
        TokenType::RightParen => k == 0 || k == 2,
        TokenType::RightBracket => k == 0 || k == 2,
        TokenType::RightBrace => k == 1 || k == 2,
        _ => false,
    }
}

} // verus!
