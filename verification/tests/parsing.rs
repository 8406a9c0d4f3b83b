use parscript::expr::{BinaryOp, Expr, UnaryOp};
use parscript::parser::Parser;
use parscript::stmt::{Decl, Mutability, Stmt, StmtParser};
use parscript::token::tokenize;

fn expr_of(src: &str) -> Option<Expr> {
    let tokens = tokenize(src).expect("tokens");
    let mut p = Parser::new(tokens);
    p.parse_expr()
}

fn number(e: &Expr, text: &str) -> bool {
    matches!(e, Expr::Number(n) if n == text)
}

#[test]
fn multiplication_binds_tighter_than_addition() {
    let e = expr_of("1 + 2 * 3").expect("expr");
    match e {
        Expr::Binary(l, BinaryOp::Plus, r) => {
            assert!(number(&l, "1"));
            match *r {
                Expr::Binary(a, BinaryOp::Star, b) => {
                    assert!(number(&a, "2"));
                    assert!(number(&b, "3"));
                }
                other => panic!("unexpected {:?}", other),
            }
        }
        other => panic!("unexpected {:?}", other),
    }
}

#[test]
fn parentheses_group() {
    let e = expr_of("(1 + 2) * 3").expect("expr");
    assert!(matches!(e, Expr::Binary(_, BinaryOp::Star, _)));
}

#[test]
fn subtraction_is_left_associative() {
    let e = expr_of("5 - 2 - 1").expect("expr");
    match e {
        Expr::Binary(l, BinaryOp::Minus, r) => {
            assert!(matches!(*l, Expr::Binary(_, BinaryOp::Minus, _)));
            assert!(number(&r, "1"));
        }
        other => panic!("unexpected {:?}", other),
    }
}

#[test]
fn comparison_and_logic() {
    let e = expr_of("a < 1 and b >= 2 or !c").expect("expr");
    match e {
        Expr::Binary(l, BinaryOp::Or, r) => {
            assert!(matches!(*l, Expr::Binary(_, BinaryOp::And, _)));
            assert!(matches!(*r, Expr::Unary(UnaryOp::Bang, _)));
        }
        other => panic!("unexpected {:?}", other),
    }
}

#[test]
fn modulo_and_equality() {
    let e = expr_of("x % 2 == 0").expect("expr");
    match e {
        Expr::Binary(l, BinaryOp::EqualEqual, r) => {
            assert!(matches!(*l, Expr::Binary(_, BinaryOp::Modulo, _)));
            assert!(number(&r, "0"));
        }
        other => panic!("unexpected {:?}", other),
    }
}

#[test]
fn unary_minus() {
    let e = expr_of("-x").expect("expr");
    match e {
        Expr::Unary(UnaryOp::Minus, inner) => assert!(matches!(*inner, Expr::Var(ref n) if n == "x")),
        other => panic!("unexpected {:?}", other),
    }
}

#[test]
fn literals() {
    assert!(matches!(expr_of("true"), Some(Expr::Bool(true))));
    assert!(matches!(expr_of("false"), Some(Expr::Bool(false))));
    assert!(matches!(expr_of("nil"), Some(Expr::Nil)));
    assert!(matches!(expr_of("\"s\""), Some(Expr::String(ref s)) if s == "s"));
}

#[test]
fn arrays_and_ranges() {
    match expr_of("[1, 2,]").expect("expr") {
        Expr::Array(v) => {
            assert_eq!(v.len(), 2);
            assert!(number(&v[1], "2"));
        }
        other => panic!("unexpected {:?}", other),
    }
    assert!(matches!(expr_of("[]"), Some(Expr::Array(ref v)) if v.is_empty()));
    assert!(matches!(expr_of("[1..3]"), Some(Expr::Range(_, _))));
}

#[test]
fn comprehensions() {
    match expr_of("map x in a { x * 2 }").expect("expr") {
        Expr::MapExpr(v, arr, body) => {
            assert_eq!(v, "x");
            assert!(matches!(*arr, Expr::Var(ref n) if n == "a"));
            assert!(matches!(*body, Expr::Binary(_, BinaryOp::Star, _)));
        }
        other => panic!("unexpected {:?}", other),
    }
    assert!(matches!(expr_of("filter x in a { x > 1 }"), Some(Expr::FilterExpr(_, _, _))));
    match expr_of("foldl acc, 0, x in a { acc + x }").expect("expr") {
        Expr::FoldlExpr(acc, init, v, _, _) => {
            assert_eq!(acc, "acc");
            assert!(number(&init, "0"));
            assert_eq!(v, "x");
        }
        other => panic!("unexpected {:?}", other),
    }
    assert!(matches!(expr_of("scanl acc, 0, x in a { acc + x }"), Some(Expr::ScanlExpr(_, _, _, _, _))));
}

#[test]
fn malformed_expressions_fail() {
    assert!(expr_of("(1 + 2").is_none());
    assert!(expr_of("1 +").is_none());
    assert!(expr_of("[1, 2").is_none());
    assert!(expr_of("map in a { x }").is_none());
    assert!(expr_of("").is_none());
}

fn program(src: &str) -> Option<Vec<Decl>> {
    let tokens = tokenize(src).expect("tokens");
    let mut p = StmtParser::new(tokens);
    p.parse().map(|(d, _)| d)
}

#[test]
fn declarations_and_statements() {
    let d = program("var x = 1; final y = 2; x = x + y; print x;").expect("program");
    assert_eq!(d.len(), 4);
    assert!(matches!(d[0], Decl::VarDecl(ref n, _, Mutability::Mutable) if n == "x"));
    assert!(matches!(d[1], Decl::VarDecl(ref n, _, Mutability::Immutable) if n == "y"));
    assert!(matches!(d[2], Decl::Stmt(Stmt::Assign(ref n, _)) if n == "x"));
    assert!(matches!(d[3], Decl::Stmt(Stmt::Print(_))));
}

#[test]
fn assignment_to_a_final_variable_fails() {
    assert!(program("final y = 2; y = 3;").is_none());
}

#[test]
fn assignment_to_an_undeclared_variable_fails() {
    assert!(program("z = 3;").is_none());
}

#[test]
fn control_flow() {
    let d = program("var i = 0; while i < 3 { i = i + 1; } if i == 3 { print i; } else { print 0; } for x in [1..2] { print x; }")
        .expect("program");
    assert_eq!(d.len(), 4);
    assert!(matches!(d[1], Decl::Stmt(Stmt::While(_, _))));
    match &d[2] {
        Decl::Stmt(Stmt::Condition(_, then_b, Some(else_b))) => {
            assert!(matches!(**then_b, Stmt::Block(ref v) if v.len() == 1));
            assert!(matches!(**else_b, Stmt::Block(ref v) if v.len() == 1));
        }
        other => panic!("unexpected {:?}", other),
    }
    assert!(matches!(d[3], Decl::Stmt(Stmt::For(ref v, _, _)) if v == "x"));
}

#[test]
fn missing_semicolon_fails() {
    assert!(program("var x = 1").is_none());
    assert!(program("print 1").is_none());
}

#[test]
fn the_type_environment_records_mutability() {
    let tokens = tokenize("var x = 1; final y = 2;").expect("tokens");
    let mut p = StmtParser::new(tokens);
    let (_, env) = p.parse().expect("program");
    assert_eq!(env.get(&"x".to_string()).map(|(m, _)| m), Some(Mutability::Mutable));
    assert_eq!(env.get(&"y".to_string()).map(|(m, _)| m), Some(Mutability::Immutable));
    assert!(env.get(&"z".to_string()).is_none());
}

#[test]
fn blocks_nest() {
    let d = program("{ var a = 1; { print a; } }").expect("program");
    match &d[0] {
        Decl::Stmt(Stmt::Block(inner)) => {
            assert_eq!(inner.len(), 2);
            assert!(matches!(inner[1], Decl::Stmt(Stmt::Block(_))));
        }
        other => panic!("unexpected {:?}", other),
    }
}
