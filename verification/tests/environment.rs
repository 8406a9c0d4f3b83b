use parscript::expr::Expr;
use parscript::scope::{
    env_add_scope, env_assign, env_create_scope, env_declare, env_empty, env_get_all_visible, env_lookup,
    env_remove_scope, merge_scope,
};
use ustr::ustr;

fn key(name: &str) -> u64 {
    ustr(name).precomputed_hash()
}

fn num(s: &str) -> Expr {
    Expr::Number(s.to_string())
}

fn num_text(e: Option<Expr>) -> Option<String> {
    match e {
        Some(Expr::Number(n)) => Some(n),
        _ => None,
    }
}

#[test]
fn lookup_after_declare() {
    let mut env = env_empty();
    let x = ustr("x");
    assert!(env_lookup(&env, &x).is_none());
    env_declare(&mut env, &x, num("1"));
    assert_eq!(num_text(env_lookup(&env, &x)), Some("1".to_string()));
}

#[test]
fn an_inner_scope_shadows_and_leaving_it_restores() {
    let mut env = env_empty();
    let x = ustr("x");
    env_declare(&mut env, &x, num("1"));
    let mut scope = env_create_scope();
    scope.insert(key("x"), num("2"));
    env_add_scope(&mut env, scope);
    assert_eq!(num_text(env_lookup(&env, &x)), Some("2".to_string()));
    env_remove_scope(&mut env);
    assert_eq!(num_text(env_lookup(&env, &x)), Some("1".to_string()));
}

#[test]
fn entering_then_leaving_an_empty_scope_changes_nothing() {
    let mut env = env_empty();
    let x = ustr("x");
    env_declare(&mut env, &x, num("7"));
    env_add_scope(&mut env, env_create_scope());
    env_remove_scope(&mut env);
    assert_eq!(num_text(env_lookup(&env, &x)), Some("7".to_string()));
}

#[test]
fn a_declaration_in_a_scope_goes_with_it() {
    let mut env = env_empty();
    let y = ustr("y");
    env_add_scope(&mut env, env_create_scope());
    env_declare(&mut env, &y, num("3"));
    assert!(env_lookup(&env, &y).is_some());
    env_remove_scope(&mut env);
    assert!(env_lookup(&env, &y).is_none());
}

#[test]
fn removing_a_scope_from_an_empty_environment_does_nothing() {
    let mut env = env_empty();
    env_remove_scope(&mut env);
    assert!(env_lookup(&env, &ustr("x")).is_none());
}

#[test]
fn assignment_replaces_the_visible_value() {
    let mut env = env_empty();
    let x = ustr("x");
    env_declare(&mut env, &x, num("1"));
    let mut scope = env_create_scope();
    scope.insert(key("x"), num("2"));
    env_add_scope(&mut env, scope);
    assert!(env_assign(&mut env, &x, num("5")));
    assert_eq!(num_text(env_lookup(&env, &x)), Some("5".to_string()));
    env_remove_scope(&mut env);
    assert_eq!(num_text(env_lookup(&env, &x)), Some("1".to_string()));
}

#[test]
fn assignment_to_an_unknown_variable_fails() {
    let mut env = env_empty();
    assert!(!env_assign(&mut env, &ustr("nope"), num("1")));
    assert!(env_lookup(&env, &ustr("nope")).is_none());
}

#[test]
fn only_numbers_and_booleans_are_visible_to_the_predictor() {
    let mut env = env_empty();
    env_declare(&mut env, &ustr("n"), num("4"));
    env_declare(&mut env, &ustr("b"), Expr::Bool(true));
    env_declare(&mut env, &ustr("s"), Expr::String("x".to_string()));
    env_declare(&mut env, &ustr("z"), Expr::Nil);
    let v = env_get_all_visible(&env);
    assert_eq!(v.len(), 2);
    assert!(v.contains_key(&key("n")));
    assert!(v.contains_key(&key("b")));
    assert!(!v.contains_key(&key("s")));
}

#[test]
fn merge_prefers_the_later_task() {
    let x = ustr("x");
    let y = ustr("y");
    let mut a = env_empty();
    env_declare(&mut a, &x, num("1"));
    let mut b = env_empty();
    env_declare(&mut b, &x, num("2"));
    env_declare(&mut b, &y, num("3"));

    let (id, merged) = merge_scope((1, &a), (2, &b));
    assert_eq!(id, 2);
    assert_eq!(num_text(env_lookup(&merged, &x)), Some("2".to_string()));
    assert_eq!(num_text(env_lookup(&merged, &y)), Some("3".to_string()));

    let (id, merged) = merge_scope((5, &a), (2, &b));
    assert_eq!(id, 5);
    assert_eq!(num_text(env_lookup(&merged, &x)), Some("1".to_string()));
    assert_eq!(num_text(env_lookup(&merged, &y)), Some("3".to_string()));
}

#[test]
fn merge_keeps_the_scopes_apart() {
    let x = ustr("x");
    let mut a = env_empty();
    env_declare(&mut a, &x, num("1"));
    let mut inner = env_create_scope();
    inner.insert(key("x"), num("9"));
    env_add_scope(&mut a, inner);
    let b = env_empty();
    let (_, mut merged) = merge_scope((0, &a), (1, &b));
    assert_eq!(num_text(env_lookup(&merged, &x)), Some("9".to_string()));
    env_remove_scope(&mut merged);
    assert_eq!(num_text(env_lookup(&merged, &x)), Some("1".to_string()));
}
