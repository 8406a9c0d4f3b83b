use parscript::graph::analyze;
use parscript::meta::Class;
use parscript::expr::Expr;
use parscript::stmt::{Decl, Stmt, StmtParser};
use parscript::token::tokenize;
use petgraph::graph::NodeIndex;

fn parse_program(src: &str) -> Vec<Decl> {
    let tokens = tokenize(src).expect("tokens");
    let mut parser = StmtParser::new(tokens);
    let (decls, _) = parser.parse().expect("program");
    decls
}

#[test]
fn straight_line_dependencies() {
    let decls = parse_program("var x = 1; var y = x + 2; print y;");
    let g = analyze(&decls).expect("graph");
    assert_eq!(g.node_count(), 3);
    assert!(g.contains_edge(NodeIndex::new(0), NodeIndex::new(1)));
    assert!(g.contains_edge(NodeIndex::new(1), NodeIndex::new(2)));
    assert!(!g.contains_edge(NodeIndex::new(0), NodeIndex::new(2)));
    assert_eq!(g.edge_count(), 2);
}

#[test]
fn mutable_dependencies_are_recorded() {
    let decls = parse_program("var x = 1; final y = 2; print x + y;");
    let g = analyze(&decls).expect("graph");
    let meta = g[NodeIndex::new(2)].as_ref().expect("node of print");
    assert_eq!(meta.complexity, 4);
    assert!(meta.mut_deps.contains(&0));
    assert!(!meta.mut_deps.contains(&1));
}

#[test]
fn comprehension_costs_two() {
    let decls = parse_program("var a = [1, 2]; var b = map x in a { x * 2 };");
    let g = analyze(&decls).expect("graph");
    let meta = g[NodeIndex::new(1)].as_ref().expect("node of b");
    assert_eq!(meta.complexity, 2);
}

#[test]
fn assignment_depends_on_previous_writer() {
    let decls = parse_program("var x = 1; x = x + 1; print x;");
    let g = analyze(&decls).expect("graph");
    assert!(g.contains_edge(NodeIndex::new(0), NodeIndex::new(1)));
    assert!(g.contains_edge(NodeIndex::new(1), NodeIndex::new(2)));
}

#[test]
fn while_loop_records_its_body() {
    let decls = parse_program("var i = 0; while i < 3 { i = i + 1; }");
    let g = analyze(&decls).expect("graph");
    let meta = g[NodeIndex::new(1)].as_ref().expect("loop node");
    assert_eq!(meta.class, Class::Loop);
    assert_eq!(meta.complexity, 2);
    assert_eq!(meta.loops_decls_indexes, vec![2]);
    // the condition reads what the body writes
    assert!(g.contains_edge(NodeIndex::new(3), NodeIndex::new(1)));
}

#[test]
fn for_loop_binds_its_variable() {
    let decls = parse_program("var a = [1, 2]; for x in a { print x; }");
    let g = analyze(&decls).expect("graph");
    let meta = g[NodeIndex::new(1)].as_ref().expect("loop node");
    assert_eq!(meta.class, Class::Loop);
    assert!(g.contains_edge(NodeIndex::new(0), NodeIndex::new(1)));
    assert!(g.contains_edge(NodeIndex::new(1), NodeIndex::new(2)));
    assert!(g.contains_edge(NodeIndex::new(1), NodeIndex::new(3)));
}

#[test]
fn empty_program_has_an_empty_graph() {
    let g = analyze(&Vec::new()).expect("graph");
    assert_eq!(g.node_count(), 0);
    assert_eq!(g.edge_count(), 0);
}

#[test]
fn an_array_literal_depends_on_its_elements() {
    let decls = parse_program("var x = 1; var y = [x, 2]; print y;");
    let g = analyze(&decls).expect("graph");
    assert!(g.contains_edge(NodeIndex::new(0), NodeIndex::new(1)));
    let vars = match &decls[1] {
        Decl::VarDecl(_, e, _) => e.extract_vars(),
        _ => panic!("a declaration"),
    };
    assert_eq!(vars, vec!["x".to_string()]);
}

#[test]
fn an_assignment_to_an_undeclared_name_gives_no_graph() {
    let decls = vec![Decl::Stmt(Stmt::Assign("z".to_string(), Expr::Number("3".to_string())))];
    assert!(analyze(&decls).is_none());
}
