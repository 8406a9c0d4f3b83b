use coarsetime::Duration;
use parscript::graph::{analyze, first_decl_indices};
use parscript::meta::{Class, DeclarationMeta};
use parscript::parallel_execution::Executor;
use parscript::scheduler::kahn_topsort;
use parscript::scope::{env_declare, env_empty};
use parscript::stmt::{Decl, StmtParser};
use parscript::expr::Expr;
use parscript::task_graph::{Task, TaskGraph};
use parscript::token::tokenize;
use petgraph::graph::{DiGraph, NodeIndex};
use rustc_hash::FxHashMap;
use std::collections::HashSet;
use std::sync::Arc;
use ustr::ustr;

fn meta(complexity: usize, class: Class) -> DeclarationMeta {
    DeclarationMeta {
        complexity,
        mut_deps: HashSet::new(),
        class,
        decl: Arc::new(Decl::Empty),
        loops_decls_indexes: vec![],
    }
}

fn plan(costs: &[usize], classes: &[Class], edges: &[(usize, usize)]) -> DiGraph<DeclarationMeta, ()> {
    let mut g = DiGraph::new();
    for (c, k) in costs.iter().zip(classes) {
        g.add_node(meta(*c, *k));
    }
    for (a, b) in edges {
        g.add_edge(NodeIndex::new(*a), NodeIndex::new(*b), ());
    }
    g
}

#[test]
fn a_chain_runs_in_order() {
    let mut g = plan(&[1, 1, 1], &[Class::Ordinary; 3], &[(0, 1), (1, 2)]);
    assert_eq!(kahn_topsort(&mut g), Ok(vec![0, 1, 2]));
}

#[test]
fn the_most_costly_ready_node_comes_first() {
    let mut g = plan(&[1, 5, 3], &[Class::Ordinary; 3], &[]);
    assert_eq!(kahn_topsort(&mut g), Ok(vec![1, 2, 0]));
}

#[test]
fn a_node_freed_later_is_placed_by_its_cost() {
    // 2 waits for 0; once 0 is placed, 2 (cost 9) goes before 1 (cost 4)
    let mut g = plan(&[5, 4, 9], &[Class::Ordinary; 3], &[(0, 2)]);
    assert_eq!(kahn_topsort(&mut g), Ok(vec![0, 2, 1]));
}

#[test]
fn an_edge_backwards_leaves_its_target_out() {
    let mut g = plan(&[3, 1, 1], &[Class::Ordinary; 3], &[(0, 1), (1, 2), (2, 1)]);
    assert_eq!(kahn_topsort(&mut g), Ok(vec![0, 2]));
}

#[test]
fn a_self_edge_leaves_its_node_out() {
    let mut g = plan(&[1, 2], &[Class::Ordinary; 2], &[(1, 1)]);
    assert_eq!(kahn_topsort(&mut g), Ok(vec![0]));
}

#[test]
fn what_a_loop_feeds_runs_inside_it() {
    let mut g = plan(&[1, 1, 1], &[Class::Loop, Class::Ordinary, Class::Ordinary], &[(0, 1), (0, 2), (1, 2)]);
    assert_eq!(kahn_topsort(&mut g), Ok(vec![0]));
}

#[test]
fn parallel_edges_count_twice() {
    let mut g = plan(&[1, 1], &[Class::Ordinary; 2], &[(0, 1), (0, 1)]);
    assert_eq!(kahn_topsort(&mut g), Ok(vec![0, 1]));
}

fn program_decls(src: &str) -> Vec<Decl> {
    let tokens = tokenize(src).expect("tokens");
    let mut p = StmtParser::new(tokens);
    p.parse().expect("program").0
}

fn plan_of(src: &str) -> (DiGraph<DeclarationMeta, ()>, Vec<usize>) {
    let decls = program_decls(src);
    let g = analyze(&decls).expect("graph");
    let firsts = first_decl_indices(&decls);
    (g.map(|_, m| m.clone().expect("every node analysed"), |_, e| *e), firsts)
}

#[test]
fn top_level_indices_skip_nested_declarations() {
    let decls = program_decls("var a = 1; { var b = 2; print b; } while a < 3 { a = a + 1; } print a;");
    // the block holds two declarations; the loop holds its body block and one assignment
    assert_eq!(first_decl_indices(&decls), vec![0, 1, 4, 7]);
}

#[test]
fn every_declaration_becomes_a_task() {
    let (g, firsts) = plan_of("var a = 1; var b = a + 1; print b;");
    assert_eq!(firsts, vec![0, 1, 2]);
    assert!(Executor::loop_bodies_follow(&g));
    let exec = Executor::new(g, firsts, 2);
    let mut state = TaskGraph::new();
    assert!(exec.build_available_part_task_graph(&mut state, 400));
    assert_eq!(state.tasks_tree.node_count(), 3);
    assert_eq!(state.get_dependencies(1), vec![0]);
    assert_eq!(state.get_dependencies(2), vec![1]);
    let t = state.get_task(1).expect("task of b");
    assert!(matches!(t, Task::ExecuteNode { code_graph_id: 1, .. }));
    // nothing is predicted: the estimate is the cost in milliseconds
    let cost = exec.code_graph[NodeIndex::new(1)].complexity as u64;
    assert_eq!(t.get_estimated_duration(), Some(coarsetime::Duration::from_millis(cost)));
    match t {
        Task::ExecuteNode { loo: Some((c2t, t2c, m)), .. } => {
            assert_eq!(c2t.get(&1), Some(&1));
            assert_eq!(t2c.get(&1), Some(&1));
            assert_eq!(m.complexity as u64, cost);
        }
        _ => panic!("the task holds its context"),
    }
    let ready: Vec<usize> = state.get_ready_tasks().into_iter().map(|(i, _)| i).collect();
    assert_eq!(ready, vec![0]);
}

#[test]
fn a_loop_over_a_final_array_may_be_split() {
    let (g, firsts) = plan_of("final a = [1, 2]; for x in a { print x; }");
    assert_eq!(firsts, vec![0, 1]);
    let exec = Executor::new(g, firsts, 2);
    let mut state = TaskGraph::new();
    assert!(exec.build_available_part_task_graph(&mut state, 400));
    assert_eq!(state.tasks_tree.node_count(), 2);
    assert!(matches!(state.get_task(1), Some(Task::MaybeExpand { code_graph_id: 1, .. })));
    assert_eq!(state.get_dependencies(1), vec![0]);
}

#[test]
fn a_loop_that_reads_a_mutable_variable_runs_as_one_task() {
    let (g, firsts) = plan_of("var a = [1, 2]; for x in a { print x; }");
    let mut state = TaskGraph::new();
    let (c2t, _, covered) = Executor::expand(&g, &mut state, FxHashMap::default(), FxHashMap::default(), firsts[0], None, 0, 400)
        .expect("expanded");
    assert_eq!(covered, None);
    let (_, _, covered) = Executor::expand(&g, &mut state, c2t, FxHashMap::default(), firsts[1], None, 0, 400)
        .expect("expanded");
    // the loop covers its body block and the print in it
    assert_eq!(covered, Some(g[NodeIndex::new(1)].loops_decls_indexes.len()));
    assert!(matches!(state.get_task(1), Some(Task::ExecuteNode { code_graph_id: 1, .. })));
}

#[test]
fn a_dependency_without_a_task_fails() {
    let (g, _) = plan_of("var a = 1; print a;");
    let mut state = TaskGraph::new();
    assert!(Executor::expand(&g, &mut state, FxHashMap::default(), FxHashMap::default(), 1, None, 0, 400).is_none());
    assert!(Executor::expand(&g, &mut TaskGraph::new(), FxHashMap::default(), FxHashMap::default(), 5, None, 0, 400).is_none());
}

#[test]
fn predictions_decide_parallelism() {
    let long = Some(coarsetime::Duration::from_millis(500));
    let short = Some(coarsetime::Duration::from_millis(300));
    assert!(Executor::is_parallel_execution(long, 5, 400));
    assert!(!Executor::is_parallel_execution(short, 0, 400));
    assert!(Executor::is_parallel_execution(None, 1, 400));
    assert!(!Executor::is_parallel_execution(None, 2, 400));
}

#[test]
fn an_iteration_is_done_at_once_and_its_body_expanded() {
    let (g, firsts) = plan_of("final a = [1, 2]; for x in a { print x; }");
    let exec = Executor::new(g, firsts, 1);
    let mut state = TaskGraph::new();
    assert!(exec.build_available_part_task_graph(&mut state, 400));
    let mut env = env_empty();
    env_declare(&mut env, &ustr("x"), Expr::Number("1".to_string()));
    let mut c2t = FxHashMap::default();
    c2t.insert(0usize, 0usize);
    let (c2t, t2c, covered) =
        Executor::expand_iteration(&exec.code_graph, &mut state, c2t, FxHashMap::default(), 1, env, None, 1, 400)
            .expect("planned");
    // the iteration's own task is done at once; the loop records its body
    // block, which is expanded (it records nothing itself)
    assert!(state.get_result(2).is_some());
    assert!(!state.is_node_ready(2));
    assert_eq!(state.tasks_tree.node_count(), 3);
    assert_eq!(c2t.get(&1), Some(&2));
    assert_eq!(t2c.get(&2), Some(&1));
    assert_eq!(covered, Some(0));
    // a node that records no body cannot be split
    let r = Executor::expand_iteration(&exec.code_graph, &mut state, FxHashMap::default(), FxHashMap::default(), 0, env_empty(), None, 1, 400);
    assert!(r.is_none());
}

#[test]
fn a_copy_of_a_node_keeps_everything() {
    let mut m = meta(7, Class::Loop);
    m.mut_deps.insert(3);
    m.mut_deps.insert(5);
    m.loops_decls_indexes = vec![8, 9];
    m.decl = Arc::new(Decl::VarDecl("v".to_string(), Expr::Nil, parscript::stmt::Mutability::Mutable));
    let c = m.clone();
    assert_eq!(c.complexity, 7);
    assert_eq!(c.class, Class::Loop);
    assert_eq!(c.mut_deps, m.mut_deps);
    assert_eq!(c.loops_decls_indexes, vec![8, 9]);
    assert!(matches!(*c.decl, Decl::VarDecl(ref n, Expr::Nil, _) if n == "v"));
    assert!(Arc::ptr_eq(&c.decl, &m.decl));
}

#[test]
fn only_a_parallel_loop_is_expanded() {
    assert!(!Executor::expands_node(Class::Ordinary, None, 0, 10));
    assert!(Executor::expands_node(Class::Loop, None, 0, 10));
    assert!(!Executor::expands_node(Class::Loop, None, 2, 10));
    assert!(!Executor::expands_node(Class::Loop, Some(Duration::from_millis(5)), 0, 10));
    assert!(Executor::expands_node(Class::Loop, Some(Duration::from_millis(20)), 0, 10));
}

#[test]
fn a_loop_runs_whole_when_its_iterations_are_short() {
    assert!(!Executor::runs_loop_whole(None, 3, 100));
    assert!(Executor::runs_loop_whole(Some(Duration::from_millis(200)), 3, 100));
    assert!(!Executor::runs_loop_whole(Some(Duration::from_millis(300)), 3, 100));
}
