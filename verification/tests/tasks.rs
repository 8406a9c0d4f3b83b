use coarsetime::Duration;
use parscript::scheduler_parallel::Scheduler;
use parscript::scope::{env_declare, env_empty, env_lookup};
use parscript::expr::Expr;
use parscript::task_graph::{Status, Task, TaskGraph};
use ustr::ustr;

fn task(code: usize, complexity: usize, ms: Option<u64>) -> Task {
    Task::ExecuteNode {
        code_graph_id: code,
        complexity,
        estimated_duration: ms.map(Duration::from_millis),
        loo: None,
    }
}

#[test]
fn an_empty_graph_is_complete() {
    let g = TaskGraph::new();
    assert!(g.is_complete());
    assert!(g.get_ready_tasks().is_empty());
}

#[test]
fn tasks_wait_for_their_dependencies() {
    let mut g = TaskGraph::new();
    let a = g.add_task(task(0, 1, Some(1)));
    let b = g.add_task(task(1, 1, Some(1)));
    assert_eq!((a, b), (0, 1));
    g.add_dependency(a, b);
    assert!(g.is_node_ready(a));
    assert!(!g.is_node_ready(b));
    assert!(!g.is_node_ready(7));
    let ready: Vec<usize> = g.get_ready_tasks().into_iter().map(|(i, _)| i).collect();
    assert_eq!(ready, vec![0]);
    assert_eq!(g.get_dependencies(b), vec![0]);
    assert!(g.get_dependencies(a).is_empty());

    g.mark_running(a);
    assert!(!g.is_node_ready(a));
    assert!(g.get_ready_tasks().is_empty());
    assert!(!g.is_complete());

    let mut env = env_empty();
    env_declare(&mut env, &ustr("x"), Expr::Number("3".to_string()));
    g.mark_done(a, env);
    assert!(g.is_node_ready(b));
    let result = g.get_result(a).expect("result of a");
    assert!(matches!(env_lookup(&result, &ustr("x")), Some(Expr::Number(ref n)) if n == "3"));
    assert!(g.get_result(b).is_none());

    g.mark_failed(b);
    assert!(g.is_complete());
    assert_eq!(g.tasks_status.get(&b), Some(&Status::Failed));
}

#[test]
fn tasks_report_their_fields() {
    let t = task(4, 9, Some(20));
    assert_eq!(t.get_code_graph_id(), 4);
    assert_eq!(t.get_complexity(), 9);
    assert_eq!(t.get_estimated_duration(), Some(Duration::from_millis(20)));
    let d = t.duplicate();
    assert_eq!(d.get_code_graph_id(), 4);
    assert_eq!(d.get_estimated_duration(), Some(Duration::from_millis(20)));
    let mut g = TaskGraph::new();
    let id = g.add_task(t);
    assert_eq!(g.get_task(id).map(|t| t.get_complexity()), Some(9));
    assert!(g.get_task(id + 1).is_none());
}

#[test]
fn the_longest_tasks_go_to_the_least_loaded_workers() {
    let mut g = TaskGraph::new();
    g.add_task(task(0, 1, Some(10)));
    g.add_task(task(1, 1, Some(30)));
    g.add_task(task(2, 1, Some(20)));
    let mut s = Scheduler::new(2);
    let out = s.schedule(&g, 100).expect("schedule");
    assert_eq!(out, vec![vec![1], vec![2, 0]]);
}

#[test]
fn the_limit_keeps_the_longest() {
    let mut g = TaskGraph::new();
    g.add_task(task(0, 1, Some(10)));
    g.add_task(task(1, 1, Some(30)));
    g.add_task(task(2, 1, Some(20)));
    let mut s = Scheduler::new(3);
    let out = s.schedule(&g, 2).expect("schedule");
    assert_eq!(out, vec![vec![1], vec![2], vec![]]);
}

#[test]
fn loads_carry_over_between_rounds() {
    let mut g = TaskGraph::new();
    let a = g.add_task(task(0, 1, Some(50)));
    let mut s = Scheduler::new(2);
    assert_eq!(s.schedule(&g, 10), Some(vec![vec![0], vec![]]));
    g.mark_running(a);
    g.add_task(task(1, 1, Some(5)));
    // worker 0 still carries the first task, so the next goes to worker 1
    assert_eq!(s.schedule(&g, 10), Some(vec![vec![], vec![1]]));
    s.task_completed(0, Some(Duration::from_millis(50)), 1);
    s.task_completed(9, None, 1);
}

#[test]
fn a_missing_estimate_among_several_fails() {
    let mut g = TaskGraph::new();
    g.add_task(task(0, 1, Some(10)));
    g.add_task(task(1, 1, None));
    let mut s = Scheduler::new(2);
    assert_eq!(s.schedule(&g, 10), None);
}

#[test]
fn a_single_task_needs_no_estimate() {
    let mut g = TaskGraph::new();
    g.add_task(task(0, 1, None));
    let mut s = Scheduler::new(2);
    assert_eq!(s.schedule(&g, 10), Some(vec![vec![0], vec![]]));
}

#[test]
fn no_workers() {
    let mut s = Scheduler::new(0);
    let mut g = TaskGraph::new();
    assert_eq!(s.schedule(&g, 10), Some(vec![]));
    g.add_task(task(0, 1, Some(1)));
    assert_eq!(s.schedule(&g, 10), None);
}

#[test]
fn estimates_add_up_per_worker() {
    // worker 0 takes 1.5 s, worker 1 then takes 1 s and 0.25 s, which stays
    // below 1.5 s, so the last task goes to worker 1 as well
    let mut g = TaskGraph::new();
    g.add_task(task(0, 1, Some(1500)));
    g.add_task(task(1, 1, Some(1000)));
    g.add_task(task(2, 1, Some(250)));
    g.add_task(task(3, 1, Some(200)));
    let mut s = Scheduler::new(2);
    assert_eq!(s.schedule(&g, 10), Some(vec![vec![0], vec![1, 2, 3]]));
}
