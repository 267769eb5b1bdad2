use weaver::graph::DependencyGraph;
use weaver::ids::TaskId;

#[test]
fn new_graph_is_empty() {
    let graph = DependencyGraph::new();
    assert!(!graph.has_dependencies(TaskId::new(1)));
}

#[test]
fn add_dependency_creates_forward_edge() {
    let mut graph = DependencyGraph::new();
    let task_a = TaskId::new(1);
    let task_b = TaskId::new(2);

    graph.add_dependency(task_b, task_a); // B depends on A

    assert!(graph.has_dependencies(task_b));
    assert!(!graph.has_dependencies(task_a));
    assert_eq!(graph.get_dependencies(task_b), vec![task_a]);
}

#[test]
fn add_dependency_creates_reverse_edge() {
    let mut graph = DependencyGraph::new();
    let task_a = TaskId::new(1);
    let task_b = TaskId::new(2);

    graph.add_dependency(task_b, task_a); // B depends on A

    let waiting = graph.get_waiting_tasks(task_a);
    assert_eq!(waiting.len(), 1);
    assert_eq!(waiting[0], task_b);
}

#[test]
fn remove_dependency_removes_both_edges() {
    let mut graph = DependencyGraph::new();
    let task_a = TaskId::new(1);
    let task_b = TaskId::new(2);

    graph.add_dependency(task_b, task_a);
    graph.remove_dependency(task_b, task_a);

    assert!(!graph.has_dependencies(task_b));
    assert_eq!(graph.get_waiting_tasks(task_a).len(), 0);
}

#[test]
fn multiple_dependencies() {
    let mut graph = DependencyGraph::new();
    let task_a = TaskId::new(1);
    let task_b = TaskId::new(2);
    let task_c = TaskId::new(3);

    // C depends on both A and B
    graph.add_dependency(task_c, task_a);
    graph.add_dependency(task_c, task_b);

    assert!(graph.has_dependencies(task_c));
    let deps = graph.get_dependencies(task_c);
    assert_eq!(deps.len(), 2);
    assert!(deps.contains(&task_a));
    assert!(deps.contains(&task_b));
}

#[test]
fn detect_simple_cycle() {
    let mut graph = DependencyGraph::new();
    let task_a = TaskId::new(1);
    let task_b = TaskId::new(2);

    // A -> B -> A (cycle)
    graph.add_dependency(task_a, task_b);
    graph.add_dependency(task_b, task_a);

    let cycle = graph.detect_cycle();
    assert!(cycle.is_some());
    let cycle_path = cycle.unwrap();
    println!("Detected cycle: {:?}", cycle_path);
    assert!(cycle_path.len() >= 2); // At least A -> B -> A
}

#[test]
fn detect_no_cycle_in_dag() {
    let mut graph = DependencyGraph::new();
    let task_a = TaskId::new(1);
    let task_b = TaskId::new(2);
    let task_c = TaskId::new(3);

    // A -> B -> C (no cycle)
    graph.add_dependency(task_b, task_a);
    graph.add_dependency(task_c, task_b);

    assert!(graph.detect_cycle().is_none());
}

#[test]
fn detect_self_dependency() {
    let mut graph = DependencyGraph::new();
    let task_a = TaskId::new(1);

    // A -> A (self-cycle)
    graph.add_dependency(task_a, task_a);

    let cycle = graph.detect_cycle();
    assert!(cycle.is_some());
}

#[test]
fn detect_longer_cycle() {
    let mut graph = DependencyGraph::new();
    let task_a = TaskId::new(1);
    let task_b = TaskId::new(2);
    let task_c = TaskId::new(3);
    let task_d = TaskId::new(4);

    // A -> B -> C -> D -> B (cycle: B -> C -> D -> B)
    graph.add_dependency(task_b, task_a);
    graph.add_dependency(task_c, task_b);
    graph.add_dependency(task_d, task_c);
    graph.add_dependency(task_b, task_d);

    let cycle = graph.detect_cycle();
    assert!(cycle.is_some());
}

#[test]
fn dag_with_diamond_should_not_detect_cycle() {
    let mut graph = DependencyGraph::new();
    let task_a = TaskId::new(1);
    let task_b = TaskId::new(2);
    let task_c = TaskId::new(3);

    // Diamond: A -> B -> C, A -> C (NOT a cycle!)
    graph.add_dependency(task_b, task_a);
    graph.add_dependency(task_c, task_b);
    graph.add_dependency(task_c, task_a); // Shortcut edge

    println!("Testing diamond DAG...");
    let cycle = graph.detect_cycle();
    if let Some(ref c) = cycle {
        println!("False positive! Detected cycle: {:?}", c);
    }
    assert!(cycle.is_none(), "Diamond DAG should not have cycles!");
}

#[test]
fn complex_dag_with_multiple_paths() {
    let mut graph = DependencyGraph::new();
    let a = TaskId::new(1);
    let b = TaskId::new(2);
    let c = TaskId::new(3);
    let d = TaskId::new(4);
    let e = TaskId::new(5);

    graph.add_dependency(b, a);
    graph.add_dependency(c, a);
    graph.add_dependency(d, b);
    graph.add_dependency(e, b);
    graph.add_dependency(d, c);
    graph.add_dependency(e, c);

    println!("Testing complex DAG with cross edges...");
    let cycle = graph.detect_cycle();
    if let Some(ref c) = cycle {
        println!("False positive in complex DAG! Detected cycle: {:?}", c);
    }
    assert!(cycle.is_none(), "Complex DAG should not have cycles!");
}

#[test]
fn dag_with_convergent_paths() {
    let mut graph = DependencyGraph::new();
    let a = TaskId::new(1);
    let b = TaskId::new(2);
    let c = TaskId::new(3);
    let d = TaskId::new(4);

    // A -> B -> D
    // A -> C -> D  (two paths converge at D)
    graph.add_dependency(b, a);
    graph.add_dependency(c, a);
    graph.add_dependency(d, b);
    graph.add_dependency(d, c);

    println!("Testing convergent paths...");
    let cycle = graph.detect_cycle();
    if let Some(ref c) = cycle {
        println!("False positive with convergent paths! Detected cycle: {:?}", c);
    }
    assert!(cycle.is_none(), "Convergent paths should not be a cycle!");
}

#[test]
fn detected_cycle_ends_where_it_starts() {
    let mut graph = DependencyGraph::new();
    let a = TaskId::new(1);
    let b = TaskId::new(2);
    let c = TaskId::new(3);
    graph.add_dependency(a, b);
    graph.add_dependency(b, c);
    graph.add_dependency(c, a);

    let path = graph.detect_cycle().unwrap();
    assert!(path.len() >= 2);
    assert_eq!(path.first(), path.last());
}
