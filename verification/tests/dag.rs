use ecs::dag::{CyclicDependency, IndexDag};

#[test]
fn add_node() {
    let mut dag = IndexDag::new();
    let index = dag.add_node("Node1");
    assert_eq!(index, 0);
    assert_eq!(dag.nodes().len(), 1);
    assert_eq!(dag.nodes()[0], "Node1");
}

#[test]
fn add_dependency() {
    let mut dag = IndexDag::new();
    let node1 = dag.add_node("Node1");
    let node2 = dag.add_node("Node2");

    dag.add_dependency(node1, node2); // Node2 depends on Node1

    assert_eq!(dag.dependencies()[node2], 1);
    assert!(dag.dependents()[node1].contains(node2));
}

#[test]
fn remove_dependency() {
    let mut dag = IndexDag::new();
    let node1 = dag.add_node("Node1");
    let node2 = dag.add_node("Node2");

    dag.add_dependency(node1, node2);
    assert!(dag.remove_dependency(node1, node2));
    assert_eq!(dag.dependencies()[node2], 0);
    assert!(!dag.dependents()[node1].contains(node2));
}

#[test]
fn topological_sort() {
    let mut dag = IndexDag::new();
    let node1 = dag.add_node("Node1");
    let node2 = dag.add_node("Node2");
    let node3 = dag.add_node("Node3");

    dag.add_dependency(node2, node3); // Node3 depends on Node2
    dag.add_dependency(node2, node1); // Node1 depends on Node2

    let result = dag.build();
    assert!(result.is_ok());
    let topology = result.unwrap();
    assert_eq!(topology, &[node2, node3, node1]);
}

#[test]
fn cycle_detection() {
    let mut dag = IndexDag::new();
    let node1 = dag.add_node("Node1");
    let node2 = dag.add_node("Node2");
    let node3 = dag.add_node("Node3");

    dag.add_dependency(node1, node2); // Node2 depends on Node1
    dag.add_dependency(node2, node3); // Node3 depends on Node2
    dag.add_dependency(node3, node1); // Node1 depends on Node3 (creates a cycle)

    let result = dag.build();
    assert!(result.is_err());
    let cycle = result.unwrap_err();
    assert!(cycle.0.contains(&node1));
    assert!(cycle.0.contains(&node2));
    assert!(cycle.0.contains(&node3));
}

#[test]
fn no_dependencies() {
    let mut dag = IndexDag::new();
    let node1 = dag.add_node("Node1");
    let node2 = dag.add_node("Node2");

    let result = dag.build();
    assert!(result.is_ok());
    let topology = result.unwrap();
    assert!(topology.contains(&node1));
    assert!(topology.contains(&node2));
}

#[test]
fn multiple_dependencies() {
    let mut dag = IndexDag::new();
    let node1 = dag.add_node("Node1");
    let node2 = dag.add_node("Node2");
    let node3 = dag.add_node("Node3");

    dag.add_dependency(node1, node2); // Node2 depends on Node1
    dag.add_dependency(node1, node3); // Node3 depends on Node1

    let result = dag.build();
    assert!(result.is_ok());
    let topology = result.unwrap();
    assert!(
        topology.iter().position(|&x| x == node1).unwrap()
            < topology.iter().position(|&x| x == node2).unwrap()
    );
    assert!(
        topology.iter().position(|&x| x == node1).unwrap()
            < topology.iter().position(|&x| x == node3).unwrap()
    );
}

#[test]
fn cycle_is_reported_as_a_closed_path() {
    let mut dag = IndexDag::new();
    let a = dag.add_node('a');
    let b = dag.add_node('b');
    let c = dag.add_node('c');
    dag.add_dependency(a, b);
    dag.add_dependency(b, c);
    dag.add_dependency(c, b);
    let cycle = dag.build().unwrap_err();
    assert_eq!(cycle, CyclicDependency(vec![a, b, c, b]));
}

#[test]
fn self_dependency_is_a_cycle() {
    let mut dag = IndexDag::new();
    let a = dag.add_node(1u8);
    dag.add_dependency(a, a);
    assert_eq!(dag.build(), Err(CyclicDependency(vec![a, a])));
}

#[test]
fn remove_missing_dependency_changes_nothing() {
    let mut dag = IndexDag::new();
    let a = dag.add_node(());
    let b = dag.add_node(());
    assert!(!dag.remove_dependency(a, b));
    assert!(!dag.remove_dependency(a, 99));
    assert_eq!(dag.dependencies(), &[0, 0]);
}

#[test]
fn untouched_graph_keeps_empty_order() {
    let mut dag: IndexDag<u32> = IndexDag::default();
    assert_eq!(dag.build(), Ok(&[][..]));
    assert_eq!(dag.len(), 0);
}

#[test]
fn map_keeps_edges_and_order() {
    let mut dag = IndexDag::new();
    let a = dag.add_node(1u32);
    let b = dag.add_node(2u32);
    dag.add_dependency(b, a);
    dag.build().unwrap();
    let mut calls = 0;
    let mapped = dag.map(|n| {
        calls += 1;
        n * 10 + calls
    });
    assert_eq!(mapped.nodes(), &[11, 22]);
    assert_eq!(mapped.topology(), &[b, a]);
    assert_eq!(mapped.dependencies(), &[1, 0]);
    let frozen = mapped.into_immutable();
    assert_eq!(frozen.iter(), vec![&22, &11]);
    assert_eq!(frozen.len(), 2);
    let values = IndexDag::<u8>::new().into_values();
    assert!(values.nodes.is_empty());
}

#[test]
fn nodes_mut_edits_in_place() {
    let mut dag = IndexDag::new();
    dag.add_node(5i32);
    dag.nodes_mut()[0] = 6;
    assert_eq!(dag.nodes(), &[6]);
}
