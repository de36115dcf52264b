use oxigration::topsort::{topo_sort, TopologicalSortError};

fn is_valid_sort(sorted: &[usize], graph: &[(usize, usize)]) -> bool {
    for (source, dest) in graph {
        let source_pos = sorted.iter().position(|node| node == source);
        let dest_pos = sorted.iter().position(|node| node == dest);
        match (source_pos, dest_pos) {
            (Some(src), Some(dst)) if src < dst => {}
            _ => {
                return false;
            }
        };
    }
    true
}

#[test]
fn test_simple_graph() {
    let graph = vec![(1, 2), (1, 3), (2, 3), (3, 4), (4, 5), (5, 6), (6, 7)];
    let sort = topo_sort(&graph);
    assert!(sort.is_ok());
    let sort = sort.unwrap();
    assert!(is_valid_sort(&sort, &graph));
    assert_eq!(sort, vec![1, 2, 3, 4, 5, 6, 7]);
}

#[test]
fn test_wikipedia_example() {
    let graph = vec![
        (5, 11),
        (7, 11),
        (7, 8),
        (3, 8),
        (3, 10),
        (11, 2),
        (11, 9),
        (11, 10),
        (8, 9),
    ];
    let sort = topo_sort(&graph);
    assert!(sort.is_ok());
    let sort = sort.unwrap();
    assert!(is_valid_sort(&sort, &graph));
}

#[test]
fn test_cyclic_graph() {
    let graph = vec![(1, 2), (2, 3), (3, 4), (4, 5), (4, 2)];
    let sort = topo_sort(&graph);
    assert!(sort.is_err());
    assert_eq!(sort.err().unwrap(), TopologicalSortError::CycleDetected);
}

#[test]
fn wikipedia_order_is_first_seen_and_repeatable() {
    let graph = vec![
        (5, 11),
        (7, 11),
        (7, 8),
        (3, 8),
        (3, 10),
        (11, 2),
        (11, 9),
        (11, 10),
        (8, 9),
    ];
    let first = topo_sort(&graph).unwrap();
    let second = topo_sort(&graph).unwrap();
    assert_eq!(first, second);
    assert_eq!(first, vec![5, 7, 11, 3, 8, 10, 2, 9]);
    assert_eq!(first.len(), 8);
}

#[test]
fn three_node_cycle_fails_in_any_edge_order() {
    let a = vec![(1, 2), (2, 3), (3, 1)];
    let b = vec![(3, 1), (1, 2), (2, 3)];
    let c = vec![(2, 3), (3, 1), (1, 2)];
    assert_eq!(topo_sort(&a), Err(TopologicalSortError::CycleDetected));
    assert_eq!(topo_sort(&b), Err(TopologicalSortError::CycleDetected));
    assert_eq!(topo_sort(&c), Err(TopologicalSortError::CycleDetected));
}

#[test]
fn self_loop_is_a_cycle() {
    assert_eq!(topo_sort(&vec![(4, 4)]), Err(TopologicalSortError::CycleDetected));
}

#[test]
fn empty_edge_list_orders_nothing() {
    assert_eq!(topo_sort(&vec![]), Ok(vec![]));
}

#[test]
fn duplicate_edges_are_harmless() {
    assert_eq!(topo_sort(&vec![(9, 1), (9, 1), (1, 0)]), Ok(vec![9, 1, 0]));
}

#[test]
fn ready_nodes_follow_first_appearance() {
    // 30 and 10 are both ready at the start; 30 appeared first.
    assert_eq!(topo_sort(&vec![(30, 20), (10, 20)]), Ok(vec![30, 10, 20]));
}
