use agent_network::graph::Graph;

#[test]
fn construction() {
    let mut g = Graph::<(), ()>::new();

    for _ in 0..10 {
        let a = g.add_node(());
        let b = g.add_node(());

        g.add_edge(a, b, ());
    }

    assert_eq!(g.num_nodes(), 20);
    assert_eq!(g.num_edges(), 10);
}

#[test]
fn remove_node() {
    let mut g = Graph::<(), ()>::new();

    let mut a = g.add_node(());
    for _ in 0..10 {
        a = g.add_node(());
        let b = g.add_node(());

        g.add_edge(a, b, ());
    }

    g.remove_node(a);

    assert_eq!(g.num_nodes(), 20);
    assert_eq!(g.num_edges(), 9);
}

#[test]
fn remove_edge() {
    let mut g = Graph::<(), ()>::new();

    let mut a = g.add_node(());
    let mut b = g.add_node(());
    for _ in 0..10 {
        a = g.add_node(());
        b = g.add_node(());

        g.add_edge(a, b, ());
    }

    g.remove_edge(a, b);

    assert_eq!(g.num_nodes(), 22);
    assert_eq!(g.num_edges(), 9);
}

#[test]
fn remove_both() {
    let mut g = Graph::<(), ()>::new();

    let mut a = g.add_node(());
    let mut b = g.add_node(());
    for _ in 0..10 {
        a = g.add_node(());
        b = g.add_node(());

        g.add_edge(a, b, ());
    }

    assert_eq!(g.num_edges(), 10);

    g.remove_edge(a, b);

    assert_eq!(g.num_edges(), 9);

    let a = g.add_node(());
    let b = g.add_node(());
    let c = g.add_node(());

    g.add_edge(a, b, ());
    g.add_edge(a, c, ());
    g.add_edge(b, c, ());

    assert_eq!(g.num_edges(), 12);

    g.remove_node(a);

    assert_eq!(g.num_nodes(), 24);
    assert_eq!(g.num_edges(), 10);
}

#[test]
fn contains() {
    let mut g = Graph::<(), ()>::new();

    let mut vec = Vec::new();
    for _ in 0..10 {
        vec.push(g.add_node(()));
    }

    for i in 0..10 {
        for k in 0..10 {
            g.add_edge(vec[i], vec[k], ());
        }
    }

    assert_eq!(g.num_edges(), 100);
    assert_eq!(g.contains_edge(vec[5], vec[8]), true);
    assert_eq!(g.contains_edge(vec[8], vec[5]), true);

    g.remove_node(vec[5]);

    assert_eq!(g.num_edges(), 81);
    assert_eq!(g.contains_edge(vec[5], vec[8]), false);

    // Incoming edges of a removed node are reported absent
    assert_eq!(g.contains_edge(vec[8], vec[5]), false);
}

#[test]
fn re_add_node() {
    let mut g = Graph::<(), ()>::new();

    let a = g.add_node(());
    let b = g.add_node(());

    g.add_edge(a, b, ());

    g.remove_node(b);

    let c = g.add_node(());

    assert_eq!(g.contains_edge(a, c), false);
}

#[test]
fn double_edge() {
    let mut g = Graph::<(), ()>::new();

    let a = g.add_node(());
    let b = g.add_node(());

    g.add_edge(a, b, ());
    g.add_edge(a, b, ());

    assert_eq!(g.num_edges(), 2);

    g.remove_edge(a, b);

    assert_eq!(g.num_edges(), 1);
    assert_eq!(g.contains_edge(a, b), true);

    g.add_edge(a, b, ());

    g.remove_node(b);

    assert_eq!(g.num_edges(), 0);
}

#[test]
fn delete_nonexisting_node() {
    let mut g = Graph::<(), ()>::new();

    let a = g.add_node(());
    g.add_node(());

    g.remove_node(a);
    g.remove_node(a);

    assert_eq!(g.num_nodes(), 1);
    assert_eq!(g.num_edges(), 0);
}

#[test]
fn delete_nonexisting_edge() {
    let mut g = Graph::<(), ()>::new();

    let a = g.add_node(());
    let b = g.add_node(());

    g.add_edge(a, b, ());

    g.remove_edge(b, a);

    assert_eq!(g.num_nodes(), 2);
    assert_eq!(g.num_edges(), 1);
}

#[test]
fn large_total_graph() {
    let mut g = Graph::<(), ()>::new();

    let mut nodes = Vec::new();
    for _ in 0..1e3 as usize {
        nodes.push(g.add_node(()));
    }

    for i in 0..1e3 as usize {
        for k in 0..1e3 as usize {
            g.add_edge(nodes[i], nodes[k], ());
        }
    }

    assert_eq!(g.num_nodes(), 1e3 as usize);
    assert_eq!(g.num_edges(), 1e6 as usize);

    g.remove_node(nodes[257]);

    assert_eq!(g.num_nodes(), 1e3 as usize - 1);
    assert_eq!(g.num_edges(), 999 * 999);
}

#[test]
fn actual_payload() {
    let mut g = Graph::<i32, f32>::new();

    let a = g.add_node(0);
    let b = g.add_node(1);

    g.add_edge(a, b, 0.123);

    assert_eq!(g.node_payload(a), &mut 0);
    assert_eq!(g.node_payload(b), &mut 1);
    assert_eq!(g.edge_payload(a, b), Some(&mut 0.123));
    assert_eq!(g.edge_payload(b, a), None);
}

#[test]
fn nodes_iter() {
    let mut g = Graph::<i32, ()>::new();

    for i in 0..5 {
        g.add_node(i);
    }

    assert_eq!(g.nodes_iter().to_vec(), vec![&0, &1, &2, &3, &4]);
}

#[test]
fn ten_nodes_counted() {
    let mut g = Graph::<u32, ()>::new();
    for i in 0..10 {
        g.add_node(i);
    }
    assert_eq!(g.num_nodes(), 10);
    assert_eq!(g.num_edges(), 0);
}

#[test]
fn nodes_iter_skips_removed_and_restarts() {
    let mut g = Graph::<i32, ()>::new();
    let mut idx = Vec::new();
    for i in 0..5 {
        idx.push(g.add_node(i));
    }
    g.remove_node(idx[2]);
    assert_eq!(g.nodes_iter().to_vec(), vec![&0, &1, &3, &4]);
    assert_eq!(g.nodes_iter().to_vec(), vec![&0, &1, &3, &4]);

    let mut it = g.nodes_iter();
    assert_eq!(it.next(), Some(&0));
    assert_eq!(it.next(), Some(&1));
    assert_eq!(it.next(), Some(&3));
    assert_eq!(it.next(), Some(&4));
    assert_eq!(it.next(), None);
    assert_eq!(it.next(), None);
}

#[test]
fn removed_node_has_no_edges_either_way() {
    let mut g = Graph::<(), ()>::new();
    let a = g.add_node(());
    let b = g.add_node(());
    let c = g.add_node(());
    g.add_edge(a, b, ());
    g.add_edge(b, a, ());
    g.add_edge(c, a, ());
    g.add_edge(a, a, ());
    g.remove_node(a);
    for x in [a, b, c] {
        assert!(!g.contains_edge(a, x));
        assert!(!g.contains_edge(x, a));
    }
    assert_eq!(g.num_edges(), 0);
    assert_eq!(g.num_nodes(), 2);
}

#[test]
fn free_slot_is_reused() {
    let mut g = Graph::<u8, ()>::new();
    let a = g.add_node(1);
    let b = g.add_node(2);
    g.remove_node(a);
    let c = g.add_node(3);
    assert_eq!(c, a);
    assert_ne!(c, b);
    assert_eq!(g.num_nodes(), 2);
    assert_eq!(g.nodes_iter().to_vec(), vec![&3, &2]);
}

#[test]
fn edges_to_dead_or_unknown_nodes_are_ignored() {
    let mut g = Graph::<(), ()>::new();
    let a = g.add_node(());
    let b = g.add_node(());
    g.remove_node(b);
    g.add_edge(a, b, ());
    g.add_edge(b, a, ());
    assert_eq!(g.num_edges(), 0);
    let unknown = agent_network::graph::NodeIndex(99);
    g.add_edge(a, unknown, ());
    g.remove_edge(unknown, a);
    assert!(!g.contains_edge(a, unknown));
    assert!(!g.contains_edge(unknown, a));
    assert_eq!(g.num_edges(), 0);
}

#[test]
fn remove_edge_takes_most_recent_first() {
    let mut g = Graph::<(), u8>::new();
    let a = g.add_node(());
    let b = g.add_node(());
    g.add_edge(a, b, 1);
    g.add_edge(a, b, 2);
    assert_eq!(g.edge_payload(a, b), Some(&mut 2));
    g.remove_edge(a, b);
    assert_eq!(g.edge_payload(a, b), Some(&mut 1));
    *g.edge_payload(a, b).unwrap() = 7;
    assert_eq!(g.edge_payload(a, b), Some(&mut 7));
    *g.node_payload(a) = ();
    g.remove_edge(a, b);
    assert_eq!(g.edge_payload(a, b), None);
    assert!(!g.contains_edge(a, b));
}
