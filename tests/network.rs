use agent_network::domain::{segregate, LogicComponent, ProductionType};
use agent_network::graph::NodeIndex;
use agent_network::network::{relax_continues, Network, NetworkEvent};

fn table(n: usize, v: bool) -> Vec<Vec<bool>> {
    (0..n).map(|i| vec![v; n - 1 - i]).collect()
}

#[test]
fn random_with_no_links_has_no_relations() {
    let agents: Vec<u32> = (0..7).collect();
    let net = Network::build(agents, &table(7, false), ());
    assert_eq!(net.num_agents(), 7);
    assert_eq!(net.num_relations(), 0);
}

#[test]
fn random_with_all_links_is_complete() {
    let n = 7;
    let agents: Vec<u32> = (0..n as u32).collect();
    let net = Network::build(agents, &table(n, true), ());
    assert_eq!(net.num_agents(), n);
    assert_eq!(net.num_relations(), n * (n - 1));
    for i in 0..n {
        let a = net.agent_at(i);
        assert_eq!(*net.agent(a), i as u32);
        assert_eq!(net.neighbors(a).len(), n - 1);
    }
}

#[test]
fn build_links_chosen_pairs_both_ways() {
    // pairs (0,1) and (1,2) only
    let links = vec![vec![true, false], vec![true], vec![]];
    let net = Network::build(vec![10u8, 11, 12], &links, ());
    assert_eq!(net.num_relations(), 4);
    let a = net.agent_at(0);
    let b = net.agent_at(1);
    let c = net.agent_at(2);
    assert_eq!(net.neighbors(a), vec![b]);
    assert_eq!(net.neighbors(c), vec![b]);
    let nb = net.neighbors(b);
    assert_eq!(nb.len(), 2);
    assert!(nb.contains(&a) && nb.contains(&c));
}

#[test]
fn relaxation_with_no_budget_runs_no_tick() {
    assert!(!relax_continues(0, 0, true));
    assert!(relax_continues(0, 1, true));
    assert!(!relax_continues(1, 1, true));
    assert!(!relax_continues(0, 5, false));
}

#[test]
fn apply_events_removes_one_relation() {
    let net_links = vec![vec![true], vec![]];
    let mut net = Network::build(vec![1u8, 2], &net_links, ());
    let a = net.agent_at(0);
    let b = net.agent_at(1);
    net.apply_events(&vec![NetworkEvent::RemoveRelation(a, b)]);
    assert_eq!(net.num_relations(), 1);
    assert_eq!(net.neighbors(a), Vec::<NodeIndex>::new());
    assert_eq!(net.neighbors(b), vec![a]);
}

#[test]
fn logic_tick_reads_the_state_before_the_sweep() {
    // a path 0 - 1 - 2; every agent takes the sum of its neighbors
    let links = vec![vec![true, false], vec![true], vec![]];
    let mut net = Network::build(vec![1u32, 10, 100], &links, ());
    let update = |_i: NodeIndex, _a: u32, v: Vec<(NodeIndex, u32)>| -> (u32, Vec<NetworkEvent>) {
        let mut s: u32 = 0;
        for (_, x) in v.iter() {
            s = s.wrapping_add(*x);
        }
        (s, vec![])
    };
    net.logic_tick(&update);
    let vals: Vec<u32> = (0..3).map(|i| *net.agent(net.agent_at(i))).collect();
    assert_eq!(vals, vec![10, 101, 10]);
    assert_eq!(net.num_relations(), 4);
}

#[test]
fn logic_tick_applies_requests_after_the_sweep() {
    let links = vec![vec![true, true], vec![true], vec![]];
    let mut net = Network::build(vec![0u8, 1, 0], &links, ());
    let update = |i: NodeIndex, a: u8, v: Vec<(NodeIndex, u8)>| -> (u8, Vec<NetworkEvent>) {
        let mut evs = Vec::new();
        for (j, x) in v.iter() {
            if *x != a {
                evs.push(NetworkEvent::RemoveRelation(i, *j));
            }
        }
        (a, evs)
    };
    net.logic_tick(&update);
    // only the relations between the two agents holding 0 are left
    assert_eq!(net.num_relations(), 2);
    let b = net.agent_at(1);
    assert!(net.neighbors(b).is_empty());
}

#[test]
fn agent_mut_changes_payload() {
    let mut net = Network::<u32, ()>::new();
    let a = net.add_agent(5);
    *net.agent_mut(a) = 9;
    assert_eq!(*net.agent(a), 9);
    let b = net.add_agent(6);
    net.add_relation(a, b, ());
    assert_eq!(net.num_relations(), 1);
    assert_eq!(net.snapshot(a), vec![(b, 6)]);
}

#[test]
fn hunter_step_consumes_and_produces() {
    let me = LogicComponent::new(ProductionType::Hunter);
    let r = me.step(&vec![]);
    assert_eq!(r, LogicComponent { ptype: ProductionType::Hunter, plant: 9, meat: 11, alive: true });
    let g = LogicComponent::new(ProductionType::Gatherer).step(&vec![]);
    assert_eq!(g.plant, 11);
    assert_eq!(g.meat, 9);
}

#[test]
fn step_dies_when_a_resource_runs_out() {
    let me = LogicComponent { ptype: ProductionType::Gatherer, plant: 5, meat: 0, alive: true };
    let r = me.step(&vec![]);
    assert!(!r.alive);
    assert_eq!(r.step(&vec![]), r);
}

#[test]
fn step_trades_with_first_complementary_neighbor() {
    let me = LogicComponent { ptype: ProductionType::Hunter, plant: 10, meat: 10, alive: true };
    // after producing: meat 11, plant 9
    let same = LogicComponent { ptype: ProductionType::Hunter, plant: 20, meat: 20, alive: true };
    let rich_in_plant = LogicComponent { ptype: ProductionType::Gatherer, plant: 19, meat: 5, alive: true };
    let other = LogicComponent { ptype: ProductionType::Gatherer, plant: 1, meat: 30, alive: true };
    let r = me.step(&vec![same, rich_in_plant, other]);
    assert_eq!(r.meat, 11 - (11 - 5) / 2);
    assert_eq!(r.plant, 9 + (19 - 9) / 2);
}

#[test]
fn segregate_requests_removal_of_other_types() {
    let me = NodeIndex(0);
    let ns = vec![
        (NodeIndex(1), ProductionType::Hunter),
        (NodeIndex(2), ProductionType::Gatherer),
        (NodeIndex(3), ProductionType::Gatherer),
    ];
    let evs = segregate(me, ProductionType::Hunter, &ns);
    assert_eq!(
        evs,
        vec![NetworkEvent::RemoveRelation(me, NodeIndex(2)), NetworkEvent::RemoveRelation(me, NodeIndex(3))]
    );
}

#[test]
fn complete_build_relates_each_pair_once_each_way_without_self_loops() {
    let n = 5;
    let agents: Vec<u32> = (0..n as u32).collect();
    let net = Network::build(agents, &table(n, true), 7u8);
    for i in 0..n {
        let a = net.agent_at(i);
        let nb = net.neighbors(a);
        assert!(!nb.contains(&a));
        for j in 0..n {
            if j != i {
                let b = net.agent_at(j);
                assert_eq!(nb.iter().filter(|&&x| x == b).count(), 1);
            }
        }
    }
}

#[test]
fn build_without_links_relates_no_one() {
    let net = Network::build(vec![1u8, 2, 3, 4], &table(4, false), ());
    for i in 0..4 {
        assert!(net.neighbors(net.agent_at(i)).is_empty());
    }
}

#[test]
fn add_agent_leaves_relations_alone() {
    let links = vec![vec![true], vec![]];
    let mut net = Network::build(vec![1u8, 2], &links, ());
    let c = net.add_agent(3);
    assert_eq!(net.num_relations(), 2);
    assert_eq!(net.num_agents(), 3);
    assert!(net.neighbors(c).is_empty());
    for i in 0..2 {
        assert!(!net.neighbors(net.agent_at(i)).contains(&c));
    }
}

#[test]
fn look_tick_maps_every_payload_and_keeps_relations() {
    let links = vec![vec![true, false], vec![true], vec![]];
    let mut net = Network::build(vec![1u32, 2, 3], &links, ());
    let double = |a: u32| -> u32 { a.wrapping_mul(2) };
    net.look_tick(&double);
    let vals: Vec<u32> = (0..3).map(|i| *net.agent(net.agent_at(i))).collect();
    assert_eq!(vals, vec![2, 4, 6]);
    assert_eq!(net.num_relations(), 4);
}
