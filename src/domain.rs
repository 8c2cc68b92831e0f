use vstd::prelude::*;

use crate::graph::NodeIndex;
use crate::network::NetworkEvent;

verus! {

/// What an agent produces each logic tick.
#[derive(Debug, Clone, Copy, PartialEq, Eq, Structural)]
pub enum ProductionType {
    Hunter,
    Gatherer,
}

/// The domain state of a hunter-gatherer agent.
#[derive(Debug, Clone, Copy, PartialEq, Eq, Structural)]
pub struct LogicComponent {
    pub ptype: ProductionType,
    pub plant: u32,
    pub meat: u32,
    pub alive: bool,
}

/// `n` holds more of one resource and less of the other than `me`.
pub open spec fn complementary(me: LogicComponent, n: LogicComponent) -> bool {
    (n.meat > me.meat && n.plant < me.plant) || (n.meat < me.meat && n.plant > me.plant)
}

/// Position of the first neighbor complementary to `me`, or `ns.len()` if none is.
pub open spec fn first_complementary(me: LogicComponent, ns: Seq<LogicComponent>) -> int
    decreases ns.len(),
{
    if ns.len() == 0 {
        0
    } else if complementary(me, ns[0]) {
        0
    } else {
        1 + first_complementary(me, ns.drop_first())
    }
}

/// `x + y`, held at `u32::MAX`.
pub open spec fn sat_add(x: u32, y: u32) -> u32 {
    if x + y > u32::MAX {
        u32::MAX
    } else {
        (x + y) as u32
    }
}

/// `me` after consuming one of each resource and producing two of its own kind.
pub open spec fn produced(me: LogicComponent) -> LogicComponent {
    let meat = (me.meat - 1) as u32;
    let plant = (me.plant - 1) as u32;
    match me.ptype {
        ProductionType::Hunter => LogicComponent { meat: sat_add(meat, 2), plant, ..me },
        ProductionType::Gatherer => LogicComponent { plant: sat_add(plant, 2), meat, ..me },
    }
}

/// `me` after trading with complementary neighbor `n`: half of each difference moves
/// toward `n`'s side.
pub open spec fn traded(me: LogicComponent, n: LogicComponent) -> LogicComponent {
    if n.meat > me.meat {
        LogicComponent {
            meat: (me.meat + (n.meat - me.meat) / 2) as u32,
            plant: (me.plant - (me.plant - n.plant) / 2) as u32,
            ..me
        }
    } else {
        LogicComponent {
            meat: (me.meat - (me.meat - n.meat) / 2) as u32,
            plant: (me.plant + (n.plant - me.plant) / 2) as u32,
            ..me
        }
    }
}

/// One logic tick of an agent against a snapshot of its neighbors: a dead agent stays
/// as it is; one that has run out of a resource dies; otherwise it consumes and
/// produces, then trades with the first complementary neighbor, if any.
pub open spec fn step_spec(me: LogicComponent, ns: Seq<LogicComponent>) -> LogicComponent {
    if !me.alive {
        me
    } else if me.meat == 0 || me.plant == 0 {
        LogicComponent { alive: false, ..me }
    } else {
        let p = produced(me);
        let k = first_complementary(p, ns);
        if k < ns.len() {
            traded(p, ns[k])
        } else {
            p
        }
    }
}

proof fn lemma_first_complementary_at(me: LogicComponent, ns: Seq<LogicComponent>, k: int)
    requires
        0 <= k <= ns.len(),
        forall|j: int| 0 <= j < k ==> !complementary(me, ns[j]),
        k < ns.len() ==> complementary(me, ns[k]),
    ensures
        first_complementary(me, ns) == k,
    decreases ns.len(),
{
    if ns.len() > 0 && k > 0 {
        assert forall|j: int| 0 <= j < k - 1 implies !complementary(me, ns.drop_first()[j]) by {
            assert(ns.drop_first()[j] == ns[j + 1]);
        }
        lemma_first_complementary_at(me, ns.drop_first(), k - 1);
    }
}

impl LogicComponent {
    /// A fresh agent of the given type with ten of each resource.
    pub fn new(ptype: ProductionType) -> (r: LogicComponent)
        ensures
            r == (LogicComponent { ptype, plant: 10, meat: 10, alive: true }),
    {
        LogicComponent { ptype, plant: 10, meat: 10, alive: true }
    }

    /// The agent after one logic tick against a snapshot of its neighbors.
    pub fn step(&self, neighbors: &Vec<LogicComponent>) -> (r: LogicComponent)
        ensures
            r == step_spec(*self, neighbors@),
    {
        if !self.alive {
            return *self;
        }
        if self.meat == 0 || self.plant == 0 {
            return LogicComponent { alive: false, ..*self };
        }
        let meat = self.meat - 1;
        let plant = self.plant - 1;
        let p = match self.ptype {
            ProductionType::Hunter => LogicComponent { meat: meat.saturating_add(2), plant, ..*self },
            ProductionType::Gatherer => LogicComponent {
                plant: plant.saturating_add(2),
                meat,
                ..*self
            },
        };
        let mut k: usize = 0;
        while k < neighbors.len()
            invariant
                self.alive,
                self.meat != 0,
                self.plant != 0,
                p == produced(*self),
                0 <= k <= neighbors@.len(),
                forall|j: int| 0 <= j < k ==> !complementary(p, neighbors@[j]),
            decreases neighbors@.len() - k,
        {
            let n = neighbors[k];
            if n.meat > p.meat && n.plant < p.plant {
                proof {
                    lemma_first_complementary_at(p, neighbors@, k as int);
                }
                let t = LogicComponent {
                    meat: p.meat + (n.meat - p.meat) / 2,
                    plant: p.plant - (p.plant - n.plant) / 2,
                    ..p
                };
                return t;
            }
            if n.meat < p.meat && n.plant > p.plant {
                proof {
                    lemma_first_complementary_at(p, neighbors@, k as int);
                }
                return LogicComponent {
                    meat: p.meat - (p.meat - n.meat) / 2,
                    plant: p.plant + (n.plant - p.plant) / 2,
                    ..p
                };
            }
            k = k + 1;
        }
        proof {
            lemma_first_complementary_at(p, neighbors@, k as int);
        }
        p
    }
}

/// Requests to remove the relations from `me` to each neighbor of another type, in
/// neighbor order.
pub fn segregate(me: NodeIndex, kind: ProductionType, neighbors: &Vec<(NodeIndex, ProductionType)>) -> (r: Vec<NetworkEvent>)
    ensures
        r@ == neighbors@.filter(|n: (NodeIndex, ProductionType)| n.1 != kind).map_values(
            |n: (NodeIndex, ProductionType)| NetworkEvent::RemoveRelation(me, n.0),
        ),
{
    let mut r: Vec<NetworkEvent> = Vec::new();
    let mut k: usize = 0;
    while k < neighbors.len()
        invariant
            0 <= k <= neighbors@.len(),
            r@ == neighbors@.take(k as int).filter(|n: (NodeIndex, ProductionType)| n.1 != kind).map_values(
                |n: (NodeIndex, ProductionType)| NetworkEvent::RemoveRelation(me, n.0),
            ),
        decreases neighbors@.len() - k,
    {
        let n = neighbors[k];
        proof {
            assert(neighbors@.take(k + 1).drop_last() =~= neighbors@.take(k as int));
            reveal(Seq::filter);
        }
        if n.1 != kind {
            r.push(NetworkEvent::RemoveRelation(me, n.0));
        }
        proof {
            let f = |n: (NodeIndex, ProductionType)| n.1 != kind;
            let g = |n: (NodeIndex, ProductionType)| NetworkEvent::RemoveRelation(me, n.0);
            assert(r@ =~= neighbors@.take(k + 1).filter(f).map_values(g));
        }
        k = k + 1;
    }
    proof {
        assert(neighbors@.take(neighbors@.len() as int) =~= neighbors@);
    }
    r
}

} // verus!
