//! How a list of closures is spread over the workers, switchable at any time.

use vstd::prelude::*;

verus! {

/// Routing of a cooperative join.
#[derive(Debug, Clone, Copy, PartialEq, Eq, Hash, Structural)]
pub enum CooperativeRouting {
    /// Defer to the next layer: the plan to the process, the process to the
    /// population of the pool.
    Auto,
    /// Bisect the list.
    ForceTree,
    /// Hand each closure to a worker's mailbox.
    ForceMailbox,
    /// Push all closures to the caller's deque.
    ForceDeque,
}

impl Default for CooperativeRouting {
    fn default() -> (res: CooperativeRouting)
        ensures
            res == CooperativeRouting::Auto,
    {
        CooperativeRouting::Auto
    }
}

/// The process-wide routing's tag.
#[derive(Debug, Clone, Copy, PartialEq, Eq, Structural)]
pub struct ActiveCooperative {
    /// The tag.
    pub tag: u8,
}

/// Routing of a tag; unknown tags defer.
pub open spec fn tagged_routing(tag: u8) -> CooperativeRouting {
    if tag == 1 {
        CooperativeRouting::ForceTree
    } else if tag == 2 {
        CooperativeRouting::ForceMailbox
    } else if tag == 3 {
        CooperativeRouting::ForceDeque
    } else {
        CooperativeRouting::Auto
    }
}

impl ActiveCooperative {
    /// The routing in effect.
    pub open spec fn routing(&self) -> CooperativeRouting {
        tagged_routing(self.tag)
    }

    /// Defers to the population of the pool.
    pub fn new() -> (res: ActiveCooperative)
        ensures
            res.routing() == CooperativeRouting::Auto,
    {
        ActiveCooperative { tag: 0 }
    }
}

/// The routing in effect.
pub fn active_cooperative_routing(active: &ActiveCooperative) -> (res: CooperativeRouting)
    ensures
        res == active.routing(),
{
    match active.tag {
        1 => CooperativeRouting::ForceTree,
        2 => CooperativeRouting::ForceMailbox,
        3 => CooperativeRouting::ForceDeque,
        _ => CooperativeRouting::Auto,
    }
}

/// Puts another routing in effect.
pub fn migrate_cooperative_routing(active: &mut ActiveCooperative, routing: CooperativeRouting)
    ensures
        final(active).routing() == routing,
{
    active.tag = match routing {
        CooperativeRouting::Auto => 0,
        CooperativeRouting::ForceTree => 1,
        CooperativeRouting::ForceMailbox => 2,
        CooperativeRouting::ForceDeque => 3,
    };
}

/// The shape that a cooperative join takes.
#[derive(Debug, Clone, Copy, PartialEq, Eq, Structural)]
pub enum CooperativeShape {
    /// Bisect the list.
    Tree,
    /// Hand each closure to a worker's mailbox.
    FlatMailbox,
    /// Push all closures to the caller's deque.
    FlatDeque,
}

/// The shape of a join of `n` closures: fewer than three bisect; else the
/// plan's routing decides unless it defers, else the process-wide one, else
/// the population: a list that cannot occupy every worker bisects.
pub open spec fn shape_spec(
    n: int,
    plan: CooperativeRouting,
    active: CooperativeRouting,
    n_workers: int,
) -> CooperativeShape {
    let routing = if plan == CooperativeRouting::Auto { active } else { plan };
    if n < 3 {
        CooperativeShape::Tree
    } else {
        match routing {
            CooperativeRouting::ForceTree => CooperativeShape::Tree,
            CooperativeRouting::ForceMailbox => CooperativeShape::FlatMailbox,
            CooperativeRouting::ForceDeque => CooperativeShape::FlatDeque,
            CooperativeRouting::Auto => if n < n_workers {
                CooperativeShape::Tree
            } else {
                CooperativeShape::FlatMailbox
            },
        }
    }
}

/// The shape of a join of `n` closures.
pub fn cooperative_shape(
    n: usize,
    plan: CooperativeRouting,
    active: CooperativeRouting,
    n_workers: usize,
) -> (res: CooperativeShape)
    ensures
        res == shape_spec(n as int, plan, active, n_workers as int),
{
    if n < 3 {
        return CooperativeShape::Tree;
    }
    let routing = match plan {
        CooperativeRouting::Auto => active,
        other => other,
    };
    match routing {
        CooperativeRouting::ForceTree => CooperativeShape::Tree,
        CooperativeRouting::ForceMailbox => CooperativeShape::FlatMailbox,
        CooperativeRouting::ForceDeque => CooperativeShape::FlatDeque,
        CooperativeRouting::Auto => if n < n_workers {
            CooperativeShape::Tree
        } else {
            CooperativeShape::FlatMailbox
        },
    }
}

/// A plan that names a routing has it whatever the process-wide routing and
/// the pool are.
pub proof fn law_plan_routing_wins(
    n: int,
    plan: CooperativeRouting,
    active1: CooperativeRouting,
    active2: CooperativeRouting,
    workers1: int,
    workers2: int,
)
    requires
        plan != CooperativeRouting::Auto,
    ensures
        shape_spec(n, plan, active1, workers1) == shape_spec(n, plan, active2, workers2),
{
}

/// What shape a list of closures takes: fewer than three bisect; a routing that
/// the plan forces, else one that the process forces, is followed; and without
/// one, lists shorter than the pool bisect and others go to the mailboxes.
pub proof fn law_shape_follows_the_routing(
    n: int,
    plan: CooperativeRouting,
    active: CooperativeRouting,
    n_workers: int,
)
    ensures
        n < 3 ==> shape_spec(n, plan, active, n_workers) == CooperativeShape::Tree,
        n >= 3 ==> shape_spec(n, CooperativeRouting::ForceTree, active, n_workers)
            == CooperativeShape::Tree && shape_spec(
            n,
            CooperativeRouting::ForceMailbox,
            active,
            n_workers,
        ) == CooperativeShape::FlatMailbox && shape_spec(
            n,
            CooperativeRouting::ForceDeque,
            active,
            n_workers,
        ) == CooperativeShape::FlatDeque,
        shape_spec(n, CooperativeRouting::Auto, active, n_workers) == shape_spec(
            n,
            active,
            CooperativeRouting::Auto,
            n_workers,
        ),
        n >= 3 ==> (shape_spec(n, CooperativeRouting::Auto, CooperativeRouting::Auto, n_workers)
            == CooperativeShape::Tree <==> n < n_workers),
        n >= 3 && n >= n_workers ==> shape_spec(
            n,
            CooperativeRouting::Auto,
            CooperativeRouting::Auto,
            n_workers,
        ) == CooperativeShape::FlatMailbox,
{
}

} // verus!
