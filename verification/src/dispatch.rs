//! One dispatcher for every kind of workload.

use crate::adaptive_backend::{
    active_backend_id, cut_to_tag, migrate_backend, resolve_active_backend, ActiveBackend,
};
use crate::adaptive_profile::{
    active_dispatch_profile, class_profile, migrate_dispatch_profile, migrate_workload_class,
    profile_tag, ProfileState, WorkloadClass,
};
use crate::arena_local::{retagged_ctx, Arena, Ctx};
use crate::arena_numa::{Numa, NumaArena};
use crate::backend::{Backend, BackendRegistry};
use crate::cooperative::{
    callable, cooperative_join_n_flat, cooperative_join_n_flat_mailbox, results_of,
};
use crate::dispatch_profile::DispatchProfile;
use crate::foundation::Variant;
use crate::k_gating::KGating;
use crate::plan::{default_plan, JobPlan};
use crate::workload_shape::WorkloadShape;
use vstd::prelude::*;

verus! {

/// What a caller says of its workload, and the entry points that act on it.
#[derive(Debug, Clone, Copy, PartialEq, Eq, Structural)]
pub struct AdaptiveDispatcher {
    /// The workload.
    pub shape: WorkloadShape,
    /// Correctness tier.
    pub variant: Variant,
    /// Binary logarithm of the operand size.
    pub k_outer: u8,
    /// Whether siblings are to take part.
    pub use_smt: bool,
    /// The caller's own class, before the process-wide one.
    pub explicit_class: Option<WorkloadClass>,
}

/// The plan of a dispatcher for so many items under a process-wide profile.
pub open spec fn plan_of(d: AdaptiveDispatcher, profile: DispatchProfile, batch_size: u32) -> JobPlan {
    JobPlan {
        variant: d.variant,
        use_smt: d.use_smt,
        profile: match d.explicit_class {
            Some(c) => class_profile(c),
            None => profile,
        },
        profile_explicit: d.explicit_class is Some,
        shape: Some(d.shape),
        ..default_plan(d.k_outer, batch_size)
    }
}

impl AdaptiveDispatcher {
    /// Stealable pieces over so many workers, bit-faithful, without siblings.
    pub fn new(n_cpus: u32) -> (res: AdaptiveDispatcher)
        ensures
            res == (AdaptiveDispatcher {
                shape: WorkloadShape::WorkSteal { n_consumers: n_cpus, batch_size: 256 },
                variant: Variant::Faithful,
                k_outer: 4,
                use_smt: false,
                explicit_class: None,
            }),
    {
        AdaptiveDispatcher {
            shape: WorkloadShape::WorkSteal { n_consumers: n_cpus, batch_size: 256 },
            variant: Variant::Faithful,
            k_outer: 4,
            use_smt: false,
            explicit_class: None,
        }
    }

    /// With a description of the workload.
    pub fn with_shape(self, shape: WorkloadShape) -> (res: AdaptiveDispatcher)
        ensures
            res == (AdaptiveDispatcher { shape, ..self }),
    {
        AdaptiveDispatcher { shape, ..self }
    }

    /// With a correctness tier.
    pub fn with_variant(self, variant: Variant) -> (res: AdaptiveDispatcher)
        ensures
            res == (AdaptiveDispatcher { variant, ..self }),
    {
        AdaptiveDispatcher { variant, ..self }
    }

    /// With an operand size.
    pub fn with_k_outer(self, k_outer: u8) -> (res: AdaptiveDispatcher)
        ensures
            res == (AdaptiveDispatcher { k_outer, ..self }),
    {
        AdaptiveDispatcher { k_outer, ..self }
    }

    /// With siblings.
    pub fn with_smt(self) -> (res: AdaptiveDispatcher)
        ensures
            res == (AdaptiveDispatcher { use_smt: true, ..self }),
    {
        AdaptiveDispatcher { use_smt: true, ..self }
    }

    /// With a class of its own.
    pub fn with_workload_class(self, class: WorkloadClass) -> (res: AdaptiveDispatcher)
        ensures
            res == (AdaptiveDispatcher { explicit_class: Some(class), ..self }),
    {
        AdaptiveDispatcher { explicit_class: Some(class), ..self }
    }

    /// The plan for so many items: tuned for the caller's class, else for the
    /// process-wide profile.
    pub fn build_plan(&self, state: &ProfileState, batch_size: u32) -> (res: JobPlan)
        ensures
            res == plan_of(*self, state.profile(), batch_size),
    {
        let profile = match self.explicit_class {
            Some(c) => c.to_dispatch_profile(),
            None => active_dispatch_profile(state),
        };
        let explicit: bool = match self.explicit_class {
            Some(_) => true,
            None => false,
        };
        let plan = JobPlan::new(self.k_outer, batch_size).with_profile(
            profile,
            explicit,
        ).with_variant(self.variant).with_workload_shape(self.shape);
        if self.use_smt {
            plan.with_smt()
        } else {
            plan
        }
    }

    /// Runs a list of closures cooperatively. The results come in the order
    /// of the closures.
    pub fn execute_cooperative<R: Send, F: FnOnce() -> R + Send>(
        self,
        state: &ProfileState,
        closures: Vec<F>,
    ) -> (res: Vec<R>)
        requires
            callable::<R, F>(closures@),
        ensures
            results_of::<R, F>(closures@, res@),
    {
        let plan = self.build_plan(
            state,
            #[verifier::truncate]
            (closures.len() as u32),
        );
        cooperative_join_n_flat(&plan, closures)
    }

    /// Runs a list of closures over the workers' mailboxes. The results come
    /// in the order of the closures.
    pub fn execute_cooperative_mailbox<R: Send, F: FnOnce() -> R + Send>(
        self,
        state: &ProfileState,
        closures: Vec<F>,
    ) -> (res: Vec<R>)
        requires
            callable::<R, F>(closures@),
        ensures
            results_of::<R, F>(closures@, res@),
    {
        let plan = self.build_plan(
            state,
            #[verifier::truncate]
            (closures.len() as u32),
        ).with_mailbox_routing(true);
        cooperative_join_n_flat_mailbox(&plan, closures)
    }

    /// Runs one closure on the calling thread.
    pub fn execute_streaming<R: Send, F: FnOnce() -> R + Send>(self, op: F) -> (res: R)
        requires
            call_requires(op, ()),
        ensures
            call_ensures(op, (), res),
    {
        op()
    }

    /// Runs `work` for every number below `count`, and says whether the
    /// processor stood in for the active backend.
    pub fn execute_indexed<F: Fn(u32) + Send + Sync>(
        self,
        active: &ActiveBackend,
        registry: &BackendRegistry,
        count: u32,
        work: F,
    ) -> (res: bool)
        requires
            forall|i: u32| i < count ==> #[trigger] call_requires(work, (i,)),
        ensures
            res == !registry.has(active.backend()),
            forall|i: u32| i < count ==> #[trigger] call_ensures(work, (i,), ()),
    {
        let (_, fell_back) = resolve_active_backend(active, registry);
        let mut i: u32 = 0;
        while i < count
            invariant
                i <= count,
                forall|k: u32| k < count ==> #[trigger] call_requires(work, (k,)),
                forall|k: u32| k < i ==> #[trigger] call_ensures(work, (k,), ()),
            decreases count - i,
        {
            work(i);
            i += 1;
        }
        fell_back
    }

    /// Switches the publication discipline of every worker.
    pub fn migrate_k_gating(&self, numa: &mut NumaArena, gating: KGating)
        requires
            old(numa).wf(),
        ensures
            final(numa).wf(),
            final(numa)@ == (Numa {
                nodes: old(numa)@.nodes.map_values(
                    |a: Arena|
                        Arena { ctxs: a.ctxs.map_values(|c: Ctx| retagged_ctx(c, gating)), ..a },
                ),
                ..old(numa)@
            }),
    {
        numa.migrate_all_workers_k_gating(gating);
    }

    /// Makes a profile the process-wide one.
    pub fn migrate_dispatch_profile(&self, state: &mut ProfileState, profile: DispatchProfile)
        ensures
            *final(state) == (ProfileState { active_tag: profile_tag(profile), ..*old(state) }),
            final(state).profile() == profile,
    {
        migrate_dispatch_profile(state, profile);
    }

    /// Makes a class's profile the process-wide one.
    pub fn migrate_workload_class(&self, state: &mut ProfileState, class: WorkloadClass)
        ensures
            *final(state) == (ProfileState {
                active_tag: profile_tag(class_profile(class)),
                ..*old(state)
            }),
            final(state).profile() == class_profile(class),
    {
        migrate_workload_class(state, class);
    }

    /// The process-wide profile.
    pub fn active_dispatch_profile(&self, state: &ProfileState) -> (res: DispatchProfile)
        ensures
            res == state.profile(),
    {
        active_dispatch_profile(state)
    }

    /// Sends dispatches to another backend.
    pub fn migrate_backend(&self, active: &mut ActiveBackend, backend: Backend)
        ensures
            final(active).backend() == cut_to_tag(backend),
    {
        migrate_backend(active, backend);
    }

    /// The backend that dispatches go to.
    pub fn active_backend_id(&self, active: &ActiveBackend) -> (res: Backend)
        ensures
            res == active.backend(),
    {
        active_backend_id(active)
    }

    /// The active backend if it is registered, else the processor; and
    /// whether the processor stands in.
    pub fn resolve_active_backend(&self, active: &ActiveBackend, registry: &BackendRegistry) -> (res: (
        Backend,
        bool,
    ))
        ensures
            registry.has(active.backend()) ==> res == (active.backend(), false),
            !registry.has(active.backend()) ==> res == (Backend::Cpu, true),
    {
        resolve_active_backend(active, registry)
    }

    /// Runs `op` over the items in place.
    pub fn execute_for_each<T: Send, F: Fn(&mut [T]) + Sync + Send>(self, items: &mut [T], op: F)
        requires
            forall|s: &mut [T]| s@ == old(items)@ ==> #[trigger] call_requires(op, (s,)),
        ensures
            exists|s: &mut [T]|
                s@ == old(items)@ && final(s)@ == final(items)@ && #[trigger] call_ensures(
                    op,
                    (s,),
                    (),
                ),
    {
        op(items);
    }
}

/// A dispatcher with a class of its own is tuned for it whatever the
/// process-wide profile is; one without follows the process.
pub proof fn law_own_class_wins(
    d: AdaptiveDispatcher,
    p1: DispatchProfile,
    p2: DispatchProfile,
    batch_size: u32,
)
    ensures
        d.explicit_class is Some ==> plan_of(d, p1, batch_size) == plan_of(d, p2, batch_size),
        d.explicit_class is None ==> plan_of(d, p1, batch_size).profile == p1,
{
}

/// A dispatcher's plan says what the caller said: the size, the correctness
/// tier, the siblings and the workload; and the caller's class marks the
/// profile as chosen.
pub proof fn law_plan_says_what_the_caller_said(
    d: AdaptiveDispatcher,
    p: DispatchProfile,
    batch_size: u32,
)
    ensures
        plan_of(d, p, batch_size).k_outer == d.k_outer,
        plan_of(d, p, batch_size).batch_size == batch_size,
        plan_of(d, p, batch_size).variant == d.variant,
        plan_of(d, p, batch_size).use_smt == d.use_smt,
        plan_of(d, p, batch_size).shape == Some(d.shape),
        plan_of(d, p, batch_size).profile_explicit <==> d.explicit_class is Some,
        d.explicit_class == Some(WorkloadClass::LatencyBound) ==> plan_of(d, p, batch_size).profile
            == DispatchProfile::LatencyBound,
        d.explicit_class == Some(WorkloadClass::FineGrain) ==> plan_of(d, p, batch_size).profile
            == DispatchProfile::PortBound,
{
}

} // verus!
