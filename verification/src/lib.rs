//! Verified decision and data-structure core of the Flynnel scheduler.
//!
//! The scheduler's queues, arenas, classifiers and tables are plain values
//! here, changed by functions with exact contracts; threads, parking, process
//! state and files are the runtime's business. Where threads share memory,
//! the `*_protocol` modules and [`seqlock`] break the operations into single
//! accesses and prove what holds under every interleaving.

pub mod adaptive_backend;
pub mod adaptive_cooperative;
pub mod adaptive_profile;
pub mod adaptive_variant_routing;
pub mod adaptive_worker;
pub mod arena;
pub mod arena_local;
pub mod arena_numa;
pub mod backend;
pub mod bg_calibration;
pub mod bg_zero;
pub mod calibration_store;
pub mod call_site;
pub mod cat;
pub mod chase_lev_local;
pub mod chase_lev_protocol;
pub mod cooperative;
pub mod deque;
pub mod deque_tier;
pub mod dispatch;
pub mod dispatch_profile;
pub mod dual_deque;
pub mod fcl_local;
pub mod fcl_worker;
pub mod flynnel_ring;
pub mod flynnel_ring_composed;
pub mod flynnel_ring_mpsc;
pub mod flynnel_ring_spsc;
pub mod foundation;
pub mod hybrid;
pub mod idempotent;
pub mod io_pool;
pub mod job;
pub mod job_bag;
pub mod k_gating;
pub mod math;
pub mod plan;
pub mod ring_protocol;
pub mod seqlock;
pub mod settings;
pub mod split_observer;
pub mod spsc_protocol;
pub mod text;
pub mod workload_shape;
