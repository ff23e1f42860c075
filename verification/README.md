# flynnel

A work-stealing scheduler whose decisions and data structures are verified
with Verus.

- `src/` is the verified library. Queues: `chase_lev_local`, `flynnel_ring`
  and its single-producer, single-consumer and composed forms, `fcl_local`,
  `fcl_worker`, `adaptive_worker`, `dual_deque`. Arenas and dispatch: `arena_local`,
  `arena_numa`, `arena`, `cooperative`, `hybrid`, `dispatch`. Learning:
  `adaptive_profile`, `split_observer`, `call_site`, `adaptive_backend`,
  `adaptive_cooperative`, `adaptive_variant_routing`. Tables and files:
  `calibration_store`, `cat`, `settings`. Interleavings: `ring_protocol`,
  `spsc_protocol`, `chase_lev_protocol`, `seqlock`.
- `app/` is the runtime: worker threads, process state, host probes,
  background jobs, processor and accelerator pairing, the memory-mapped
  calibration table and the cache-way files.
- `tests/` runs the library.

Jobs are conserved: every operation on a deque, an arena or the arenas of a
host states what it does to the multiset of jobs that they hold. The public
proof functions named `law_*` state what holds across operations.
