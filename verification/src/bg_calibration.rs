//! Calibration in the background.

use crate::io_pool::IoPool;
use vstd::prelude::*;

verus! {

/// Queues calibration jobs in order; does nothing where the pool is disabled.
pub fn spawn_calibration<F: FnOnce() + Send>(pool: &mut IoPool<F>, closures: Vec<F>)
    ensures
        final(pool).takes_jobs() == old(pool).takes_jobs(),
        final(pool).waiting() == if old(pool).takes_jobs() {
            old(pool).waiting() + closures@
        } else {
            old(pool).waiting()
        },
{
    if !pool.is_enabled() {
        return;
    }
    let ghost start = pool.waiting();
    let ghost all = closures@;
    let mut left = closures;
    proof {
        assert(start + all.subrange(0, 0) =~= start);
        assert(all.subrange(0, all.len() as int) =~= all);
    }
    while left.len() > 0
        invariant
            pool.takes_jobs(),
            left@.len() <= all.len(),
            left@ == all.subrange(all.len() - left@.len(), all.len() as int),
            pool.waiting() == start + all.subrange(0, all.len() - left@.len()),
        decreases left@.len(),
    {
        let ghost k = all.len() - left@.len();
        proof {
            assert(left@[0] == all[k]);
        }
        let c = left.remove(0);
        pool.submit(c);
        proof {
            assert(left@ =~= all.subrange(k + 1, all.len() as int));
            assert(pool.waiting() =~= start + all.subrange(0, k + 1));
        }
    }
    proof {
        assert(all.subrange(0, all.len() - left@.len()) =~= all);
    }
}

} // verus!
