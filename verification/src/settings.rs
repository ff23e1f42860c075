//! Rules for the settings that a process takes from its environment.

use crate::text::{eq_ignore_ascii_case, parse_number, parsed, same_but_case, to_chars};
use vstd::prelude::*;

verus! {

/// A setting that switches something on.
pub open spec fn means_on(v: Seq<char>) -> bool {
    same_but_case(v, "on"@) || same_but_case(v, "1"@) || same_but_case(v, "true"@)
}

/// A setting that switches something off.
pub open spec fn means_off(v: Seq<char>) -> bool {
    same_but_case(v, "off"@) || same_but_case(v, "0"@) || same_but_case(v, "false"@)
}

/// Whether a setting switches something on.
pub fn is_on(v: &str) -> (res: bool)
    ensures
        res == means_on(v@),
{
    eq_ignore_ascii_case(v, "on") || eq_ignore_ascii_case(v, "1") || eq_ignore_ascii_case(v, "true")
}

/// Whether a setting switches something off.
pub fn is_off(v: &str) -> (res: bool)
    ensures
        res == means_off(v@),
{
    eq_ignore_ascii_case(v, "off") || eq_ignore_ascii_case(v, "0") || eq_ignore_ascii_case(
        v,
        "false",
    )
}

/// Whether workers stay unpinned: unless the setting switches pinning on.
pub fn pin_disabled(setting: Option<&str>) -> (res: bool)
    ensures
        res == match setting {
            Some(v) => !means_on(v@),
            None => true,
        },
{
    match setting {
        Some(v) => !is_on(v),
        None => true,
    }
}

/// The worker count that a setting states, if it is a positive number.
pub open spec fn stated_workers(setting: Option<&str>) -> Option<int> {
    match setting {
        Some(v) => match parsed(v@, 10, usize::MAX as int) {
            Some(n) => if n >= 1 {
                Some(n)
            } else {
                None
            },
            None => None,
        },
        None => None,
    }
}

/// Only physical cores are wanted.
pub open spec fn physical_cores_only(physical_only: Option<&str>, smt: Option<&str>) -> bool {
    (physical_only matches Some(v) && means_on(v@)) || (smt matches Some(w) && means_off(w@))
}

/// Workers per node: the stated count, else none where only physical cores
/// are wanted, else one per logical core of the first node.
pub fn pick_worker_count_per_node(
    workers: Option<&str>,
    physical_only: Option<&str>,
    smt: Option<&str>,
    cpus_node0: usize,
) -> (res: Option<usize>)
    ensures
        match stated_workers(workers) {
            Some(n) => res matches Some(r) && r == n,
            None => res == if physical_cores_only(physical_only, smt) {
                None
            } else if cpus_node0 < 1 {
                Some(1usize)
            } else {
                Some(cpus_node0)
            },
        },
{
    if let Some(v) = workers {
        let chars = to_chars(v);
        proof {
            assert(chars@.subrange(0, chars@.len() as int) =~= v@);
        }
        if let Some(n) = parse_number(&chars, 0, chars.len(), 10, usize::MAX as u64) {
            if n >= 1 {
                return Some(n as usize);
            }
        }
    }
    let physical: bool = match physical_only {
        Some(v) => is_on(v),
        None => false,
    };
    let smt_off: bool = match smt {
        Some(v) => is_off(v),
        None => false,
    };
    if physical || smt_off {
        return None;
    }
    if cpus_node0 < 1 {
        Some(1)
    } else {
        Some(cpus_node0)
    }
}

/// A worker count of at least one that is written out is the stated count;
/// zero and no setting state none.
pub proof fn law_written_counts_are_taken(v: &str, n: usize)
    requires
        v@ == crate::text::decimal(n as nat),
    ensures
        n >= 1 ==> stated_workers(Some(v)) == Some(n as int),
        n == 0 ==> stated_workers(Some(v)) is None,
        stated_workers(None) is None,
{
    crate::text::law_numbers_read_back(n as nat, usize::MAX as int);
}

/// No setting switches a thing both on and off.
pub proof fn law_on_is_not_off(v: Seq<char>)
    ensures
        !(means_on(v) && means_off(v)),
        means_on("on"@) && means_on("1"@) && means_on("true"@),
        means_off("off"@) && means_off("0"@) && means_off("false"@),
{
    reveal_strlit("on");
    reveal_strlit("1");
    reveal_strlit("true");
    reveal_strlit("off");
    reveal_strlit("0");
    reveal_strlit("false");
    if means_on(v) && means_off(v) {
        if v.len() == 1 {
            assert(crate::text::lower(v[0]) == '1' && crate::text::lower(v[0]) == '0');
        }
    }
}

} // verus!
