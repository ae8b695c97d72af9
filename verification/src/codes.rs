//! Counts by number.

use std::collections::BTreeMap;

use vstd::prelude::*;

verus! {

broadcast use vstd::laws_cmp::group_laws_cmp;

/// The count of a number, zero where there is none.
pub open spec fn code_count(m: Map<u16, u64>, k: u16) -> u64 {
    if m.dom().contains(k) {
        m[k]
    } else {
        0
    }
}

/// The counts after a number occurred once more.
pub open spec fn code_counted(m: Map<u16, u64>, k: u16) -> Map<u16, u64> {
    m.insert(k, (code_count(m, k) + 1) as u64)
}

/// Count a number once more.
pub fn bump(m: &mut BTreeMap<u16, u64>, k: u16)
    requires
        code_count(old(m)@, k) < u64::MAX,
    ensures
        final(m)@ == code_counted(old(m)@, k),
{
    let n: u64 = match m.get(&k) {
        Some(n) => *n,
        None => 0,
    };
    m.insert(k, n + 1);
}

} // verus!
