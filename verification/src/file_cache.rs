//! Which open file to close when the cache of open files is full: the one whose last uses
//! lie furthest back, a file used one way only counting three times its age.
use vstd::prelude::*;

verus! {

/// Number of files kept open at most.
pub const FILE_CACHE_SIZE: usize = 16;

/// When a cached file was last read and last written (milliseconds), if ever.
#[derive(Debug, Clone, Copy, PartialEq, Eq, Structural)]
pub struct CacheUse {
    pub read: Option<u64>,
    pub write: Option<u64>,
}

/// Time since `t` at `now`; nothing when `t` lies ahead.
pub open spec fn elapsed(t: u64, now: u64) -> int {
    if now >= t {
        now - t
    } else {
        0
    }
}

/// How long a file has gone unused: the ages of its last read and its last write added, or
/// three times the age of the one use it had; above any such value when it was never used.
pub open spec fn weighted_elapsed(u: CacheUse, now: u64) -> int {
    match (u.read, u.write) {
        (Some(r), Some(w)) => elapsed(r, now) + elapsed(w, now),
        (Some(r), None) => 3 * elapsed(r, now),
        (None, Some(w)) => 3 * elapsed(w, now),
        (None, None) => 4 * 0x1_0000_0000_0000_0000int,
    }
}

/// A file must leave the cache before `path` is opened: the cache is full and does not
/// hold `path`.
pub fn needs_eviction(cached: usize, holds_path: bool) -> (r: bool)
    ensures
        r == (cached == FILE_CACHE_SIZE && !holds_path),
{
    cached == FILE_CACHE_SIZE && !holds_path
}

fn weight(u: &CacheUse, now: u64) -> (r: u128)
    ensures
        r == weighted_elapsed(*u, now),
{
    let el = |t: u64| -> (e: u128)
        ensures
            e == elapsed(t, now),
        {
            if now >= t {
                (now - t) as u128
            } else {
                0
            }
        };
    match (u.read, u.write) {
        (Some(r), Some(w)) => el(r) + el(w),
        (Some(r), None) => 3 * el(r),
        (None, Some(w)) => 3 * el(w),
        (None, None) => 4 * 0x1_0000_0000_0000_0000u128,
    }
}

/// The file to close among those with the uses `uses` at `now`: one that has gone unused
/// longest by `weighted_elapsed`; `None` when there is none.
pub fn entry_to_evict(uses: &Vec<CacheUse>, now: u64) -> (r: Option<usize>)
    ensures
        r is None <==> uses@.len() == 0,
        r matches Some(i) ==> i < uses@.len() && forall|j: int|
            0 <= j < uses@.len() ==> weighted_elapsed(#[trigger] uses@[j], now) <= weighted_elapsed(
                uses@[i as int],
                now,
            ),
{
    if uses.len() == 0 {
        return None;
    }
    let mut best: usize = 0;
    let mut best_w = weight(&uses[0], now);
    let mut i: usize = 1;
    while i < uses.len()
        invariant
            1 <= i <= uses@.len(),
            best < uses@.len(),
            best_w == weighted_elapsed(uses@[best as int], now),
            forall|j: int| 0 <= j < i ==> weighted_elapsed(#[trigger] uses@[j], now) <= best_w,
        decreases uses@.len() - i,
    {
        let w = weight(&uses[i], now);
        if w > best_w {
            best = i;
            best_w = w;
        }
        i += 1;
    }
    Some(best)
}

} // verus!
