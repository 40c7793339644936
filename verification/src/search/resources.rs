//! Budgets and counters for search routines.
//!
//! Searches can explode combinatorially. Solvers count states, edges, cached moves and steps
//! against [`ResourceLimits`] and fail with a structured [`SearchError`] when a budget is
//! exceeded, instead of running out of memory.

use vstd::prelude::*;

use crate::scenario::{zero_counts, ResourceCounts, ResourceLimits, SearchError};
use crate::search::store::{StateLists, StateSet};

verus! {

/// `a + b`, saturating at `u64::MAX`.
pub open spec fn sat_add(a: u64, b: u64) -> u64 {
    if a + b > u64::MAX {
        u64::MAX
    } else {
        (a + b) as u64
    }
}

/// `a - b`, saturating at zero.
pub open spec fn sat_sub(a: u64, b: u64) -> u64 {
    if a < b {
        0
    } else {
        (a - b) as u64
    }
}

/// The outcome of raising a counter to `observed` against `limit`.
pub open spec fn bump_outcome(
    stage: &'static str,
    metric: &'static str,
    limit: u64,
    observed: u64,
    counts: ResourceCounts,
) -> Result<(), SearchError> {
    if observed > limit {
        Err(SearchError::LimitExceeded { stage, metric, limit, observed, counts })
    } else {
        Ok(())
    }
}

/// `e` reports a counter that went past one of the limits in `limits` (a count that saturated
/// at `u64::MAX` against a limit of `u64::MAX` counts as past it).
pub open spec fn over_budget(limits: ResourceLimits, e: SearchError) -> bool {
    match e {
        SearchError::LimitExceeded { limit, observed, .. } => {
            &&& (observed > limit || (observed == u64::MAX && limit == u64::MAX))
            &&& (limit == limits.max_states as u64 || limit == limits.max_edges as u64
                || limit == limits.max_cache_entries as u64 || limit == limits.max_cached_moves as u64
                || limit == limits.max_runtime_steps)
        },
        _ => false,
    }
}

/// Some counter of `t` is past its limit.
pub open spec fn counts_over(t: ResourceTracker) -> bool {
    let c = t.counts_spec();
    let l = t.limits_spec();
    ||| c.states > l.max_states as u64
    ||| c.edges > l.max_edges as u64
    ||| c.cache_entries > l.max_cache_entries as u64
    ||| c.cached_moves > l.max_cached_moves as u64
    ||| c.runtime_steps > l.max_runtime_steps
}

/// `e` reports a counter past one of the limits in `limits`, or a failed allocation.
pub open spec fn over_budget_or_alloc(limits: ResourceLimits, e: SearchError) -> bool {
    over_budget(limits, e) || e is AllocationFailed
}

/// The counters that a tracker keeps.
#[derive(Clone, Copy)]
enum Metric {
    States,
    Edges,
    CacheEntries,
    CachedMoves,
    Steps,
}

/// Tracks the counters of one search against its limits.
#[derive(Debug, Clone, Copy)]
pub struct ResourceTracker {
    limits: ResourceLimits,
    counts: ResourceCounts,
}

impl ResourceTracker {
    /// The limits.
    pub closed spec fn limits_spec(&self) -> ResourceLimits {
        self.limits
    }

    /// The current counters.
    pub closed spec fn counts_spec(&self) -> ResourceCounts {
        self.counts
    }

    /// A tracker with all counters at zero.
    pub fn new(limits: ResourceLimits) -> (t: ResourceTracker)
        ensures
            t.limits_spec() == limits,
            t.counts_spec() == zero_counts(),
    {
        ResourceTracker { limits, counts: ResourceCounts::default() }
    }

    /// The current counters.
    pub fn counts(&self) -> (c: ResourceCounts)
        ensures
            c == self.counts_spec(),
    {
        self.counts
    }

    fn bump(&mut self, stage: &'static str, metric: Metric, delta: u64) -> (r: Result<(), SearchError>)
        ensures
            final(self).limits_spec() == old(self).limits_spec(),
            match metric {
                Metric::States => {
                    &&& final(self).counts_spec() == (ResourceCounts {
                        states: sat_add(old(self).counts_spec().states, delta),
                        ..old(self).counts_spec()
                    })
                    &&& r == bump_outcome(stage, "states", old(self).limits_spec().max_states as u64,
                        final(self).counts_spec().states, final(self).counts_spec())
                },
                Metric::Edges => {
                    &&& final(self).counts_spec() == (ResourceCounts {
                        edges: sat_add(old(self).counts_spec().edges, delta),
                        ..old(self).counts_spec()
                    })
                    &&& r == bump_outcome(stage, "edges", old(self).limits_spec().max_edges as u64,
                        final(self).counts_spec().edges, final(self).counts_spec())
                },
                Metric::CacheEntries => {
                    &&& final(self).counts_spec() == (ResourceCounts {
                        cache_entries: sat_add(old(self).counts_spec().cache_entries, delta),
                        ..old(self).counts_spec()
                    })
                    &&& r == bump_outcome(stage, "cache_entries", old(self).limits_spec().max_cache_entries as u64,
                        final(self).counts_spec().cache_entries, final(self).counts_spec())
                },
                Metric::CachedMoves => {
                    &&& final(self).counts_spec() == (ResourceCounts {
                        cached_moves: sat_add(old(self).counts_spec().cached_moves, delta),
                        ..old(self).counts_spec()
                    })
                    &&& r == bump_outcome(stage, "cached_moves", old(self).limits_spec().max_cached_moves as u64,
                        final(self).counts_spec().cached_moves, final(self).counts_spec())
                },
                Metric::Steps => {
                    &&& final(self).counts_spec() == (ResourceCounts {
                        runtime_steps: sat_add(old(self).counts_spec().runtime_steps, delta),
                        ..old(self).counts_spec()
                    })
                    &&& r == bump_outcome(stage, "runtime_steps", old(self).limits_spec().max_runtime_steps,
                        final(self).counts_spec().runtime_steps, final(self).counts_spec())
                },
            },
    {
        let (name, limit, observed): (&'static str, u64, u64) = match metric {
            Metric::States => {
                self.counts.states = self.counts.states.saturating_add(delta);
                ("states", self.limits.max_states as u64, self.counts.states)
            },
            Metric::Edges => {
                self.counts.edges = self.counts.edges.saturating_add(delta);
                ("edges", self.limits.max_edges as u64, self.counts.edges)
            },
            Metric::CacheEntries => {
                self.counts.cache_entries = self.counts.cache_entries.saturating_add(delta);
                ("cache_entries", self.limits.max_cache_entries as u64, self.counts.cache_entries)
            },
            Metric::CachedMoves => {
                self.counts.cached_moves = self.counts.cached_moves.saturating_add(delta);
                ("cached_moves", self.limits.max_cached_moves as u64, self.counts.cached_moves)
            },
            Metric::Steps => {
                self.counts.runtime_steps = self.counts.runtime_steps.saturating_add(delta);
                ("runtime_steps", self.limits.max_runtime_steps, self.counts.runtime_steps)
            },
        };
        if observed > limit {
            return Err(SearchError::LimitExceeded { stage, metric: name, limit, observed, counts: self.counts });
        }
        Ok(())
    }

    /// Adds `delta` to the state counter; fails when it then exceeds `max_states`.
    pub fn bump_states(&mut self, stage: &'static str, delta: usize) -> (r: Result<(), SearchError>)
        ensures
            final(self).limits_spec() == old(self).limits_spec(),
            final(self).counts_spec() == (ResourceCounts {
                states: sat_add(old(self).counts_spec().states, delta as u64),
                ..old(self).counts_spec()
            }),
            r == bump_outcome(stage, "states", old(self).limits_spec().max_states as u64,
                final(self).counts_spec().states, final(self).counts_spec()),
    {
        self.bump(stage, Metric::States, delta as u64)
    }

    /// Adds `delta` to the edge counter; fails when it then exceeds `max_edges`.
    pub fn bump_edges(&mut self, stage: &'static str, delta: usize) -> (r: Result<(), SearchError>)
        ensures
            final(self).limits_spec() == old(self).limits_spec(),
            final(self).counts_spec() == (ResourceCounts {
                edges: sat_add(old(self).counts_spec().edges, delta as u64),
                ..old(self).counts_spec()
            }),
            r == bump_outcome(stage, "edges", old(self).limits_spec().max_edges as u64,
                final(self).counts_spec().edges, final(self).counts_spec()),
    {
        self.bump(stage, Metric::Edges, delta as u64)
    }

    /// Adds `delta` to the cache-entry counter; fails when it then exceeds
    /// `max_cache_entries`.
    pub fn bump_cache_entries(&mut self, stage: &'static str, delta: usize) -> (r: Result<(), SearchError>)
        ensures
            final(self).limits_spec() == old(self).limits_spec(),
            final(self).counts_spec() == (ResourceCounts {
                cache_entries: sat_add(old(self).counts_spec().cache_entries, delta as u64),
                ..old(self).counts_spec()
            }),
            r == bump_outcome(stage, "cache_entries", old(self).limits_spec().max_cache_entries as u64,
                final(self).counts_spec().cache_entries, final(self).counts_spec()),
    {
        self.bump(stage, Metric::CacheEntries, delta as u64)
    }

    /// Subtracts `delta` from the cache-entry counter, saturating at zero.
    pub fn dec_cache_entries(&mut self, delta: usize)
        ensures
            final(self).limits_spec() == old(self).limits_spec(),
            final(self).counts_spec() == (ResourceCounts {
                cache_entries: sat_sub(old(self).counts_spec().cache_entries, delta as u64),
                ..old(self).counts_spec()
            }),
    {
        self.counts.cache_entries = self.counts.cache_entries.saturating_sub(delta as u64);
    }

    /// Adds `delta` to the cached-move counter; fails when it then exceeds
    /// `max_cached_moves`.
    pub fn bump_cached_moves(&mut self, stage: &'static str, delta: usize) -> (r: Result<(), SearchError>)
        ensures
            final(self).limits_spec() == old(self).limits_spec(),
            final(self).counts_spec() == (ResourceCounts {
                cached_moves: sat_add(old(self).counts_spec().cached_moves, delta as u64),
                ..old(self).counts_spec()
            }),
            r == bump_outcome(stage, "cached_moves", old(self).limits_spec().max_cached_moves as u64,
                final(self).counts_spec().cached_moves, final(self).counts_spec()),
    {
        self.bump(stage, Metric::CachedMoves, delta as u64)
    }

    /// Subtracts `delta` from the cached-move counter, saturating at zero.
    pub fn dec_cached_moves(&mut self, delta: usize)
        ensures
            final(self).limits_spec() == old(self).limits_spec(),
            final(self).counts_spec() == (ResourceCounts {
                cached_moves: sat_sub(old(self).counts_spec().cached_moves, delta as u64),
                ..old(self).counts_spec()
            }),
    {
        self.counts.cached_moves = self.counts.cached_moves.saturating_sub(delta as u64);
    }

    /// Adds `delta` to the step counter; fails when it then exceeds `max_runtime_steps`.
    pub fn bump_steps(&mut self, stage: &'static str, delta: u64) -> (r: Result<(), SearchError>)
        ensures
            final(self).limits_spec() == old(self).limits_spec(),
            final(self).counts_spec() == (ResourceCounts {
                runtime_steps: sat_add(old(self).counts_spec().runtime_steps, delta),
                ..old(self).counts_spec()
            }),
            r == bump_outcome(stage, "runtime_steps", old(self).limits_spec().max_runtime_steps,
                final(self).counts_spec().runtime_steps, final(self).counts_spec()),
    {
        self.bump(stage, Metric::Steps, delta)
    }

    /// Reserves room for `additional` more items in `v`; an allocation failure becomes
    /// `AllocationFailed` with the current counters. The contents of `v` never change.
    pub fn try_reserve_vec<T>(
        &self,
        stage: &'static str,
        structure: &'static str,
        v: &mut Vec<T>,
        additional: usize,
    ) -> (r: Result<(), SearchError>)
        ensures
            final(v)@ == old(v)@,
            r is Err ==> r == Err::<(), SearchError>(
                SearchError::AllocationFailed { stage, structure, counts: self.counts_spec() },
            ),
    {
        match v.try_reserve(additional) {
            Ok(()) => Ok(()),
            Err(_) => Err(SearchError::AllocationFailed { stage, structure, counts: self.counts }),
        }
    }

    /// Reserves room for `additional` more states in `set`; an allocation failure becomes
    /// `AllocationFailed` with the current counters. The states held never change.
    pub fn try_reserve_set(
        &self,
        stage: &'static str,
        structure: &'static str,
        set: &mut StateSet,
        additional: usize,
    ) -> (r: Result<(), SearchError>)
        ensures
            final(set).view_set() == old(set).view_set(),
            r is Err ==> r == Err::<(), SearchError>(
                SearchError::AllocationFailed { stage, structure, counts: self.counts_spec() },
            ),
    {
        if set.try_reserve(additional) {
            Ok(())
        } else {
            Err(SearchError::AllocationFailed { stage, structure, counts: self.counts })
        }
    }

    /// Reserves room for `additional` more entries in the move-list map `map`; an allocation
    /// failure becomes `AllocationFailed` with the current counters. The entries never change.
    pub fn try_reserve_map(
        &self,
        stage: &'static str,
        structure: &'static str,
        map: &mut StateLists,
        additional: usize,
    ) -> (r: Result<(), SearchError>)
        ensures
            final(map).view_map() == old(map).view_map(),
            r is Err ==> r == Err::<(), SearchError>(
                SearchError::AllocationFailed { stage, structure, counts: self.counts_spec() },
            ),
    {
        if map.try_reserve(additional) {
            Ok(())
        } else {
            Err(SearchError::AllocationFailed { stage, structure, counts: self.counts })
        }
    }
}

} // verus!
