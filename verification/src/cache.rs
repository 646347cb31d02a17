//! The release lists kept in memory, one per runtime, served for five
//! minutes after they were stored.
use vstd::prelude::*;
use crate::installer::{source_spec, VersionSource};
use crate::models::{AvailableVersionGroup, GroupView, RuntimeKind};
use crate::sorting::group_views;

verus! {

/// A release list kept in memory.
pub struct CacheEntry {
    /// The runtime whose releases these are.
    pub kind: RuntimeKind,
    /// When the list was stored, in milliseconds of a monotonic clock.
    pub stored_at_ms: u64,
    /// The release list, grouped by major version.
    pub groups: Vec<AvailableVersionGroup>,
}

/// The release lists kept in memory, at most one per runtime.
pub struct VersionCache {
    entries: Vec<CacheEntry>,
}

/// The milliseconds from `at` to `now` (none when `now` is earlier).
pub open spec fn age_ms(now: u64, at: u64) -> u64 {
    if now >= at {
        (now - at) as u64
    } else {
        0
    }
}

/// What a lookup at `now` gives of the entry `e`: its groups when, without
/// a refresh, the list in memory is the one to use (younger than five
/// minutes).
pub open spec fn served_spec(e: Option<(u64, Seq<GroupView>)>, now: u64, refresh: bool) -> Option<Seq<GroupView>> {
    match e {
        Some(p) => if source_spec(refresh, Some(age_ms(now, p.0)), false) == VersionSource::Memory {
            Some(p.1)
        } else {
            None
        },
        None => None,
    }
}

impl VersionCache {
    /// No runtime has two entries.
    pub closed spec fn wf(&self) -> bool {
        forall|i: int, j: int|
            0 <= i < j < self.entries@.len() ==> #[trigger] self.entries@[i].kind != #[trigger] self.entries@[j].kind
    }

    /// The entry of `kind`: when it was stored and its groups.
    pub closed spec fn entry(&self, kind: RuntimeKind) -> Option<(u64, Seq<GroupView>)> {
        if exists|i: int| 0 <= i < self.entries@.len() && #[trigger] self.entries@[i].kind == kind {
            let i = choose|i: int| 0 <= i < self.entries@.len() && #[trigger] self.entries@[i].kind == kind;
            Some((self.entries@[i].stored_at_ms, group_views(self.entries@[i].groups@)))
        } else {
            None
        }
    }

    /// The entry found at `j` is the entry of its runtime.
    proof fn lemma_entry_at(&self, j: int)
        requires
            self.wf(),
            0 <= j < self.entries@.len(),
        ensures
            self.entry(self.entries@[j].kind) == Some(
                (self.entries@[j].stored_at_ms, group_views(self.entries@[j].groups@)),
            ),
    {
        let kind = self.entries@[j].kind;
        let i = choose|i: int| 0 <= i < self.entries@.len() && #[trigger] self.entries@[i].kind == kind;
        if i < j {
            assert(self.entries@[i].kind != self.entries@[j].kind);
        } else if j < i {
            assert(self.entries@[j].kind != self.entries@[i].kind);
        }
    }

    /// An empty cache.
    pub fn new() -> (r: VersionCache)
        ensures
            r.wf(),
            forall|k: RuntimeKind| r.entry(k) is None,
    {
        VersionCache { entries: Vec::new() }
    }

    /// The groups of `kind` to serve at `now_ms`: those stored less than
    /// five minutes before, unless a refresh is asked for.
    pub fn lookup(&self, kind: RuntimeKind, now_ms: u64, refresh: bool) -> (r: Option<&Vec<AvailableVersionGroup>>)
        requires
            self.wf(),
        ensures
            match r {
                Some(v) => served_spec(self.entry(kind), now_ms, refresh) == Some(group_views(v@)),
                None => served_spec(self.entry(kind), now_ms, refresh) is None,
            },
    {
        let mut i: usize = 0;
        while i < self.entries.len()
            invariant
                self.wf(),
                i <= self.entries@.len(),
                forall|j: int| 0 <= j < i ==> #[trigger] self.entries@[j].kind != kind,
            decreases self.entries@.len() - i,
        {
            if self.entries[i].kind == kind {
                proof {
                    self.lemma_entry_at(i as int);
                }
                let at = self.entries[i].stored_at_ms;
                let age = if now_ms >= at {
                    now_ms - at
                } else {
                    0
                };
                if !refresh && age < 300000 {
                    return Some(&self.entries[i].groups);
                }
                return None;
            }
            i = i + 1;
        }
        None
    }

    /// Keeps `groups` as the list of `kind` stored at `now_ms`, in place of
    /// the one it had.
    pub fn store(&mut self, kind: RuntimeKind, now_ms: u64, groups: Vec<AvailableVersionGroup>)
        requires
            old(self).wf(),
        ensures
            final(self).wf(),
            final(self).entry(kind) == Some((now_ms, group_views(groups@))),
            forall|k: RuntimeKind| k != kind ==> final(self).entry(k) == old(self).entry(k),
    {
        let ghost gv = group_views(groups@);
        let ghost before = *self;
        let e = CacheEntry { kind, stored_at_ms: now_ms, groups };
        let mut i: usize = 0;
        while i < self.entries.len() && self.entries[i].kind != kind
            invariant
                i <= self.entries@.len(),
                *self == before,
                forall|j: int| 0 <= j < i ==> #[trigger] self.entries@[j].kind != kind,
            decreases self.entries@.len() - i,
        {
            i = i + 1;
        }
        if i < self.entries.len() {
            self.entries.set(i, e);
        } else {
            self.entries.push(e);
        }
        assert(self.wf()) by {
            assert forall|a: int, b: int| 0 <= a < b < self.entries@.len() implies #[trigger] self.entries@[a].kind
                != #[trigger] self.entries@[b].kind by {
                if a != i {
                    assert(self.entries@[a] == before.entries@[a]);
                }
                if b != i {
                    assert(self.entries@[b] == before.entries@[b]);
                }
                if a != i && b != i {
                    assert(before.entries@[a].kind != before.entries@[b].kind);
                } else if a == i && i < before.entries@.len() {
                    assert(before.entries@[i as int].kind != before.entries@[b].kind);
                }
            }
        }
        proof {
            self.lemma_entry_at(i as int);
            assert forall|k: RuntimeKind| k != kind implies self.entry(k) == before.entry(k) by {
                if exists|j: int| 0 <= j < before.entries@.len() && #[trigger] before.entries@[j].kind == k {
                    let j = choose|j: int| 0 <= j < before.entries@.len() && #[trigger] before.entries@[j].kind == k;
                    before.lemma_entry_at(j);
                    assert(j != i);
                    assert(self.entries@[j] == before.entries@[j]);
                    self.lemma_entry_at(j);
                } else {
                    assert forall|j: int| 0 <= j < self.entries@.len() implies #[trigger] self.entries@[j].kind != k by {
                        if j != i {
                            assert(self.entries@[j] == before.entries@[j]);
                        }
                    }
                }
            }
        }
    }
}

/// A release list asked for again, without a refresh, less than five
/// minutes after it was stored, is served from memory as it was stored
/// (so no request goes out); with a refresh, or five minutes or more
/// later, it is not served.
pub proof fn law_memory_cache(c: VersionCache, kind: RuntimeKind, stored_at: u64, groups: Seq<GroupView>, now: u64)
    requires
        c.entry(kind) == Some((stored_at, groups)),
        stored_at <= now,
    ensures
        now - stored_at < 300000 ==> served_spec(c.entry(kind), now, false) == Some(groups),
        now - stored_at >= 300000 ==> served_spec(c.entry(kind), now, false) is None,
        served_spec(c.entry(kind), now, true) is None,
{
}

} // verus!
