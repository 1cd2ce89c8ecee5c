//! The projection cache: memoizes associated-type normalization results,
//! keyed by the fully resolved projection, and tracks in-progress, ambiguous,
//! error and completed states to prevent infinite recursion and redundant
//! work.
//!
//! Per key the entry moves `absent -> InProgress -> {NormalizedTy | Ambiguous
//! | Error}`; `NormalizedTy` and `Error` are terminal, `Ambiguous` may be
//! retried after inference makes progress.

use vstd::prelude::*;

use crate::predicate::{
    clone_obligations, lemma_view_obligation_seq_index, lemma_view_obligation_seq_len,
    projection_ty_eq, view_obligation_seq, Obligation, ProjectionTy, SpecObligation,
    SpecProjectionTy,
};
use crate::ty::SpecTy;

verus! {

/// The view of a cache entry.
pub enum SpecCacheEntry {
    InProgress,
    Ambiguous,
    NormalizedTy(SpecTy, Seq<SpecObligation>),
    Error,
}

/// A normalization result: the normalized type and the obligations that
/// must hold for it to be valid.
#[derive(Debug)]
pub struct NormalizedTy {
    pub value: crate::ty::Ty,
    pub obligations: Vec<Obligation>,
}

impl View for NormalizedTy {
    type V = (SpecTy, Seq<SpecObligation>);

    open spec fn view(&self) -> (SpecTy, Seq<SpecObligation>) {
        (self.value@, view_obligation_seq(self.obligations@))
    }
}

impl Clone for NormalizedTy {
    fn clone(&self) -> (r: NormalizedTy)
        ensures
            r@ == self@,
    {
        NormalizedTy {
            value: self.value.clone(),
            obligations: clone_obligations(&self.obligations),
        }
    }
}

/// One entry of the projection cache.
#[derive(Debug)]
pub enum ProjectionCacheEntry {
    /// A computation for this key is on foot; a recursive request must fall
    /// back to treating the projection as equal to itself.
    InProgress,
    /// The last attempt found conflicting candidates; retried only after
    /// inference progress.
    Ambiguous,
    /// A normalized type, with the obligations that justify it.
    NormalizedTy(NormalizedTy),
    /// Normalization failed; terminal.
    Error,
}

pub open spec fn view_entry(e: ProjectionCacheEntry) -> SpecCacheEntry {
    match e {
        ProjectionCacheEntry::InProgress => SpecCacheEntry::InProgress,
        ProjectionCacheEntry::Ambiguous => SpecCacheEntry::Ambiguous,
        ProjectionCacheEntry::NormalizedTy(n) => SpecCacheEntry::NormalizedTy(n@.0, n@.1),
        ProjectionCacheEntry::Error => SpecCacheEntry::Error,
    }
}

impl View for ProjectionCacheEntry {
    type V = SpecCacheEntry;

    open spec fn view(&self) -> SpecCacheEntry {
        view_entry(*self)
    }
}

impl Clone for ProjectionCacheEntry {
    fn clone(&self) -> (r: ProjectionCacheEntry)
        ensures
            r@ == self@,
    {
        match self {
            ProjectionCacheEntry::InProgress => ProjectionCacheEntry::InProgress,
            ProjectionCacheEntry::Ambiguous => ProjectionCacheEntry::Ambiguous,
            ProjectionCacheEntry::NormalizedTy(n) => ProjectionCacheEntry::NormalizedTy(n.clone()),
            ProjectionCacheEntry::Error => ProjectionCacheEntry::Error,
        }
    }
}

/// The cache as a mathematical map.
pub open spec fn cache_map(s: Seq<(ProjectionTy, ProjectionCacheEntry)>) -> Map<
    SpecProjectionTy,
    SpecCacheEntry,
>
    decreases s.len(),
{
    if s.len() == 0 {
        Map::empty()
    } else {
        cache_map(s.drop_last()).insert(s.last().0@, s.last().1@)
    }
}

/// Keys are pairwise distinct.
pub open spec fn keys_unique(s: Seq<(ProjectionTy, ProjectionCacheEntry)>) -> bool {
    forall|i: int, j: int| 0 <= i < j < s.len() ==> s[i].0@ != s[j].0@
}

pub broadcast proof fn lemma_cache_map_contains(
    s: Seq<(ProjectionTy, ProjectionCacheEntry)>,
    k: SpecProjectionTy,
)
    ensures
        #[trigger] cache_map(s).contains_key(k) <==> exists|i: int|
            0 <= i < s.len() && s[i].0@ == k,
    decreases s.len(),
{
    if s.len() != 0 {
        lemma_cache_map_contains(s.drop_last(), k);
        if cache_map(s).contains_key(k) {
            if s.last().0@ == k {
                assert(s[s.len() - 1].0@ == k);
            } else {
                let i = choose|i: int| 0 <= i < s.drop_last().len() && s.drop_last()[i].0@ == k;
                assert(s[i].0@ == k);
            }
        }
        if exists|i: int| 0 <= i < s.len() && s[i].0@ == k {
            let i = choose|i: int| 0 <= i < s.len() && s[i].0@ == k;
            if i < s.len() - 1 {
                assert(s.drop_last()[i].0@ == k);
            }
            assert(cache_map(s).contains_key(k));
        }
    }
}

/// With unique keys, the entry at any index is the map's value for its key.
pub proof fn lemma_cache_map_index(s: Seq<(ProjectionTy, ProjectionCacheEntry)>, i: int)
    requires
        keys_unique(s),
        0 <= i < s.len(),
    ensures
        cache_map(s).contains_key(s[i].0@),
        cache_map(s)[s[i].0@] == s[i].1@,
    decreases s.len(),
{
    broadcast use lemma_cache_map_contains;

    if i == s.len() - 1 {
    } else {
        assert(s.drop_last()[i] == s[i]);
        lemma_cache_map_index(s.drop_last(), i);
        assert(s[i].0@ != s.last().0@);
    }
}

/// Updating the entry at an index updates the map at its key.
pub proof fn lemma_cache_map_update(
    s: Seq<(ProjectionTy, ProjectionCacheEntry)>,
    i: int,
    e: (ProjectionTy, ProjectionCacheEntry),
)
    requires
        keys_unique(s),
        0 <= i < s.len(),
        e.0@ == s[i].0@,
    ensures
        cache_map(s.update(i, e)) == cache_map(s).insert(s[i].0@, e.1@),
        keys_unique(s.update(i, e)),
    decreases s.len(),
{
    broadcast use lemma_cache_map_contains;

    let t = s.update(i, e);
    if i == s.len() - 1 {
        assert(t.drop_last() =~= s.drop_last());
        assert(t.last() == e);
        assert(cache_map(t) =~= cache_map(s).insert(s[i].0@, e.1@));
    } else {
        assert(t.drop_last() =~= s.drop_last().update(i, e));
        assert(s.drop_last()[i] == s[i]);
        lemma_cache_map_update(s.drop_last(), i, e);
        assert(t.last() == s.last());
        assert(s[i].0@ != s.last().0@);
        assert(cache_map(t) =~= cache_map(s).insert(s[i].0@, e.1@));
    }
}

/// The projection cache.
#[derive(Debug)]
pub struct ProjectionCache {
    pub entries: Vec<(ProjectionTy, ProjectionCacheEntry)>,
}

impl View for ProjectionCache {
    type V = Map<SpecProjectionTy, SpecCacheEntry>;

    open spec fn view(&self) -> Map<SpecProjectionTy, SpecCacheEntry> {
        cache_map(self.entries@)
    }
}

impl ProjectionCache {
    /// Every key occurs at most once.
    pub open spec fn wf(&self) -> bool {
        keys_unique(self.entries@)
    }

    /// An empty cache.
    pub fn new() -> (r: ProjectionCache)
        ensures
            r.wf(),
            r@ == Map::<SpecProjectionTy, SpecCacheEntry>::empty(),
    {
        ProjectionCache { entries: Vec::new() }
    }

    /// The index holding `key`, if any.
    fn find(&self, key: &ProjectionTy) -> (r: Option<usize>)
        ensures
            match r {
                Some(i) => i < self.entries@.len() && self.entries@[i as int].0@ == key@,
                None => forall|i: int|
                    0 <= i < self.entries@.len() ==> self.entries@[i].0@ != key@,
            },
    {
        let n = self.entries.len();
        for i in 0..n
            invariant
                n == self.entries@.len(),
                forall|j: int| 0 <= j < i ==> self.entries@[j].0@ != key@,
        {
            if projection_ty_eq(&self.entries[i].0, key) {
                return Some(i);
            }
        }
        None
    }

    /// Begins a computation for `key` if none is recorded, marking it in
    /// progress; otherwise reports the current entry. Only one computation
    /// per key may be on foot.
    pub fn try_start(&mut self, key: &ProjectionTy) -> (r: Result<(), ProjectionCacheEntry>)
        requires
            old(self).wf(),
        ensures
            final(self).wf(),
            match r {
                Ok(()) => !old(self)@.contains_key(key@) && final(self)@ == old(self)@.insert(
                    key@,
                    SpecCacheEntry::InProgress,
                ),
                Err(e) => old(self)@.contains_key(key@) && e@ == old(self)@[key@] && final(self)@
                    == old(self)@ && *final(self) == *old(self),
            },
    {
        broadcast use lemma_cache_map_contains;

        match self.find(key) {
            Some(i) => {
                proof {
                    lemma_cache_map_index(self.entries@, i as int);
                }
                Err(self.entries[i].1.clone())
            }
            None => {
                let ghost s0 = self.entries@;
                self.entries.push((key.clone(), ProjectionCacheEntry::InProgress));
                proof {
                    assert(self.entries@.drop_last() =~= s0);
                    assert(forall|i: int|
                        0 <= i < s0.len() ==> (#[trigger] self.entries@[i]) == s0[i]);
                }
                Ok(())
            }
        }
    }

    /// Records the entry for `key`, which must already be present
    /// (in progress, or being completed).
    pub fn set_entry(&mut self, key: &ProjectionTy, entry: ProjectionCacheEntry)
        requires
            old(self).wf(),
            old(self)@.contains_key(key@),
        ensures
            final(self).wf(),
            final(self)@ == old(self)@.insert(key@, entry@),
    {
        broadcast use lemma_cache_map_contains;

        match self.find(key) {
            Some(i) => {
                proof {
                    lemma_cache_map_index(self.entries@, i as int);
                    lemma_cache_map_update(
                        self.entries@,
                        i as int,
                        (self.entries@[i as int].0, entry),
                    );
                }
                let ghost k0 = self.entries@[i as int].0;
                self.entries[i].1 = entry;
                proof {
                    assert(self.entries@[i as int].0 == k0);
                }
            }
            None => {
                proof {
                    assert(false);
                }
            }
        }
    }

    /// The entry for `key`, if any, without changing the cache.
    pub fn get(&self, key: &ProjectionTy) -> (r: Option<ProjectionCacheEntry>)
        requires
            self.wf(),
        ensures
            match r {
                Some(e) => self@.contains_key(key@) && e@ == self@[key@],
                None => !self@.contains_key(key@),
            },
    {
        broadcast use lemma_cache_map_contains;

        match self.find(key) {
            Some(i) => {
                proof {
                    lemma_cache_map_index(self.entries@, i as int);
                }
                Some(self.entries[i].1.clone())
            }
            None => None,
        }
    }
}

} // verus!
