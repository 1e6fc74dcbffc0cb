//! Persistent digest cache.
//!
//! The cache associates file paths (as byte strings) with previously computed
//! content digests, so that unchanged files need not be rehashed on later
//! runs.  A run loads the cache, prunes entries whose paths no longer exist,
//! refreshes it against the requested paths, and writes it back only when it
//! changed and the run is not a dry run.  The caller supplies the observed
//! facts (which paths still exist, the contents of files that must be
//! hashed); every decision is made here.

use vstd::prelude::*;
use crate::bytes::bytes_eq;
use crate::bytes::copy_bytes;
use crate::digest::Digest;
use crate::digest::blake2b_of;
use crate::digest::compute_digest;

verus! {

/// One cached association of a path with its content digest.
pub struct CacheEntry {
    pub path: Vec<u8>,
    pub digest: Digest,
}

/// A mapping from paths to digests, held as a list of entries with pairwise
/// distinct paths.
pub struct Cache {
    pub entries: Vec<CacheEntry>,
}

impl Cache {
    /// Whether the cache holds an entry for path `p`.
    pub open spec fn has(&self, p: Seq<u8>) -> bool {
        exists|i: int|
            0 <= i < self.entries@.len() && self.entries@[i].path@ == p
    }

    /// The index of the entry for path `p`, when one exists.
    pub open spec fn idx_of(&self, p: Seq<u8>) -> int {
        choose|i: int|
            0 <= i < self.entries@.len() && self.entries@[i].path@ == p
    }

    /// The digest the cache associates with path `p`, when an entry exists.
    pub open spec fn val(&self, p: Seq<u8>) -> Seq<u8> {
        self.entries@[self.idx_of(p)].digest@
    }

    /// Well-formedness: paths are pairwise distinct and every digest holds
    /// its full 32 bytes.
    pub open spec fn wf(&self) -> bool {
        &&& forall|i: int, j: int|
            0 <= i < j < self.entries@.len()
                ==> self.entries@[i].path@ != self.entries@[j].path@
        &&& forall|i: int|
            0 <= i < self.entries@.len() ==> (#[trigger] self.entries@[i].digest).wf()
    }

    /// In a well-formed cache the entry at index `i` is the one `val` speaks
    /// of for its path.
    pub proof fn lemma_val_at(&self, i: int)
        requires
            self.wf(),
            0 <= i < self.entries@.len(),
        ensures
            self.has(self.entries@[i].path@),
            self.val(self.entries@[i].path@) == self.entries@[i].digest@,
        {
            let p = self.entries@[i].path@;
            assert(self.has(p));
            let j = self.idx_of(p);
            assert(0 <= j < self.entries@.len() && self.entries@[j].path@ == p);
            if i < j {
                assert(self.entries@[i].path@ != self.entries@[j].path@);
            } else if j < i {
                assert(self.entries@[j].path@ != self.entries@[i].path@);
            }
            assert(j == i);
        }

    /// Returns an empty cache.
    pub fn new() -> (c: Cache)
        ensures
            c.wf(),
            c.entries@.len() == 0,
            forall|q: Seq<u8>| !c.has(q),
    {
        Cache { entries: Vec::new() }
    }

    /// The number of entries held.
    pub fn entry_count(&self) -> (n: usize)
        ensures
            n == self.entries@.len(),
    {
        self.entries.len()
    }

    /// The path of the entry at index `i`.
    pub fn path_at(&self, i: usize) -> (p: &Vec<u8>)
        requires
            i < self.entries@.len(),
        ensures
            p@ == self.entries@[i as int].path@,
    {
        &self.entries[i].path
    }

    /// Looks the path up and returns a copy of its cached digest, if any.
    pub fn lookup(&self, p: &Vec<u8>) -> (r: Option<Digest>)
        requires
            self.wf(),
        ensures
            (r is Some) == self.has(p@),
            r is Some ==> (r->0)@ == self.val(p@) && (r->0).wf(),
    {
        let mut i: usize = 0;
        while i < self.entries.len()
            invariant
                self.wf(),
                i <= self.entries@.len(),
                forall|j: int| 0 <= j < i ==> self.entries@[j].path@ != p@,
            decreases self.entries@.len() - i,
        {
            if bytes_eq(&self.entries[i].path, p) {
                proof {
                    self.lemma_val_at(i as int);
                }
                return Some(self.entries[i].digest.duplicate());
            }
            i += 1;
        }
        None
    }

    /// Records the digest for the path, replacing any existing entry.
    pub fn upsert(&mut self, p: &Vec<u8>, d: &Digest)
        requires
            old(self).wf(),
            d.wf(),
        ensures
            final(self).wf(),
            forall|q: Seq<u8>|
                #![trigger final(self).has(q)]
                final(self).has(q) <==> (old(self).has(q) || q == p@),
            final(self).val(p@) == d@,
            forall|q: Seq<u8>|
                q != p@ && old(self).has(q)
                    ==> final(self).val(q) == old(self).val(q),
    {
        let mut i: usize = 0;
        while i < self.entries.len()
            invariant
                *self == *old(self),
                self.wf(),
                d.wf(),
                i <= self.entries@.len(),
                forall|j: int| 0 <= j < i ==> self.entries@[j].path@ != p@,
            decreases self.entries@.len() - i,
        {
            if bytes_eq(&self.entries[i].path, p) {
                let entry = CacheEntry { path: copy_bytes(p), digest: d.duplicate() };
                self.entries[i] = entry;
                proof {
                    assert(self.entries@ =~= old(self).entries@.update(i as int, self.entries@[i as int]));
                    assert(forall|j: int|
                        0 <= j < self.entries@.len()
                            ==> (#[trigger] self.entries@[j]).path@ == old(self).entries@[j].path@);
                    assert forall|j: int|
                        0 <= j < self.entries@.len()
                            implies (#[trigger] self.entries@[j].digest).wf()
                    by {
                        if j != i as int {
                            assert(old(self).entries@[j].digest.wf());
                        } else {
                            assert(self.entries@[j].digest@ == d@);
                            assert(self.entries@[j].digest.bytes@ == d.bytes@);
                            assert(d.bytes@.len() == 32);
                        }
                    }
                    assert forall|a: int, b: int|
                        0 <= a < b < self.entries@.len()
                            implies self.entries@[a].path@ != self.entries@[b].path@
                    by {
                        assert(old(self).entries@[a].path@ != old(self).entries@[b].path@);
                    }
                    assert(self.wf());
                    self.lemma_val_at(i as int);
                    assert forall|q: Seq<u8>|
                        #![trigger self.has(q)]
                        self.has(q) <==> (old(self).has(q) || q == p@)
                    by {
                        if self.has(q) {
                            let k = choose|k: int|
                                0 <= k < self.entries@.len()
                                    && self.entries@[k].path@ == q;
                            if k != i {
                                assert(old(self).entries@[k].path@ == q);
                            }
                        }
                        if old(self).has(q) {
                            let k = choose|k: int|
                                0 <= k < old(self).entries@.len()
                                    && old(self).entries@[k].path@ == q;
                            if k == i {
                                assert(q == p@);
                            } else {
                                assert(self.entries@[k].path@ == q);
                            }
                        }
                        if q == p@ {
                            assert(self.entries@[i as int].path@ == q);
                        }
                    }
                    assert forall|q: Seq<u8>|
                        q != p@ && old(self).has(q)
                            implies self.val(q) == old(self).val(q)
                    by {
                        let k = choose|k: int|
                            0 <= k < old(self).entries@.len()
                                && old(self).entries@[k].path@ == q;
                        assert(k != i);
                        old(self).lemma_val_at(k);
                        self.lemma_val_at(k);
                    }
                }
                return;
            }
            i += 1;
        }
        let entry = CacheEntry { path: copy_bytes(p), digest: d.duplicate() };
        self.entries.push(entry);
        proof {
            let n = old(self).entries@.len() as int;
            assert(self.entries@ =~= old(self).entries@.push(self.entries@[n]));
            assert(self.entries@[n].path@ == p@);
            assert(!old(self).has(p@));
            assert(self.wf());
            self.lemma_val_at(n);
            assert forall|q: Seq<u8>|
                #![trigger self.has(q)]
                self.has(q) <==> (old(self).has(q) || q == p@)
            by {
                if self.has(q) {
                    let k = choose|k: int|
                        0 <= k < self.entries@.len()
                            && self.entries@[k].path@ == q;
                    if k < n {
                        assert(old(self).entries@[k].path@ == q);
                    } else {
                        assert(q == p@);
                    }
                }
                if old(self).has(q) {
                    let k = choose|k: int|
                        0 <= k < old(self).entries@.len()
                            && old(self).entries@[k].path@ == q;
                    assert(self.entries@[k].path@ == q);
                }
            }
            assert forall|q: Seq<u8>|
                q != p@ && old(self).has(q)
                    implies self.val(q) == old(self).val(q)
            by {
                let k = choose|k: int|
                    0 <= k < old(self).entries@.len()
                        && old(self).entries@[k].path@ == q;
                old(self).lemma_val_at(k);
                self.lemma_val_at(k);
            }
        }
    }
    /// Removes every entry whose `alive` flag is false.  `alive` is aligned
    /// with the entry order (see `entry_count` and `path_at`): the caller
    /// reports there whether each entry's path still exists on disk.
    /// Returns whether anything was removed.
    pub fn prune(&mut self, alive: &Vec<bool>) -> (changed: bool)
        requires
            old(self).wf(),
            alive@.len() == old(self).entries@.len(),
        ensures
            final(self).wf(),
            forall|q: Seq<u8>|
                #![trigger final(self).has(q)]
                final(self).has(q) <==> exists|i: int|
                    0 <= i < old(self).entries@.len() && alive@[i]
                        && old(self).entries@[i].path@ == q,
            forall|i: int|
                0 <= i < old(self).entries@.len() && #[trigger] alive@[i]
                    ==> final(self).val(old(self).entries@[i].path@)
                        == old(self).entries@[i].digest@,
            changed == !(forall|i: int| 0 <= i < alive@.len() ==> alive@[i]),
    {
        let mut kept: Vec<CacheEntry> = Vec::new();
        let ghost mut src: Seq<int> = Seq::empty();
        let mut all_alive = true;
        let mut i: usize = 0;
        while i < alive.len()
            invariant
                *self == *old(self),
                self.wf(),
                alive@.len() == self.entries@.len(),
                i <= alive@.len(),
                src.len() == kept@.len(),
                forall|k: int|
                    #![trigger src[k]]
                    0 <= k < src.len() ==> 0 <= src[k] < i && alive@[src[k]]
                        && kept@[k].path@ == self.entries@[src[k]].path@
                        && kept@[k].digest@ == self.entries@[src[k]].digest@
                        && kept@[k].digest.wf(),
                forall|k1: int, k2: int| 0 <= k1 < k2 < src.len() ==> src[k1] < src[k2],
                forall|j: int|
                    0 <= j < i && #[trigger] alive@[j]
                        ==> exists|k: int| 0 <= k < src.len() && src[k] == j,
                all_alive == (forall|j: int| 0 <= j < i ==> alive@[j]),
            decreases alive@.len() - i,
        {
            if alive[i] {
                let entry = CacheEntry {
                    path: copy_bytes(&self.entries[i].path),
                    digest: self.entries[i].digest.duplicate(),
                };
                let ghost kept0 = kept@;
                kept.push(entry);
                proof {
                    let src0 = src;
                    src = src.push(i as int);
                    assert forall|k: int|
                        #![trigger src[k]]
                        0 <= k < src.len() implies 0 <= src[k] < i + 1 && alive@[src[k]]
                            && kept@[k].path@ == self.entries@[src[k]].path@
                            && kept@[k].digest@ == self.entries@[src[k]].digest@
                            && kept@[k].digest.wf()
                    by {
                        if k == src.len() - 1 {
                            assert(src[k] == i as int);
                            assert(self.entries@[i as int].digest.wf());
                        } else {
                            assert(src[k] == src0[k]);
                            assert(kept@[k] == kept0[k]);
                        }
                    }
                    assert forall|j: int|
                        0 <= j < i + 1 && #[trigger] alive@[j]
                            implies exists|k: int| 0 <= k < src.len() && src[k] == j
                    by {
                        if j == i as int {
                            assert(src[src.len() - 1] == j);
                        } else {
                            let k = choose|k: int| 0 <= k < src0.len() && src0[k] == j;
                            assert(src[k] == j);
                        }
                    }
                }
            } else {
                all_alive = false;
            }
            i += 1;
        }
        self.entries = kept;
        proof {
            assert forall|a: int, b: int|
                0 <= a < b < self.entries@.len()
                    implies self.entries@[a].path@ != self.entries@[b].path@
            by {
                assert(src[a] < src[b]);
                assert(old(self).entries@[src[a]].path@ != old(self).entries@[src[b]].path@);
            }
            assert forall|k: int|
                0 <= k < self.entries@.len()
                    implies (#[trigger] self.entries@[k].digest).wf()
            by {
                let s = src[k];
                assert(0 <= s < alive@.len());
            }
            assert(self.wf());
            assert forall|q: Seq<u8>|
                #![trigger self.has(q)]
                self.has(q) <==> exists|i0: int|
                    0 <= i0 < old(self).entries@.len() && alive@[i0]
                        && old(self).entries@[i0].path@ == q
            by {
                if self.has(q) {
                    let k = choose|k: int|
                        0 <= k < self.entries@.len() && self.entries@[k].path@ == q;
                    assert(alive@[src[k]] && old(self).entries@[src[k]].path@ == q);
                }
                if exists|i0: int|
                    0 <= i0 < old(self).entries@.len() && alive@[i0]
                        && old(self).entries@[i0].path@ == q {
                    let i0 = choose|i0: int|
                        0 <= i0 < old(self).entries@.len() && alive@[i0]
                            && old(self).entries@[i0].path@ == q;
                    let k = choose|k: int| 0 <= k < src.len() && src[k] == i0;
                    assert(self.entries@[k].path@ == q);
                }
            }
            assert forall|i0: int|
                0 <= i0 < old(self).entries@.len() && #[trigger] alive@[i0]
                    implies self.val(old(self).entries@[i0].path@)
                        == old(self).entries@[i0].digest@
            by {
                let k = choose|k: int| 0 <= k < src.len() && src[k] == i0;
                self.lemma_val_at(k);
            }
        }
        !all_alive
    }
}

/// Whether some path in `reqs` equals `p`.
pub open spec fn req_has(reqs: Seq<Vec<u8>>, p: Seq<u8>) -> bool {
    exists|i: int| 0 <= i < reqs.len() && reqs[i]@ == p
}

/// The first index in `reqs`, at or after `k`, whose path equals `p`.
pub open spec fn first_req(reqs: Seq<Vec<u8>>, p: Seq<u8>, k: int) -> int
    decreases reqs.len() - k when 0 <= k <= reqs.len()
{
    if k >= reqs.len() {
        k
    } else if reqs[k]@ == p {
        k
    } else {
        first_req(reqs, p, k + 1)
    }
}

proof fn lemma_first_req_is(reqs: Seq<Vec<u8>>, p: Seq<u8>, k: int, i: int)
    requires
        0 <= k <= i < reqs.len(),
        reqs[i]@ == p,
        forall|j: int| k <= j < i ==> reqs[j]@ != p,
    ensures
        first_req(reqs, p, k) == i,
    decreases i - k,
{
    if k < i {
        lemma_first_req_is(reqs, p, k + 1, i);
    }
}

/// Whether request `i` forces a fresh digest computation: its path is
/// neither in the cache nor repeated earlier in the request list.
pub open spec fn needs_refresh(c: Cache, reqs: Seq<Vec<u8>>, i: int) -> bool {
    !c.has(reqs[i]@) && !(exists|j: int| 0 <= j < i && reqs[j]@ == reqs[i]@)
}

/// The digest a refresh run associates with requested path `p`: the cached
/// digest when the cache holds one, else the digest of the content supplied
/// with the first request of `p`.
pub open spec fn refreshed_val(
    c: Cache,
    reqs: Seq<Vec<u8>>,
    contents: Seq<Option<Vec<u8>>>,
    p: Seq<u8>,
) -> Seq<u8> {
    if c.has(p) {
        c.val(p)
    } else {
        blake2b_of(contents[first_req(reqs, p, 0)].unwrap()@)
    }
}

impl Cache {
    /// For each requested path, takes the cached digest when present and
    /// otherwise computes a fresh one from the supplied content, recording it
    /// into the cache.  Returns the view of the requested paths' digests and
    /// whether any entry was added.  `contents` is aligned with `requested`
    /// and must supply the bytes of every path that forces a computation.
    pub fn refresh(&mut self, requested: &Vec<Vec<u8>>, contents: &Vec<Option<Vec<u8>>>) -> (r: (
        Cache,
        bool,
    ))
        requires
            old(self).wf(),
            requested@.len() == contents@.len(),
            forall|i: int|
                0 <= i < requested@.len() && needs_refresh(*old(self), requested@, i)
                    ==> contents@[i] is Some,
        ensures
            final(self).wf(),
            r.0.wf(),
            forall|q: Seq<u8>| #![trigger r.0.has(q)] r.0.has(q) <==> req_has(requested@, q),
            forall|i: int|
                #![trigger requested@[i]]
                0 <= i < requested@.len() ==> r.0.val(requested@[i]@) == refreshed_val(
                    *old(self),
                    requested@,
                    contents@,
                    requested@[i]@,
                ),
            forall|q: Seq<u8>|
                #![trigger final(self).has(q)]
                final(self).has(q) <==> (old(self).has(q) || req_has(requested@, q)),
            forall|q: Seq<u8>|
                old(self).has(q) ==> final(self).val(q) == old(self).val(q),
            forall|i: int|
                #![trigger requested@[i]]
                0 <= i < requested@.len() ==> final(self).val(requested@[i]@) == refreshed_val(
                    *old(self),
                    requested@,
                    contents@,
                    requested@[i]@,
                ),
            r.1 == exists|i: int| 0 <= i < requested@.len() && !old(self).has(requested@[i]@),
    {
        let mut view_cache = Cache::new();
        let mut grew = false;
        let mut i: usize = 0;
        while i < requested.len()
            invariant
                self.wf(),
                view_cache.wf(),
                old(self).wf(),
                requested@.len() == contents@.len(),
                i <= requested@.len(),
                forall|t: int|
                    0 <= t < requested@.len() && needs_refresh(*old(self), requested@, t)
                        ==> contents@[t] is Some,
                forall|q: Seq<u8>|
                    #![trigger self.has(q)]
                    self.has(q) <==> (old(self).has(q) || exists|j: int|
                        0 <= j < i && requested@[j]@ == q),
                forall|q: Seq<u8>| old(self).has(q) ==> self.val(q) == old(self).val(q),
                forall|j: int|
                    #![trigger requested@[j]]
                    0 <= j < i ==> self.val(requested@[j]@) == refreshed_val(
                        *old(self),
                        requested@,
                        contents@,
                        requested@[j]@,
                    ),
                forall|q: Seq<u8>|
                    #![trigger view_cache.has(q)]
                    view_cache.has(q) <==> exists|j: int| 0 <= j < i && requested@[j]@ == q,
                forall|j: int|
                    #![trigger requested@[j]]
                    0 <= j < i ==> view_cache.val(requested@[j]@) == refreshed_val(
                        *old(self),
                        requested@,
                        contents@,
                        requested@[j]@,
                    ),
                grew == exists|j: int| 0 <= j < i && !old(self).has(requested@[j]@),
            decreases requested@.len() - i,
        {
            let p = &requested[i];
            let cached = self.lookup(p);
            match cached {
                Some(d) => {
                    proof {
                        if old(self).has(p@) {
                            assert(d@ == refreshed_val(
                                *old(self),
                                requested@,
                                contents@,
                                p@,
                            ));
                        } else {
                            let j = choose|j: int| 0 <= j < i && requested@[j]@ == p@;
                            assert(self.val(requested@[j]@) == refreshed_val(
                                *old(self),
                                requested@,
                                contents@,
                                requested@[j]@,
                            ));
                            assert(d@ == refreshed_val(
                                *old(self),
                                requested@,
                                contents@,
                                p@,
                            ));
                        }
                    }
                    view_cache.upsert(p, &d);
                    proof {
                        assert(requested@[i as int]@ == p@);
                        assert forall|j: int| 0 <= j < i + 1 implies #[trigger] requested@[j]@
                            == requested@[j]@ by {}
                    }
                }
                None => {
                    proof {
                        assert(!old(self).has(p@));
                        assert(!(exists|j: int| 0 <= j < i && requested@[j]@ == p@));
                        assert(requested@[i as int]@ == p@);
                        assert(needs_refresh(*old(self), requested@, i as int));
                        assert(contents@[i as int] is Some);
                    }
                    let cbytes = match &contents[i] {
                        Some(c) => c,
                        None => unreached(),
                    };
                    let d = compute_digest(cbytes);
                    grew = true;
                    self.upsert(p, &d);
                    view_cache.upsert(p, &d);
                    proof {
                        lemma_first_req_is(requested@, p@, 0, i as int);
                        assert(cbytes@ == contents@[i as int].unwrap()@);
                        assert(d@ == refreshed_val(*old(self), requested@, contents@, p@));
                    }
                }
            }
            i += 1;
        }
        (view_cache, grew)
    }
}

/// The cache file is rewritten only when the cache changed during the run
/// and the run is not a preview: a dry run never writes, and an unchanged
/// cache is left alone.
pub fn should_persist(changed: bool, dry_run: bool) -> (r: bool)
    ensures
        r == (changed && !dry_run),
{
    changed && !dry_run
}

/// Pruning is final for a run: a path removed as dead, and not among the
/// requested paths, is absent from the cache the run persists.  The two
/// hypotheses are what `prune` and `refresh` guarantee of the caches they
/// leave behind.
pub proof fn lemma_dead_path_stays_out(
    pruned: Cache,
    merged: Cache,
    reqs: Seq<Vec<u8>>,
    p: Seq<u8>,
)
    requires
        !pruned.has(p),
        forall|q: Seq<u8>|
            #![trigger merged.has(q)]
            merged.has(q) <==> (pruned.has(q) || req_has(reqs, q)),
        !req_has(reqs, p),
    ensures
        !merged.has(p),
{
}

} // verus!
