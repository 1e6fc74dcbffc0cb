//! Duplicate detection.
//!
//! Detection assigns a content digest to every candidate file of non-zero
//! size and groups the candidates by equal digest, keeping only groups of
//! two or more paths.  Per run, files already sharing a storage identity
//! (hardlinks of one another) share a digest without being read again; next
//! the cache view is consulted; only then is the file's content hashed.  The
//! caller reads file contents and supplies them where `hash_plan` asks.

use vstd::prelude::*;
use crate::cache::Cache;
use crate::digest::Digest;
use crate::digest::blake2b_of;
use crate::digest::compute_digest;
use crate::identity::FileIdentity;

verus! {

/// What the detector knows of a candidate file before hashing: its path,
/// its size in bytes, and the identity of its storage.
pub struct PathMeta {
    pub path: Vec<u8>,
    pub len: u64,
    pub id: FileIdentity,
}

/// Whether the file at index `i` takes part in detection: empty files never
/// do, not even alongside other empty files.
pub open spec fn live(metas: Seq<PathMeta>, i: int) -> bool {
    metas[i].len > 0
}

/// The first live index, at or after `k`, whose storage identity is `id`.
pub open spec fn first_live_with_id(metas: Seq<PathMeta>, id: FileIdentity, k: int) -> int
    decreases metas.len() - k when 0 <= k <= metas.len()
{
    if k >= metas.len() {
        k
    } else if live(metas, k) && metas[k].id == id {
        k
    } else {
        first_live_with_id(metas, id, k + 1)
    }
}

/// The digest detection assigns to storage identity `id`: the digest of the
/// first live candidate with that identity, taken from the cache when its
/// path is cached and from its content otherwise.
pub open spec fn id_val(
    c: Cache,
    metas: Seq<PathMeta>,
    contents: Seq<Option<Vec<u8>>>,
    id: FileIdentity,
) -> Seq<u8> {
    let f = first_live_with_id(metas, id, 0);
    if c.has(metas[f].path@) {
        c.val(metas[f].path@)
    } else {
        blake2b_of(contents[f].unwrap()@)
    }
}

/// The digest detection assigns to the live candidate at index `i`: shared
/// with every other live candidate of the same storage identity.
pub open spec fn resolved_val(
    c: Cache,
    metas: Seq<PathMeta>,
    contents: Seq<Option<Vec<u8>>>,
    i: int,
) -> Seq<u8> {
    id_val(c, metas, contents, metas[i].id)
}

/// Whether detection must read and hash the file at index `i`: it is live,
/// no earlier live candidate shares its identity, and its path is not in
/// the cache view.
pub open spec fn needs_hash(c: Cache, metas: Seq<PathMeta>, i: int) -> bool {
    live(metas, i) && first_live_with_id(metas, metas[i].id, 0) == i && !c.has(metas[i].path@)
}

/// Whether index `i` occurs in the group `g`.
pub open spec fn in_group(g: Seq<usize>, i: int) -> bool {
    exists|a: int| 0 <= a < g.len() && g[a] == i
}

proof fn lemma_first_is(metas: Seq<PathMeta>, id: FileIdentity, k: int, i: int)
    requires
        0 <= k <= i < metas.len(),
        live(metas, i),
        metas[i].id == id,
        forall|j: int| k <= j < i ==> !(live(metas, j) && metas[j].id == id),
    ensures
        first_live_with_id(metas, id, k) == i,
    decreases i - k,
{
    if k < i {
        lemma_first_is(metas, id, k + 1, i);
    }
}

proof fn lemma_first_le(metas: Seq<PathMeta>, id: FileIdentity, k: int, j: int)
    requires
        0 <= k <= j < metas.len(),
        live(metas, j),
        metas[j].id == id,
    ensures
        first_live_with_id(metas, id, k) <= j,
    decreases j - k,
{
    if !(live(metas, k) && metas[k].id == id) && k < j {
        lemma_first_le(metas, id, k + 1, j);
    }
}

/// Whether some identity in `seen` equals `id`.
pub open spec fn id_listed(seen: Seq<FileIdentity>, id: FileIdentity) -> bool {
    exists|k: int| 0 <= k < seen.len() && seen[k] == id
}

fn contains_id(seen: &Vec<FileIdentity>, id: &FileIdentity) -> (r: bool)
    ensures
        r == id_listed(seen@, *id),
{
    let mut k: usize = 0;
    while k < seen.len()
        invariant
            k <= seen@.len(),
            forall|j: int| 0 <= j < k ==> seen@[j] != *id,
        decreases seen@.len() - k,
    {
        if seen[k].dev == id.dev && seen[k].ino == id.ino {
            assert(seen@[k as int] == *id);
            return true;
        }
        k += 1;
    }
    false
}

/// Says for each candidate whether detection will have to read and hash its
/// file: cached paths and identities already resolved this run are not read
/// again.
pub fn hash_plan(c: &Cache, metas: &Vec<PathMeta>) -> (plan: Vec<bool>)
    requires
        c.wf(),
    ensures
        plan@.len() == metas@.len(),
        forall|i: int| 0 <= i < metas@.len() ==> plan@[i] == needs_hash(*c, metas@, i),
{
    let mut seen: Vec<FileIdentity> = Vec::new();
    let mut plan: Vec<bool> = Vec::new();
    let mut i: usize = 0;
    while i < metas.len()
        invariant
            c.wf(),
            i <= metas@.len(),
            plan@.len() == i,
            forall|j: int|
                0 <= j < i && live(metas@, j) ==> id_listed(seen@, metas@[j].id),
            forall|k: int|
                0 <= k < seen@.len() ==> exists|j: int|
                    0 <= j < i && live(metas@, j) && metas@[j].id == #[trigger] seen@[k],
            forall|j: int| 0 <= j < i ==> plan@[j] == needs_hash(*c, metas@, j),
        decreases metas@.len() - i,
    {
        if metas[i].len > 0 {
            let id = metas[i].id;
            if contains_id(&seen, &id) {
                proof {
                    let k = choose|k: int| 0 <= k < seen@.len() && seen@[k] == id;
                    let j = choose|j: int|
                        0 <= j < i && live(metas@, j) && metas@[j].id == seen@[k];
                    lemma_first_le(metas@, id, 0, j);
                    assert(first_live_with_id(metas@, id, 0) != i as int);
                }
                plan.push(false);
            } else {
                proof {
                    assert forall|j: int| 0 <= j < i
                        implies !(live(metas@, j) && metas@[j].id == id)
                    by {
                        if live(metas@, j) {
                            assert(id_listed(seen@, metas@[j].id));
                        }
                    }
                    lemma_first_is(metas@, id, 0, i as int);
                }
                let cached = c.lookup(&metas[i].path);
                plan.push(cached.is_none());
                let ghost seen0 = seen@;
                seen.push(id);
                proof {
                    assert(seen@[seen@.len() - 1] == id);
                    assert forall|j: int|
                        0 <= j < i + 1 && live(metas@, j)
                            implies id_listed(seen@, metas@[j].id)
                    by {
                        if j < i {
                            let k = choose|k: int| 0 <= k < seen0.len() && seen0[k] == metas@[j].id;
                            assert(seen@[k] == metas@[j].id);
                        } else {
                            assert(seen@[seen@.len() - 1] == metas@[j].id);
                        }
                    }
                    assert forall|k: int| 0 <= k < seen@.len()
                        implies exists|j: int|
                            0 <= j < i + 1 && live(metas@, j) && metas@[j].id == #[trigger] seen@[k]
                    by {
                        if k < seen0.len() {
                            let j = choose|j: int|
                                0 <= j < i && live(metas@, j) && metas@[j].id == seen0[k];
                            assert(metas@[j].id == seen@[k]);
                        } else {
                            assert(live(metas@, i as int) && metas@[i as int].id == seen@[k]);
                        }
                    }
                }
            }
        } else {
            plan.push(false);
        }
        i += 1;
    }
    plan
}

/// Whether some resolved item carries candidate index `idx`.
pub open spec fn has_item(items: Seq<(usize, Digest)>, idx: int) -> bool {
    exists|t: int| 0 <= t < items.len() && items[t].0 as int == idx
}

pub open spec fn item_at(items: Seq<(usize, Digest)>, idx: int) -> int {
    choose|t: int| 0 <= t < items.len() && items[t].0 as int == idx
}

/// The digest carried for candidate index `idx`.
pub open spec fn item_val(items: Seq<(usize, Digest)>, idx: int) -> Seq<u8> {
    items[item_at(items, idx)].1@
}

/// The resolved items carry strictly increasing candidate indices.
pub open spec fn items_sorted(items: Seq<(usize, Digest)>) -> bool {
    forall|t1: int, t2: int| 0 <= t1 < t2 < items.len() ==> items[t1].0 < items[t2].0
}

proof fn lemma_item_at(items: Seq<(usize, Digest)>, t: int)
    requires
        items_sorted(items),
        0 <= t < items.len(),
    ensures
        has_item(items, items[t].0 as int),
        item_at(items, items[t].0 as int) == t,
        item_val(items, items[t].0 as int) == items[t].1@,
{
    let idx = items[t].0 as int;
    assert(has_item(items, idx));
    let t2 = item_at(items, idx);
    assert(0 <= t2 < items.len() && items[t2].0 as int == idx);
    if t < t2 {
        assert(items[t].0 < items[t2].0);
    } else if t2 < t {
        assert(items[t2].0 < items[t].0);
    }
}

fn find_group(acc: &Vec<Vec<(usize, Digest)>>, d: &Digest) -> (r: Option<usize>)
    requires
        forall|k: int| 0 <= k < acc@.len() ==> (#[trigger] acc@[k])@.len() >= 1,
    ensures
        r is Some ==> (r->0 as int) < acc@.len() && acc@[r->0 as int]@[0].1@ == d@,
        r is None ==> forall|k: int| 0 <= k < acc@.len() ==> acc@[k]@[0].1@ != d@,
{
    let mut k: usize = 0;
    while k < acc.len()
        invariant
            k <= acc@.len(),
            forall|k2: int| 0 <= k2 < acc@.len() ==> (#[trigger] acc@[k2])@.len() >= 1,
            forall|k2: int| 0 <= k2 < k ==> acc@[k2]@[0].1@ != d@,
        decreases acc@.len() - k,
    {
        if acc[k][0].1.same(d) {
            return Some(k);
        }
        k += 1;
    }
    None
}
/// The running state of grouping.  `acc` holds the items processed so far,
/// bucketed by equal digest; `prov` records for each bucket slot which item
/// it came from, and `loc` records for each processed item its bucket slot.
/// Every bucket is non-empty, a bucket's members all carry its first
/// member's digest, and distinct buckets carry distinct digests.
spec fn acc_inv(
    items: Seq<(usize, Digest)>,
    acc: Seq<Vec<(usize, Digest)>>,
    prov: Seq<Seq<int>>,
    loc: Seq<(int, int)>,
    t: int,
) -> bool {
    &&& prov.len() == acc.len()
    &&& loc.len() == t
    &&& forall|k: int|
        #![trigger prov[k]]
        0 <= k < acc.len() ==> prov[k].len() == acc[k]@.len() && acc[k]@.len() >= 1
    &&& forall|k: int, a: int|
        #![trigger prov[k][a]]
        0 <= k < acc.len() && 0 <= a < acc[k]@.len() ==> 0 <= prov[k][a] < t
            && items[prov[k][a]].0 == acc[k]@[a].0 && items[prov[k][a]].1@ == acc[k]@[a].1@
            && loc[prov[k][a]] == (k, a)
    &&& forall|t2: int|
        #![trigger loc[t2]]
        0 <= t2 < t ==> 0 <= loc[t2].0 < acc.len() && 0 <= loc[t2].1 < acc[loc[t2].0]@.len()
            && prov[loc[t2].0][loc[t2].1] == t2
    &&& forall|k: int, a: int|
        #![trigger acc[k]@[a]]
        0 <= k < acc.len() && 0 <= a < acc[k]@.len() ==> acc[k]@[a].1@ == acc[k]@[0].1@
    &&& forall|k1: int, k2: int| 0 <= k1 < k2 < acc.len() ==> acc[k1]@[0].1@ != acc[k2]@[0].1@
}

#[verifier::rlimit(40)]
proof fn lemma_acc_extend(
    items: Seq<(usize, Digest)>,
    acc0: Seq<Vec<(usize, Digest)>>,
    acc1: Seq<Vec<(usize, Digest)>>,
    prov0: Seq<Seq<int>>,
    loc0: Seq<(int, int)>,
    t: int,
    ki: int,
    item: (usize, Digest),
)
    requires
        0 <= t < items.len(),
        acc_inv(items, acc0, prov0, loc0, t),
        0 <= ki < acc0.len(),
        acc0[ki]@[0].1@ == items[t].1@,
        item.0 == items[t].0,
        item.1@ == items[t].1@,
        acc1.len() == acc0.len(),
        forall|k2: int| 0 <= k2 < acc1.len() && k2 != ki ==> acc1[k2] == acc0[k2],
        acc1[ki]@ == acc0[ki]@.push(item),
    ensures
        acc_inv(
            items,
            acc1,
            prov0.update(ki, prov0[ki].push(t)),
            loc0.push((ki, acc0[ki]@.len() as int)),
            t + 1,
        ),
{
    let prov1 = prov0.update(ki, prov0[ki].push(t));
    let na = acc0[ki]@.len() as int;
    let loc1 = loc0.push((ki, na));
    assert(acc1[ki]@[na] == item);
    assert(acc1[ki]@[0] == acc0[ki]@[0]);
    assert forall|k: int, a: int|
        #![trigger prov1[k][a]]
        0 <= k < acc1.len() && 0 <= a < acc1[k]@.len() implies 0 <= prov1[k][a] < t + 1
            && items[prov1[k][a]].0 == acc1[k]@[a].0 && items[prov1[k][a]].1@ == acc1[k]@[a].1@
            && loc1[prov1[k][a]] == (k, a)
    by {
        if k == ki && a == na {
            assert(prov1[k][a] == t);
        } else {
            assert(prov1[k][a] == prov0[k][a]);
            assert(acc1[k]@[a] == acc0[k]@[a]);
            assert(loc1[prov0[k][a]] == loc0[prov0[k][a]]);
        }
    }
    assert forall|t2: int| #![trigger loc1[t2]] 0 <= t2 < t + 1 implies 0 <= loc1[t2].0
        < acc1.len() && 0 <= loc1[t2].1 < acc1[loc1[t2].0]@.len() && prov1[loc1[t2].0][loc1[t2].1]
        == t2
    by {
        if t2 < t {
            assert(loc1[t2] == loc0[t2]);
            let (k, a) = loc0[t2];
            if k == ki {
                assert(prov1[k][a] == prov0[k][a]);
            }
        } else {
            assert(loc1[t2] == (ki, na));
            assert(prov1[ki][na] == t);
        }
    }
    assert forall|k: int, a: int|
        #![trigger acc1[k]@[a]]
        0 <= k < acc1.len() && 0 <= a < acc1[k]@.len() implies acc1[k]@[a].1@ == acc1[k]@[0].1@
    by {
        if k == ki && a == na {
        } else {
            assert(acc1[k]@[a] == acc0[k]@[a]);
        }
    }
    assert forall|k1: int, k2: int| 0 <= k1 < k2 < acc1.len() implies acc1[k1]@[0].1@
        != acc1[k2]@[0].1@
    by {
        assert(acc1[k1]@[0] == acc0[k1]@[0]);
        assert(acc1[k2]@[0] == acc0[k2]@[0]);
    }
}

#[verifier::rlimit(40)]
proof fn lemma_acc_new_group(
    items: Seq<(usize, Digest)>,
    acc0: Seq<Vec<(usize, Digest)>>,
    acc1: Seq<Vec<(usize, Digest)>>,
    prov0: Seq<Seq<int>>,
    loc0: Seq<(int, int)>,
    t: int,
    item: (usize, Digest),
)
    requires
        0 <= t < items.len(),
        acc_inv(items, acc0, prov0, loc0, t),
        forall|k: int| 0 <= k < acc0.len() ==> acc0[k]@[0].1@ != items[t].1@,
        item.0 == items[t].0,
        item.1@ == items[t].1@,
        acc1.len() == acc0.len() + 1,
        forall|k: int| 0 <= k < acc0.len() ==> acc1[k] == acc0[k],
        acc1[acc0.len() as int]@.len() == 1,
        acc1[acc0.len() as int]@[0] == item,
    ensures
        acc_inv(
            items,
            acc1,
            prov0.push(seq![t]),
            loc0.push((acc0.len() as int, 0)),
            t + 1,
        ),
{
    let nk = acc0.len() as int;
    let prov1 = prov0.push(seq![t]);
    let loc1 = loc0.push((nk, 0));
    assert(prov1[nk] == seq![t]);
    assert(prov1[nk][0] == t);
    assert forall|k: int, a: int|
        #![trigger prov1[k][a]]
        0 <= k < acc1.len() && 0 <= a < acc1[k]@.len() implies 0 <= prov1[k][a] < t + 1
            && items[prov1[k][a]].0 == acc1[k]@[a].0 && items[prov1[k][a]].1@ == acc1[k]@[a].1@
            && loc1[prov1[k][a]] == (k, a)
    by {
        if k == nk {
            assert(a == 0);
            assert(prov1[k][a] == t);
        } else {
            assert(prov1[k][a] == prov0[k][a]);
            assert(acc1[k]@[a] == acc0[k]@[a]);
            assert(loc1[prov0[k][a]] == loc0[prov0[k][a]]);
        }
    }
    assert forall|t2: int| #![trigger loc1[t2]] 0 <= t2 < t + 1 implies 0 <= loc1[t2].0
        < acc1.len() && 0 <= loc1[t2].1 < acc1[loc1[t2].0]@.len() && prov1[loc1[t2].0][loc1[t2].1]
        == t2
    by {
        if t2 < t {
            assert(loc1[t2] == loc0[t2]);
            let (k, a) = loc0[t2];
            assert(acc1[k] == acc0[k]);
            assert(prov1[k][a] == prov0[k][a]);
        } else {
            assert(loc1[t2] == (nk, 0int));
        }
    }
    assert forall|k: int, a: int|
        #![trigger acc1[k]@[a]]
        0 <= k < acc1.len() && 0 <= a < acc1[k]@.len() implies acc1[k]@[a].1@ == acc1[k]@[0].1@
    by {
        if k != nk {
            assert(acc1[k]@[a] == acc0[k]@[a]);
            assert(acc1[k]@[0] == acc0[k]@[0]);
        }
    }
    assert forall|k1: int, k2: int| 0 <= k1 < k2 < acc1.len() implies acc1[k1]@[0].1@
        != acc1[k2]@[0].1@
    by {
        if k2 == nk {
            assert(acc1[k1]@[0] == acc0[k1]@[0]);
        } else {
            assert(acc1[k1]@[0] == acc0[k1]@[0]);
            assert(acc1[k2]@[0] == acc0[k2]@[0]);
        }
    }
}

spec fn out_inv(
    acc: Seq<Vec<(usize, Digest)>>,
    out: Seq<Vec<usize>>,
    srcg: Seq<int>,
    k: int,
) -> bool {
    &&& srcg.len() == out.len()
    &&& forall|k2: int|
        #![trigger srcg[k2]]
        0 <= k2 < out.len() ==> 0 <= srcg[k2] < k && acc[srcg[k2]]@.len() >= 2 && out[k2]@.len()
            == acc[srcg[k2]]@.len()
    &&& forall|k2: int, a: int|
        #![trigger out[k2]@[a]]
        0 <= k2 < out.len() && 0 <= a < out[k2]@.len() ==> out[k2]@[a] == acc[srcg[k2]]@[a].0
    &&& forall|x: int, y: int| 0 <= x < y < srcg.len() ==> srcg[x] < srcg[y]
    &&& forall|k1: int|
        0 <= k1 < k && acc[k1]@.len() >= 2 ==> exists|k2: int|
            0 <= k2 < srcg.len() && srcg[k2] == k1
}

#[verifier::rlimit(40)]
proof fn lemma_out_facts(
    items: Seq<(usize, Digest)>,
    acc: Seq<Vec<(usize, Digest)>>,
    prov: Seq<Seq<int>>,
    loc: Seq<(int, int)>,
    out: Seq<Vec<usize>>,
    srcg: Seq<int>,
)
    requires
        items_sorted(items),
        acc_inv(items, acc, prov, loc, items.len() as int),
        out_inv(acc, out, srcg, acc.len() as int),
    ensures
        forall|k2: int, a: int|
            #![trigger out[k2]@[a]]
            0 <= k2 < out.len() && 0 <= a < out[k2]@.len() ==> has_item(items, out[k2]@[a] as int)
                && item_val(items, out[k2]@[a] as int) == acc[srcg[k2]]@[a].1@,
        forall|k1: int, a1: int, k2: int, a2: int|
            #![trigger out[k1]@[a1], out[k2]@[a2]]
            0 <= k1 < out.len() && 0 <= a1 < out[k1]@.len() && 0 <= k2 < out.len() && 0 <= a2
                < out[k2]@.len() && (k1 != k2 || a1 != a2) ==> out[k1]@[a1] != out[k2]@[a2],
{
    assert forall|k2: int, a: int|
        #![trigger out[k2]@[a]]
        0 <= k2 < out.len() && 0 <= a < out[k2]@.len() implies has_item(items, out[k2]@[a] as int)
            && item_val(items, out[k2]@[a] as int) == acc[srcg[k2]]@[a].1@
    by {
        let k1 = srcg[k2];
        let t2 = prov[k1][a];
        lemma_item_at(items, t2);
    }
    assert forall|k1: int, a1: int, k2: int, a2: int|
        #![trigger out[k1]@[a1], out[k2]@[a2]]
        0 <= k1 < out.len() && 0 <= a1 < out[k1]@.len() && 0 <= k2 < out.len() && 0 <= a2
            < out[k2]@.len() && (k1 != k2 || a1 != a2) implies out[k1]@[a1] != out[k2]@[a2]
    by {
        if k1 != k2 {
            if k1 < k2 {
                assert(srcg[k1] < srcg[k2]);
            } else {
                assert(srcg[k2] < srcg[k1]);
            }
        }
        let ta = prov[srcg[k1]][a1];
        let tb = prov[srcg[k2]][a2];
        assert(loc[ta] == (srcg[k1], a1));
        assert(loc[tb] == (srcg[k2], a2));
        assert(ta != tb);
        if ta < tb {
            assert(items[ta].0 < items[tb].0);
        } else {
            assert(items[tb].0 < items[ta].0);
        }
    }
}

#[verifier::rlimit(40)]
proof fn lemma_out_complete(
    items: Seq<(usize, Digest)>,
    acc: Seq<Vec<(usize, Digest)>>,
    prov: Seq<Seq<int>>,
    loc: Seq<(int, int)>,
    out: Seq<Vec<usize>>,
    srcg: Seq<int>,
    t1: int,
    t2: int,
)
    requires
        items_sorted(items),
        acc_inv(items, acc, prov, loc, items.len() as int),
        out_inv(acc, out, srcg, acc.len() as int),
        0 <= t1 < items.len(),
        0 <= t2 < items.len(),
        t1 != t2,
        items[t1].1@ == items[t2].1@,
    ensures
        exists|k2: int|
            0 <= k2 < out.len() && in_group(out[k2]@, items[t1].0 as int) && in_group(
                out[k2]@,
                items[t2].0 as int,
            ),
{
    let (ka, aa) = loc[t1];
    let (kb, ab) = loc[t2];
    assert(acc[ka]@[aa].1@ == items[t1].1@);
    assert(acc[kb]@[ab].1@ == items[t2].1@);
    assert(acc[ka]@[aa].1@ == acc[ka]@[0].1@);
    assert(acc[kb]@[ab].1@ == acc[kb]@[0].1@);
    if ka != kb {
        if ka < kb {
            assert(acc[ka]@[0].1@ != acc[kb]@[0].1@);
        } else {
            assert(acc[kb]@[0].1@ != acc[ka]@[0].1@);
        }
        assert(false);
    }
    assert(aa != ab);
    assert(acc[ka]@.len() >= 2);
    let k2 = choose|k2: int| 0 <= k2 < srcg.len() && srcg[k2] == ka;
    assert(out[k2]@[aa] == acc[ka]@[aa].0);
    assert(out[k2]@[ab] == acc[ka]@[ab].0);
    assert(items[t1].0 == acc[ka]@[aa].0);
    assert(items[t2].0 == acc[ka]@[ab].0);
    assert(in_group(out[k2]@, items[t1].0 as int));
    assert(in_group(out[k2]@, items[t2].0 as int));
}

#[verifier::rlimit(40)]
fn group_items(items: &Vec<(usize, Digest)>) -> (groups: Vec<Vec<usize>>)
    requires
        items_sorted(items@),
    ensures
        forall|k: int| 0 <= k < groups@.len() ==> (#[trigger] groups@[k])@.len() >= 2,
        forall|k: int, a: int|
            #![trigger groups@[k]@[a]]
            0 <= k < groups@.len() && 0 <= a < groups@[k]@.len() ==> has_item(
                items@,
                groups@[k]@[a] as int,
            ),
        forall|k: int, a: int, b: int|
            #![trigger groups@[k]@[a], groups@[k]@[b]]
            0 <= k < groups@.len() && 0 <= a < groups@[k]@.len() && 0 <= b < groups@[k]@.len()
                ==> item_val(items@, groups@[k]@[a] as int) == item_val(
                items@,
                groups@[k]@[b] as int,
            ),
        forall|t1: int, t2: int|
            #![trigger items@[t1].1, items@[t2].1]
            0 <= t1 < items@.len() && 0 <= t2 < items@.len() && t1 != t2 && items@[t1].1@
                == items@[t2].1@ ==> exists|k: int|
                0 <= k < groups@.len() && in_group(groups@[k]@, items@[t1].0 as int) && in_group(
                    groups@[k]@,
                    items@[t2].0 as int,
                ),
        forall|k1: int, a1: int, k2: int, a2: int|
            #![trigger groups@[k1]@[a1], groups@[k2]@[a2]]
            0 <= k1 < groups@.len() && 0 <= a1 < groups@[k1]@.len() && 0 <= k2 < groups@.len()
                && 0 <= a2 < groups@[k2]@.len() && (k1 != k2 || a1 != a2) ==> groups@[k1]@[a1]
                != groups@[k2]@[a2],
{
    let mut acc: Vec<Vec<(usize, Digest)>> = Vec::new();
    let ghost mut prov: Seq<Seq<int>> = Seq::empty();
    let ghost mut loc: Seq<(int, int)> = Seq::empty();
    let mut t: usize = 0;
    while t < items.len()
        invariant
            items_sorted(items@),
            t <= items@.len(),
            acc_inv(items@, acc@, prov, loc, t as int),
        decreases items@.len() - t,
    {
        let idx = items[t].0;
        let d = items[t].1.duplicate();
        let ghost item = (idx, d);
        let ghost acc0 = acc@;
        proof {
            assert forall|k2: int| 0 <= k2 < acc@.len() implies (#[trigger] acc@[k2])@.len() >= 1
            by {
                assert(prov[k2].len() == acc@[k2]@.len());
            }
        }
        let found = find_group(&acc, &d);
        match found {
            Some(k) => {
                acc[k].push((idx, d));
                proof {
                    assert(acc@[k as int]@ =~= acc0[k as int]@.push(item));
                    lemma_acc_extend(items@, acc0, acc@, prov, loc, t as int, k as int, item);
                    loc = loc.push((k as int, acc0[k as int]@.len() as int));
                    prov = prov.update(k as int, prov[k as int].push(t as int));
                }
            },
            None => {
                let mut g: Vec<(usize, Digest)> = Vec::new();
                g.push((idx, d));
                acc.push(g);
                proof {
                    assert(acc@[acc0.len() as int]@[0] == item);
                    lemma_acc_new_group(items@, acc0, acc@, prov, loc, t as int, item);
                    loc = loc.push((acc0.len() as int, 0int));
                    prov = prov.push(seq![t as int]);
                }
            },
        }
        t += 1;
    }
    let mut out: Vec<Vec<usize>> = Vec::new();
    let ghost mut srcg: Seq<int> = Seq::empty();
    let mut k: usize = 0;
    while k < acc.len()
        invariant
            items_sorted(items@),
            k <= acc@.len(),
            acc_inv(items@, acc@, prov, loc, items@.len() as int),
            out_inv(acc@, out@, srcg, k as int),
        decreases acc@.len() - k,
    {
        if acc[k].len() >= 2 {
            let mut g: Vec<usize> = Vec::new();
            let mut a: usize = 0;
            while a < acc[k].len()
                invariant
                    k < acc@.len(),
                    a <= acc@[k as int]@.len(),
                    g@.len() == a,
                    forall|x: int| 0 <= x < a ==> g@[x] == acc@[k as int]@[x].0,
                decreases acc@[k as int]@.len() - a,
            {
                g.push(acc[k][a].0);
                a += 1;
            }
            out.push(g);
            proof {
                let srcg0 = srcg;
                srcg = srcg.push(k as int);
                assert(srcg[srcg.len() - 1] == k as int);
                assert forall|k1: int|
                    0 <= k1 < k + 1 && acc@[k1]@.len() >= 2 implies exists|k2: int|
                        0 <= k2 < srcg.len() && srcg[k2] == k1
                by {
                    if k1 < k {
                        let k2 = choose|k2: int| 0 <= k2 < srcg0.len() && srcg0[k2] == k1;
                        assert(srcg[k2] == k1);
                    } else {
                        assert(srcg[srcg.len() - 1] == k1);
                    }
                }
            }
        }
        k += 1;
    }
    proof {
        assert forall|k2: int| 0 <= k2 < out@.len() implies (#[trigger] out@[k2])@.len() >= 2
        by {
            assert(0 <= srcg[k2]);
        }
        lemma_out_facts(items@, acc@, prov, loc, out@, srcg);
        assert forall|k2: int, a: int, b: int|
            #![trigger out@[k2]@[a], out@[k2]@[b]]
            0 <= k2 < out@.len() && 0 <= a < out@[k2]@.len() && 0 <= b < out@[k2]@.len()
                implies item_val(items@, out@[k2]@[a] as int) == item_val(
                items@,
                out@[k2]@[b] as int,
            )
        by {
            let k1 = srcg[k2];
            assert(acc@[k1]@[a].1@ == acc@[k1]@[0].1@);
            assert(acc@[k1]@[b].1@ == acc@[k1]@[0].1@);
        }
        assert forall|t1: int, t2: int|
            #![trigger items@[t1].1, items@[t2].1]
            0 <= t1 < items@.len() && 0 <= t2 < items@.len() && t1 != t2 && items@[t1].1@
                == items@[t2].1@ implies exists|k2: int|
                0 <= k2 < out@.len() && in_group(out@[k2]@, items@[t1].0 as int) && in_group(
                    out@[k2]@,
                    items@[t2].0 as int,
                )
        by {
            lemma_out_complete(items@, acc@, prov, loc, out@, srcg, t1, t2);
        }
    }
    out
}
/// Whether some resolved representative carries identity `id`.
pub open spec fn rep_for(reps: Seq<(FileIdentity, Digest)>, id: FileIdentity) -> bool {
    exists|k: int| 0 <= k < reps.len() && reps[k].0 == id
}

fn find_rep(reps: &Vec<(FileIdentity, Digest)>, id: &FileIdentity) -> (r: Option<usize>)
    ensures
        r is Some ==> (r->0 as int) < reps@.len() && reps@[r->0 as int].0 == *id,
        r is None ==> forall|k: int| 0 <= k < reps@.len() ==> reps@[k].0 != *id,
{
    let mut k: usize = 0;
    while k < reps.len()
        invariant
            k <= reps@.len(),
            forall|j: int| 0 <= j < k ==> reps@[j].0 != *id,
        decreases reps@.len() - k,
    {
        if reps[k].0.dev == id.dev && reps[k].0.ino == id.ino {
            assert(reps@[k as int].0 == *id);
            return Some(k);
        }
        k += 1;
    }
    None
}

/// Finds the duplicate groups among the candidates.  Each returned group is
/// a set of two or more candidate indices, all of non-zero size, all
/// resolving to one digest; every pair of live candidates with equal
/// resolved digests ends up together in exactly one group; and no candidate
/// appears twice.  `contents` must supply the bytes of every candidate that
/// `hash_plan` marks for hashing; the others are never looked at.
#[verifier::rlimit(40)]
pub fn detect(c: &Cache, metas: &Vec<PathMeta>, contents: &Vec<Option<Vec<u8>>>) -> (groups: Vec<
    Vec<usize>,
>)
    requires
        c.wf(),
        metas@.len() == contents@.len(),
        forall|i: int|
            0 <= i < metas@.len() && needs_hash(*c, metas@, i) ==> contents@[i] is Some,
    ensures
        forall|k: int| 0 <= k < groups@.len() ==> (#[trigger] groups@[k])@.len() >= 2,
        forall|k: int, a: int|
            #![trigger groups@[k]@[a]]
            0 <= k < groups@.len() && 0 <= a < groups@[k]@.len() ==> 0 <= groups@[k]@[a]
                < metas@.len() && live(metas@, groups@[k]@[a] as int),
        forall|k: int, a: int, b: int|
            #![trigger groups@[k]@[a], groups@[k]@[b]]
            0 <= k < groups@.len() && 0 <= a < groups@[k]@.len() && 0 <= b < groups@[k]@.len()
                ==> resolved_val(*c, metas@, contents@, groups@[k]@[a] as int) == resolved_val(
                *c,
                metas@,
                contents@,
                groups@[k]@[b] as int,
            ),
        forall|i: int, j: int|
            #![trigger resolved_val(*c, metas@, contents@, i), resolved_val(*c, metas@, contents@, j)]
            0 <= i < metas@.len() && 0 <= j < metas@.len() && i != j && live(metas@, i) && live(
                metas@,
                j,
            ) && resolved_val(*c, metas@, contents@, i) == resolved_val(*c, metas@, contents@, j)
                ==> exists|k: int|
                0 <= k < groups@.len() && in_group(groups@[k]@, i) && in_group(groups@[k]@, j),
        forall|k1: int, a1: int, k2: int, a2: int|
            #![trigger groups@[k1]@[a1], groups@[k2]@[a2]]
            0 <= k1 < groups@.len() && 0 <= a1 < groups@[k1]@.len() && 0 <= k2 < groups@.len()
                && 0 <= a2 < groups@[k2]@.len() && (k1 != k2 || a1 != a2) ==> groups@[k1]@[a1]
                != groups@[k2]@[a2],
{
    let mut reps: Vec<(FileIdentity, Digest)> = Vec::new();
    let mut items: Vec<(usize, Digest)> = Vec::new();
    let mut i: usize = 0;
    while i < metas.len()
        invariant
            c.wf(),
            metas@.len() == contents@.len(),
            i <= metas@.len(),
            forall|t: int|
                0 <= t < metas@.len() && needs_hash(*c, metas@, t) ==> contents@[t] is Some,
            forall|k: int|
                #![trigger reps@[k]]
                0 <= k < reps@.len() ==> reps@[k].1@ == id_val(*c, metas@, contents@, reps@[k].0),
            forall|j: int|
                0 <= j < i && live(metas@, j) ==> rep_for(reps@, metas@[j].id),
            items_sorted(items@),
            forall|t: int|
                #![trigger items@[t]]
                0 <= t < items@.len() ==> 0 <= items@[t].0 < i && live(metas@, items@[t].0 as int)
                    && items@[t].1@ == resolved_val(*c, metas@, contents@, items@[t].0 as int),
            forall|j: int| 0 <= j < i && live(metas@, j) ==> has_item(items@, j),
        decreases metas@.len() - i,
    {
        if metas[i].len > 0 {
            let id = metas[i].id;
            let ghost items0 = items@;
            let ghost reps0 = reps@;
            let found = find_rep(&reps, &id);
            match found {
                Some(k) => {
                    let d = reps[k].1.duplicate();
                    proof {
                        assert(resolved_val(*c, metas@, contents@, i as int) == id_val(
                            *c,
                            metas@,
                            contents@,
                            id,
                        ));
                    }
                    items.push((i, d));
                    proof {
                        assert(items@[items@.len() - 1] == (i, d));
                        assert forall|j: int| 0 <= j < i + 1 && live(metas@, j)
                            implies has_item(items@, j)
                        by {
                            if j < i {
                                let t = choose|t: int|
                                    0 <= t < items0.len() && items0[t].0 as int == j;
                                assert(items@[t].0 as int == j);
                            } else {
                                assert(items@[items@.len() - 1].0 as int == j);
                            }
                        }
                    }
                },
                None => {
                    proof {
                        assert forall|j: int| 0 <= j < i
                            implies !(live(metas@, j) && metas@[j].id == id)
                        by {
                            if live(metas@, j) {
                                assert(rep_for(reps@, metas@[j].id));
                                let k2 = choose|k2: int|
                                    0 <= k2 < reps@.len() && reps@[k2].0 == metas@[j].id;
                                assert(reps@[k2].0 != id);
                            }
                        }
                        lemma_first_is(metas@, id, 0, i as int);
                    }
                    let cached = c.lookup(&metas[i].path);
                    let d = match cached {
                        Some(d0) => d0,
                        None => {
                            proof {
                                assert(needs_hash(*c, metas@, i as int));
                            }
                            let cb = match &contents[i] {
                                Some(cb) => cb,
                                None => unreached(),
                            };
                            compute_digest(cb)
                        },
                    };
                    proof {
                        assert(d@ == id_val(*c, metas@, contents@, id));
                        assert(d@ == resolved_val(*c, metas@, contents@, i as int));
                    }
                    let d2 = d.duplicate();
                    reps.push((id, d2));
                    items.push((i, d));
                    proof {
                        assert(reps@[reps@.len() - 1] == (id, d2));
                        assert(items@[items@.len() - 1] == (i, d));
                        assert forall|k: int|
                            #![trigger reps@[k]]
                            0 <= k < reps@.len() implies reps@[k].1@ == id_val(
                            *c,
                            metas@,
                            contents@,
                            reps@[k].0,
                        )
                        by {
                            if k < reps0.len() {
                                assert(reps@[k] == reps0[k]);
                                assert(reps0[k].1@ == id_val(*c, metas@, contents@, reps0[k].0));
                            } else {
                                assert(d2@ == d@);
                                assert(reps@[k].1 == d2);
                            }
                        }
                        assert forall|j: int| 0 <= j < i + 1 && live(metas@, j)
                            implies rep_for(reps@, metas@[j].id)
                        by {
                            if j < i {
                                let k2 = choose|k2: int|
                                    0 <= k2 < reps0.len() && reps0[k2].0 == metas@[j].id;
                                assert(reps@[k2].0 == metas@[j].id);
                            } else {
                                assert(reps@[reps@.len() - 1].0 == metas@[j].id);
                            }
                        }
                        assert forall|j: int| 0 <= j < i + 1 && live(metas@, j)
                            implies has_item(items@, j)
                        by {
                            if j < i {
                                let t = choose|t: int|
                                    0 <= t < items0.len() && items0[t].0 as int == j;
                                assert(items@[t].0 as int == j);
                            } else {
                                assert(items@[items@.len() - 1].0 as int == j);
                            }
                        }
                    }
                },
            }
        }
        i += 1;
    }
    let groups = group_items(&items);
    proof {
        assert forall|k: int, a: int|
            #![trigger groups@[k]@[a]]
            0 <= k < groups@.len() && 0 <= a < groups@[k]@.len() implies 0 <= groups@[k]@[a]
                < metas@.len() && live(metas@, groups@[k]@[a] as int) && item_val(
                items@,
                groups@[k]@[a] as int,
            ) == resolved_val(*c, metas@, contents@, groups@[k]@[a] as int)
        by {
            let idx = groups@[k]@[a] as int;
            assert(has_item(items@, idx));
            let t = item_at(items@, idx);
            assert(0 <= t < items@.len() && items@[t].0 as int == idx);
            lemma_item_at(items@, t);
        }
        assert forall|i2: int, j2: int|
            #![trigger resolved_val(*c, metas@, contents@, i2), resolved_val(*c, metas@, contents@, j2)]
            0 <= i2 < metas@.len() && 0 <= j2 < metas@.len() && i2 != j2 && live(metas@, i2)
                && live(metas@, j2) && resolved_val(*c, metas@, contents@, i2) == resolved_val(
                *c,
                metas@,
                contents@,
                j2,
            ) implies exists|k: int|
            0 <= k < groups@.len() && in_group(groups@[k]@, i2) && in_group(groups@[k]@, j2)
        by {
            assert(has_item(items@, i2));
            assert(has_item(items@, j2));
            let t1 = choose|t: int| 0 <= t < items@.len() && items@[t].0 as int == i2;
            let t2 = choose|t: int| 0 <= t < items@.len() && items@[t].0 as int == j2;
            assert(items@[t1].1@ == resolved_val(*c, metas@, contents@, i2));
            assert(items@[t2].1@ == resolved_val(*c, metas@, contents@, j2));
            assert(t1 != t2);
            assert(items@[t1].1@ == items@[t2].1@);
            let k = choose|k: int|
                0 <= k < groups@.len() && in_group(groups@[k]@, items@[t1].0 as int) && in_group(
                    groups@[k]@,
                    items@[t2].0 as int,
                );
            assert(in_group(groups@[k]@, i2) && in_group(groups@[k]@, j2));
        }
    }
    groups
}

/// Turns groups of candidate indices into groups of the candidates' paths.
pub fn group_paths(metas: &Vec<PathMeta>, groups: &Vec<Vec<usize>>) -> (r: Vec<Vec<Vec<u8>>>)
    requires
        forall|k: int, a: int|
            #![trigger groups@[k]@[a]]
            0 <= k < groups@.len() && 0 <= a < groups@[k]@.len() ==> groups@[k]@[a]
                < metas@.len(),
    ensures
        r@.len() == groups@.len(),
        forall|k: int|
            #![trigger r@[k]]
            0 <= k < groups@.len() ==> r@[k]@.len() == groups@[k]@.len(),
        forall|k: int, a: int|
            #![trigger r@[k]@[a]]
            0 <= k < groups@.len() && 0 <= a < groups@[k]@.len() ==> r@[k]@[a]@
                == metas@[groups@[k]@[a] as int].path@,
{
    let mut r: Vec<Vec<Vec<u8>>> = Vec::new();
    let mut k: usize = 0;
    while k < groups.len()
        invariant
            forall|k2: int, a: int|
                #![trigger groups@[k2]@[a]]
                0 <= k2 < groups@.len() && 0 <= a < groups@[k2]@.len() ==> groups@[k2]@[a]
                    < metas@.len(),
            k <= groups@.len(),
            r@.len() == k,
            forall|k2: int|
                #![trigger r@[k2]]
                0 <= k2 < k ==> r@[k2]@.len() == groups@[k2]@.len(),
            forall|k2: int, a: int|
                #![trigger r@[k2]@[a]]
                0 <= k2 < k && 0 <= a < groups@[k2]@.len() ==> r@[k2]@[a]@
                    == metas@[groups@[k2]@[a] as int].path@,
        decreases groups@.len() - k,
    {
        let mut g: Vec<Vec<u8>> = Vec::new();
        let mut a: usize = 0;
        while a < groups[k].len()
            invariant
                forall|k2: int, a2: int|
                    #![trigger groups@[k2]@[a2]]
                    0 <= k2 < groups@.len() && 0 <= a2 < groups@[k2]@.len() ==> groups@[k2]@[a2]
                        < metas@.len(),
                k < groups@.len(),
                a <= groups@[k as int]@.len(),
                g@.len() == a,
                forall|a2: int|
                    #![trigger g@[a2]]
                    0 <= a2 < a ==> g@[a2]@ == metas@[groups@[k as int]@[a2] as int].path@,
            decreases groups@[k as int]@.len() - a,
        {
            let idx = groups[k][a];
            g.push(crate::bytes::copy_bytes(&metas[idx].path));
            a += 1;
        }
        r.push(g);
        k += 1;
    }
    r
}

/// Cache correctness: when a live candidate's path is in the cache view and
/// no earlier live candidate shares its identity, detection resolves
/// exactly the cached digest and never asks for the file's content — even
/// if the file changed on disk after the entry was written.
pub proof fn lemma_cached_digest_used(
    c: Cache,
    metas: Seq<PathMeta>,
    contents: Seq<Option<Vec<u8>>>,
    i: int,
)
    requires
        c.wf(),
        0 <= i < metas.len(),
        live(metas, i),
        first_live_with_id(metas, metas[i].id, 0) == i,
        c.has(metas[i].path@),
    ensures
        resolved_val(c, metas, contents, i) == c.val(metas[i].path@),
        !needs_hash(c, metas, i),
{
}

} // verus!
