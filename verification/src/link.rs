//! Hardlink planning.
//!
//! A duplicate group is merged by picking its first member as the
//! representative and judging every other member against it: an equal
//! identity means the two paths are already the same physical file, a
//! shared device allows a merge (remove the candidate path, then hardlink
//! it to the representative), and distinct devices forbid one.  The caller
//! carries the planned actions out; the decisions are made here.

use vstd::prelude::*;
use crate::identity::FileIdentity;

verus! {

/// What the deduplicator does with one duplicate candidate, judged against
/// the group's representative.
#[derive(PartialEq, Eq, Structural, Clone, Copy, Debug)]
pub enum LinkAction {
    /// Representative and candidate are already the same physical file:
    /// nothing to do.
    AlreadyLinked,
    /// Same device, different identity: remove the candidate path, then
    /// hardlink it to the representative.
    MakeLink,
    /// Different devices: the content is duplicated, but a hardlink cannot
    /// cross devices; the candidate is left alone.
    CrossDevice,
}

/// The safety rule for one candidate.
pub open spec fn spec_plan(rep: FileIdentity, cand: FileIdentity) -> LinkAction {
    if cand == rep {
        LinkAction::AlreadyLinked
    } else if cand.dev == rep.dev {
        LinkAction::MakeLink
    } else {
        LinkAction::CrossDevice
    }
}

/// Decides what to do with one candidate.
pub fn plan_link(rep: &FileIdentity, cand: &FileIdentity) -> (a: LinkAction)
    ensures
        a == spec_plan(*rep, *cand),
{
    if cand.dev == rep.dev && cand.ino == rep.ino {
        LinkAction::AlreadyLinked
    } else if cand.dev == rep.dev {
        LinkAction::MakeLink
    } else {
        LinkAction::CrossDevice
    }
}

/// Plans a whole group: `ids[0]` is the representative, and `acts[t]` says
/// what to do with the member whose identity is `ids[t + 1]`.
pub fn plan_group(ids: &Vec<FileIdentity>) -> (acts: Vec<LinkAction>)
    requires
        ids@.len() >= 1,
    ensures
        acts@.len() == ids@.len() - 1,
        forall|t: int| 0 <= t < acts@.len() ==> acts@[t] == spec_plan(ids@[0], ids@[t + 1]),
{
    let rep = ids[0];
    let mut acts: Vec<LinkAction> = Vec::new();
    let mut t: usize = 1;
    while t < ids.len()
        invariant
            1 <= t <= ids@.len(),
            rep == ids@[0],
            acts@.len() == t - 1,
            forall|x: int| 0 <= x < acts@.len() ==> acts@[x] == spec_plan(ids@[0], ids@[x + 1]),
        decreases ids@.len() - t,
    {
        let a = plan_link(&rep, &ids[t]);
        acts.push(a);
        t += 1;
    }
    acts
}

/// The identity a merged candidate ends up with: a candidate on the
/// representative's device takes the representative's identity (it is
/// either merged now or was already the same file); one on another device
/// keeps its own.
pub open spec fn spec_merge(rep: FileIdentity, cand: FileIdentity) -> FileIdentity {
    if cand.dev == rep.dev {
        rep
    } else {
        cand
    }
}

/// The identities of a whole group after its planned actions are carried
/// out.
pub open spec fn merged_ids(ids: Seq<FileIdentity>) -> Seq<FileIdentity> {
    Seq::new(
        ids.len(),
        |t: int|
            if t == 0 {
                ids[0]
            } else {
                spec_merge(ids[0], ids[t])
            },
    )
}

/// Computes the identities the group's members have after the planned
/// actions are carried out.
pub fn merge_group_model(ids: &Vec<FileIdentity>) -> (post: Vec<FileIdentity>)
    requires
        ids@.len() >= 1,
    ensures
        post@ == merged_ids(ids@),
{
    let rep = ids[0];
    let mut post: Vec<FileIdentity> = Vec::new();
    post.push(rep);
    let mut t: usize = 1;
    while t < ids.len()
        invariant
            1 <= t <= ids@.len(),
            rep == ids@[0],
            post@.len() == t,
            forall|x: int| 0 <= x < t ==> post@[x] == merged_ids(ids@)[x],
        decreases ids@.len() - t,
    {
        if ids[t].dev == rep.dev {
            post.push(rep);
        } else {
            post.push(ids[t]);
        }
        t += 1;
    }
    proof {
        assert(post@ =~= merged_ids(ids@));
    }
    post
}

/// After a run, the group members on the representative's device all share
/// its identity; members on other devices keep their distinct identities
/// and are left unmerged.
pub proof fn lemma_same_device_share_identity(ids: Seq<FileIdentity>, t: int)
    requires
        ids.len() >= 1,
        0 <= t < ids.len(),
    ensures
        ids[t].dev == ids[0].dev ==> merged_ids(ids)[t] == ids[0],
        ids[t].dev != ids[0].dev ==> merged_ids(ids)[t] == ids[t],
{
}

/// A second run over the merged group performs no further hardlink
/// operation: every candidate is then either the same physical file as the
/// representative or on another device.
pub proof fn lemma_plan_idempotent(ids: Seq<FileIdentity>, t: int)
    requires
        ids.len() >= 1,
        1 <= t < ids.len(),
    ensures
        spec_plan(merged_ids(ids)[0], merged_ids(ids)[t]) != LinkAction::MakeLink,
{
}

} // verus!
