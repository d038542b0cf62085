//! The syncer extension's decisions: what a plugin's request asks for,
//! how the worker hands its batch over, and how a pulled branch is merged.
//! The repository work itself is done by the embedding code.

use vstd::prelude::*;
use vstd::string::*;
use crate::cstr::text_bytes;
use crate::json::value::bytes_copy;

verus! {

/// What a plugin asks of a repository: clone it from a URL, or pull a branch.
#[derive(Debug)]
pub enum SyncType {
    Clone(Vec<u8>),
    Pull(Vec<u8>),
}

/// The request a plugin's action makes of `thing`: a URL to clone from,
/// or the branch to pull.
pub fn sync_request(thing: &[u8], is_clone_else_pull: bool) -> (r: SyncType)
    ensures
        is_clone_else_pull ==> (r matches SyncType::Clone(u) && u@ == thing@),
        !is_clone_else_pull ==> (r matches SyncType::Pull(b) && b@ == thing@),
{
    if is_clone_else_pull {
        SyncType::Clone(bytes_copy(thing))
    } else {
        SyncType::Pull(bytes_copy(thing))
    }
}

/// The worker's turn at the queue (`syncer_thread`): when told to stop it
/// ends (`None`); otherwise it takes every queued request, in order, and
/// leaves the queue empty.
pub fn take_batch<T>(stop: bool, queue: &mut Vec<T>) -> (r: Option<Vec<T>>)
    ensures
        stop ==> r is None && final(queue)@ == old(queue)@,
        !stop ==> (r matches Some(b) && b@ == old(queue)@ && final(queue)@.len() == 0),
{
    if stop {
        return None;
    }
    let mut out: Vec<T> = Vec::new();
    std::mem::swap(&mut out, queue);
    Some(out)
}

/// What merging a fetched branch does (`do_merge`).
#[derive(Clone, Copy, Debug, PartialEq, Eq, Structural)]
pub enum MergePlan {
    /// Not a fast-forward: nothing.
    Nothing,
    /// Move the existing branch to the fetched commit, make it the head
    /// and check it out, forced.
    FastForward,
    /// Create the branch at the fetched commit, make it the head and check
    /// it out, allowing conflicts, merge-style, forced.
    CreateBranch,
}

/// The merge for an analysis that is (or is not) a fast-forward and a
/// branch that does (or does not) exist yet.
pub fn merge_plan(is_fast_forward: bool, branch_found: bool) -> (r: MergePlan)
    ensures
        !is_fast_forward ==> r == MergePlan::Nothing,
        is_fast_forward && branch_found ==> r == MergePlan::FastForward,
        is_fast_forward && !branch_found ==> r == MergePlan::CreateBranch,
{
    if !is_fast_forward {
        MergePlan::Nothing
    } else if branch_found {
        MergePlan::FastForward
    } else {
        MergePlan::CreateBranch
    }
}

/// The reference of a local branch: `refs/heads/<branch>`.
pub fn branch_refname(branch: &[u8]) -> (r: Vec<u8>)
    ensures
        r@ == "refs/heads/".spec_bytes() + branch@,
{
    let mut v = text_bytes("refs/heads/");
    let mut b = bytes_copy(branch);
    v.append(&mut b);
    v
}

/// The remote a branch is pulled from.
pub fn pull_remote() -> (r: Vec<u8>)
    ensures
        r@ == "origin".spec_bytes(),
{
    text_bytes("origin")
}

} // verus!
