//! Surface commits and scale: whose commit it is, and which output's scale a
//! surface gets.
use vstd::prelude::*;

use crate::graph_stack::GraphStack;
use crate::tree::acyclic;

verus! {

/// The root of a surface tree from `surface` up, `parents` being the parents of
/// the surfaces on the way: the last of them, or the surface itself.
pub open spec fn root_of(surface: u64, parents: Seq<u64>) -> u64 {
    if parents.len() == 0 {
        surface
    } else {
        parents.last()
    }
}

/// The root of a surface tree. `parents` holds the surface's parent, that
/// one's parent, and so on.
pub fn surface_root(surface: u64, parents: &Vec<u64>) -> (r: u64)
    ensures
        r == root_of(surface, parents@),
{
    if parents.len() == 0 {
        surface
    } else {
        parents[parents.len() - 1]
    }
}

/// What a commit notifies: the surface whose window is told of it, if any, and
/// whether that is the window of the committed surface itself.
#[derive(Debug, Clone, Copy, PartialEq, Eq)]
pub struct CommitTarget {
    pub notify_root: Option<u64>,
    pub root_is_surface: bool,
}

/// What a commit notifies. A subsurface whose commits wait for its parent's
/// notifies nothing.
pub fn commit_target(surface: u64, is_sync_subsurface: bool, parents: &Vec<u64>) -> (r: CommitTarget)
    ensures
        r == if is_sync_subsurface {
            CommitTarget { notify_root: None, root_is_surface: false }
        } else {
            CommitTarget {
                notify_root: Some(root_of(surface, parents@)),
                root_is_surface: root_of(surface, parents@) == surface,
            }
        },
{
    if is_sync_subsurface {
        return CommitTarget { notify_root: None, root_is_surface: false };
    }
    let root: u64 = surface_root(surface, parents);
    CommitTarget { notify_root: Some(root), root_is_surface: root == surface }
}

/// The output whose scale a new surface is told: that of the console its client
/// belongs to, else the focused one; `None` while there is no output, since a
/// scale once told is never corrected.
pub fn fractional_scale_output(stack: &GraphStack, has_output: bool, owner: Option<u64>) -> (r:
    Option<usize>)
    requires
        acyclic(stack@.kids),
    ensures
        r == if !has_output {
            None
        } else if owner is Some && stack@.output_of(owner->0, 0) < stack@.slots.len() {
            Some(stack@.output_of(owner->0, 0) as usize)
        } else {
            Some(stack@.focused)
        },
{
    if !has_output {
        return None;
    }
    if let Some(hut) = owner {
        let index = stack.output_index_for_hut(hut);
        if index.is_some() {
            return index;
        }
    }
    Some(stack.focused_output_index())
}

/// The root of a surface that has no parent is the surface itself; that of
/// another one is the root of its parent.
pub proof fn law_root_is_the_parents_root(surface: u64, parents: Seq<u64>)
    ensures
        parents.len() == 0 ==> root_of(surface, parents) == surface,
        parents.len() > 0 ==> root_of(surface, parents) == root_of(
            parents[0],
            parents.drop_first(),
        ),
{
}

} // verus!
