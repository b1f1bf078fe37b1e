//! Panels and other layer surfaces: which output one is on, and which windows
//! have to make room for it.
use vstd::prelude::*;

use crate::graph_stack::GraphStack;
use crate::handlers::xdg_shell::{list_main_windows, main_windows_of};
use crate::chrome::Rect;
use crate::stack_model::{consoles, SlotView};
use crate::tree::acyclic;

verus! {

/// The output of a new layer surface: the one its client asks for, else the
/// focused one, if there is any.
pub fn layer_output(requested: Option<u64>, focused: Option<u64>) -> (r: Option<u64>)
    ensures
        r == if requested is Some {
            requested
        } else {
            focused
        },
{
    if requested.is_some() {
        requested
    } else {
        focused
    }
}

/// Whether output `i` is the first on which a layer surface is found.
pub open spec fn first_mapped(mapped: Seq<bool>, i: int) -> bool {
    &&& 0 <= i < mapped.len()
    &&& mapped[i]
    &&& forall|k: int| 0 <= k < i ==> !#[trigger] mapped[k]
}

/// The output that a layer surface is on: the one remembered for it, else the
/// first on which it is found. `mapped` says for each output whether the
/// surface is found there.
pub fn layer_home(stack: &GraphStack, remembered: Option<u64>, mapped: &Vec<bool>) -> (r: Option<
    u64,
>)
    requires
        mapped@.len() == stack@.slots.len(),
    ensures
        match remembered {
            Some(output) => r == Some(output),
            None => match r {
                Some(output) => exists|i: int| #[trigger]
                    first_mapped(mapped@, i) && output == stack@.slots[i].output,
                None => forall|i: int| 0 <= i < mapped@.len() ==> !#[trigger] mapped@[i],
            },
        },
{
    if remembered.is_some() {
        return remembered;
    }
    let count: usize = stack.output_count();
    for i in 0..mapped.len()
        invariant
            remembered is None,
            mapped@.len() == stack@.slots.len(),
            count == stack@.slots.len(),
            forall|k: int| 0 <= k < i ==> !#[trigger] mapped@[k],
    {
        if mapped[i] {
            assert(first_mapped(mapped@, i as int));
            return Some(stack.output_at(i));
        }
    }
    None
}

/// The windows to configure anew on an output whose usable area changed: the
/// Main Windows of all its consoles, shown or not, and no other output's.
pub fn reconfigure_main_windows(stack: &GraphStack, output_index: usize) -> (r: Vec<u64>)
    requires
        acyclic(stack@.kids),
        output_index < stack@.slots.len(),
    ensures
        r@ == main_windows_of(consoles(stack@.nodes, stack@.ids_on(output_index as int))),
{
    list_main_windows(&stack.all_huts_for(output_index))
}

/// Whether slot `i` is the first that shows on an output.
pub open spec fn is_slot_of(slots: Seq<SlotView>, output: u64, i: int) -> bool {
    &&& 0 <= i < slots.len()
    &&& slots[i].output == output
    &&& forall|j: int| 0 <= j < i ==> (#[trigger] slots[j]).output != output
}

/// The windows to configure anew after an output's layers were arranged:
/// none if its usable area is what it was, or if the output is not one of the
/// stack's.
pub fn after_arranging(stack: &GraphStack, output: u64, before: Rect, after: Rect) -> (r: Vec<u64>)
    requires
        acyclic(stack@.kids),
    ensures
        before == after ==> r@ == Seq::<u64>::empty(),
        before != after ==> forall|i: int| #[trigger]
            is_slot_of(stack@.slots, output, i) ==> r@ == main_windows_of(
                consoles(stack@.nodes, stack@.ids_on(i)),
            ),
        (forall|i: int| !#[trigger] is_slot_of(stack@.slots, output, i)) ==> r@ == Seq::<
            u64,
        >::empty(),
{
    if before == after {
        return Vec::new();
    }
    match stack.output_index_for(output) {
        Some(i) => {
            assert(is_slot_of(stack@.slots, output, i as int));
            reconfigure_main_windows(stack, i)
        },
        None => Vec::new(),
    }
}

} // verus!
