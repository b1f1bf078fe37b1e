//! That a window is held once: by one console, and there as a Main Window, a
//! Floating Window or an Alert, in one place.
use vstd::prelude::*;

use crate::console_hut::{alert_owner, float_owner, main_index, nested_index, HutView};
use crate::graph::NodeId;
use crate::graph_nodes::NodeView;
use crate::hut::Direction;
use crate::main_window::{alert_index, float_index, Alert, Dock, EntryView, FloatingWindow};
use crate::stack_model::{
    first_console, first_holder, first_parent, is_holder, StackView, WrapKind,
};
use crate::tree::subtree;

verus! {

/// How often a window is one of these Floating Windows.
pub open spec fn times_floating(floats: Seq<FloatingWindow>, window: u64) -> nat
    decreases floats.len(),
{
    if floats.len() == 0 {
        0
    } else {
        times_floating(floats.drop_last(), window) + if floats.last().window == window {
            1nat
        } else {
            0nat
        }
    }
}

/// How often a window is one of these Alerts.
pub open spec fn times_alert(alerts: Seq<Alert>, window: u64) -> nat
    decreases alerts.len(),
{
    if alerts.len() == 0 {
        0
    } else {
        times_alert(alerts.drop_last(), window) + if alerts.last().window == window {
            1nat
        } else {
            0nat
        }
    }
}

/// How often a window is held by these tabs.
pub open spec fn times_held(windows: Seq<EntryView>, window: u64) -> nat
    decreases windows.len(),
{
    if windows.len() == 0 {
        0
    } else {
        times_held(windows.drop_last(), window) + windows.last().times(window)
    }
}

impl EntryView {
    /// How often a window is held by this tab: as its Main Window, its
    /// Floating Window or its Alert.
    pub open spec fn times(self, window: u64) -> nat {
        (if self.window == window {
            1nat
        } else {
            0nat
        }) + times_floating(self.floats, window) + times_alert(self.alerts, window)
    }
}

impl HutView {
    /// Whether the console holds no window in two places.
    pub open spec fn holds_once(self) -> bool {
        forall|window: u64| #[trigger] times_held(self.windows, window) <= 1
    }
}

pub proof fn lemma_times_floating_remove(floats: Seq<FloatingWindow>, i: int, window: u64)
    requires
        0 <= i < floats.len(),
    ensures
        times_floating(floats, window) == times_floating(floats.remove(i), window) + if floats[i].window
            == window {
            1int
        } else {
            0int
        },
    decreases floats.len(),
{
    if i == floats.len() - 1 {
        assert(floats.remove(i) =~= floats.drop_last());
    } else {
        lemma_times_floating_remove(floats.drop_last(), i, window);
        assert(floats.remove(i).drop_last() =~= floats.drop_last().remove(i));
    }
}

pub proof fn lemma_times_alert_remove(alerts: Seq<Alert>, i: int, window: u64)
    requires
        0 <= i < alerts.len(),
    ensures
        times_alert(alerts, window) == times_alert(alerts.remove(i), window) + if alerts[i].window
            == window {
            1int
        } else {
            0int
        },
    decreases alerts.len(),
{
    if i == alerts.len() - 1 {
        assert(alerts.remove(i) =~= alerts.drop_last());
    } else {
        lemma_times_alert_remove(alerts.drop_last(), i, window);
        assert(alerts.remove(i).drop_last() =~= alerts.drop_last().remove(i));
    }
}

pub proof fn lemma_times_held_remove(windows: Seq<EntryView>, i: int, window: u64)
    requires
        0 <= i < windows.len(),
    ensures
        times_held(windows, window) == times_held(windows.remove(i), window) + windows[i].times(
            window,
        ),
    decreases windows.len(),
{
    if i == windows.len() - 1 {
        assert(windows.remove(i) =~= windows.drop_last());
    } else {
        lemma_times_held_remove(windows.drop_last(), i, window);
        assert(windows.remove(i).drop_last() =~= windows.drop_last().remove(i));
    }
}

pub proof fn lemma_times_held_update(windows: Seq<EntryView>, i: int, entry: EntryView, window: u64)
    requires
        0 <= i < windows.len(),
    ensures
        times_held(windows.update(i, entry), window) + windows[i].times(window) == times_held(
            windows,
            window,
        ) + entry.times(window),
{
    let after = windows.update(i, entry);
    lemma_times_held_remove(windows, i, window);
    lemma_times_held_remove(after, i, window);
    assert(after.remove(i) =~= windows.remove(i));
}

pub proof fn lemma_times_held_push(windows: Seq<EntryView>, entry: EntryView, window: u64)
    ensures
        times_held(windows.push(entry), window) == times_held(windows, window) + entry.times(window),
{
    assert(windows.push(entry).drop_last() =~= windows);
}

/// Two tabs hold a window no more often than all of them do.
pub proof fn lemma_two_tabs(windows: Seq<EntryView>, i: int, j: int, window: u64)
    requires
        0 <= i < windows.len(),
        0 <= j < windows.len(),
        i != j,
    ensures
        windows[i].times(window) + windows[j].times(window) <= times_held(windows, window),
{
    lemma_times_held_remove(windows, i, window);
    let rest = windows.remove(i);
    let k = if j < i {
        j
    } else {
        j - 1
    };
    assert(rest[k] == windows[j]);
    lemma_times_held_remove(rest, k, window);
}

pub proof fn lemma_floating_found(floats: Seq<FloatingWindow>, window: u64)
    ensures
        0 <= float_index(floats, window) <= floats.len(),
        float_index(floats, window) < floats.len() ==> floats[float_index(floats, window)].window
            == window,
        float_index(floats, window) < floats.len() <==> times_floating(floats, window) > 0,
    decreases floats.len(),
{
    if floats.len() > 0 {
        let t = floats.drop_first();
        lemma_floating_found(t, window);
        lemma_times_floating_remove(floats, 0, window);
        assert(floats.remove(0) =~= t);
    }
}

pub proof fn lemma_alert_found(alerts: Seq<Alert>, window: u64)
    ensures
        0 <= alert_index(alerts, window) <= alerts.len(),
        alert_index(alerts, window) < alerts.len() ==> alerts[alert_index(alerts, window)].window
            == window,
        alert_index(alerts, window) < alerts.len() <==> times_alert(alerts, window) > 0,
    decreases alerts.len(),
{
    if alerts.len() > 0 {
        let t = alerts.drop_first();
        lemma_alert_found(t, window);
        lemma_times_alert_remove(alerts, 0, window);
        assert(alerts.remove(0) =~= t);
    }
}

/// Where a window is found among these tabs, it is held.
pub proof fn lemma_found(windows: Seq<EntryView>, window: u64)
    ensures
        ({
            let n = windows.len();
            let m = main_index(windows, window);
            let k = nested_index(windows, window);
            let f = float_owner(windows, window);
            let a = alert_owner(windows, window);
            &&& 0 <= m <= n && 0 <= k <= n && 0 <= f <= n && 0 <= a <= n
            &&& m < n ==> windows[m].window == window
            &&& k < n ==> windows[k].nests(window)
            &&& f < n ==> times_floating(windows[f].floats, window) > 0
            &&& a < n ==> times_alert(windows[a].alerts, window) > 0
            &&& k < n <==> f < n || a < n
            &&& times_held(windows, window) > 0 <==> m < n || k < n
        }),
    decreases windows.len(),
{
    if windows.len() > 0 {
        let t = windows.drop_first();
        lemma_found(t, window);
        lemma_times_held_remove(windows, 0, window);
        assert(windows.remove(0) =~= t);
        lemma_floating_found(windows[0].floats, window);
        lemma_alert_found(windows[0].alerts, window);
    }
}

/// A window that is held once is a Main Window, a Floating Window or an Alert,
/// and no two of these.
pub proof fn law_held_in_one_place(hut: HutView, window: u64)
    requires
        hut.holds_once(),
    ensures
        ({
            let n = hut.windows.len();
            let main = main_index(hut.windows, window) < n;
            let floats = float_owner(hut.windows, window) < n;
            let alerts = alert_owner(hut.windows, window) < n;
            &&& !(main && floats)
            &&& !(main && alerts)
            &&& !(floats && alerts)
            &&& hut.holds(window) <==> main || floats || alerts
        }),
{
    lemma_found(hut.windows, window);
    let m = main_index(hut.windows, window);
    let f = float_owner(hut.windows, window);
    let a = alert_owner(hut.windows, window);
    let n = hut.windows.len();
    assert(times_held(hut.windows, window) <= 1);
    if m < n {
        lemma_times_held_remove(hut.windows, m, window);
    }
    if f < n {
        lemma_times_held_remove(hut.windows, f, window);
    }
    if a < n {
        lemma_times_held_remove(hut.windows, a, window);
    }
    if m < n && f < n && m != f {
        lemma_two_tabs(hut.windows, m, f, window);
    }
    if m < n && a < n && m != a {
        lemma_two_tabs(hut.windows, m, a, window);
    }
    if f < n && a < n && f != a {
        lemma_two_tabs(hut.windows, f, a, window);
    }
}

/// A tab for a window that is not held yet leaves every window held once.
pub proof fn lemma_pushed_once(hut: HutView, entry: EntryView)
    requires
        hut.holds_once(),
        !hut.holds(entry.window),
        entry.floats.len() == 0,
        entry.alerts.len() == 0,
    ensures
        ({
            let after = HutView { windows: hut.windows.push(entry), ..hut };
            &&& after.holds_once()
            &&& after.holds(entry.window)
            &&& forall|w: u64| #[trigger] after.holds(w) ==> hut.holds(w) || w == entry.window
        }),
{
    let after = HutView { windows: hut.windows.push(entry), ..hut };
    assert forall|w: u64| #[trigger] times_held(after.windows, w) <= 1 by {
        lemma_times_held_push(hut.windows, entry, w);
        lemma_found(hut.windows, w);
        assert(times_held(hut.windows, w) <= 1);
    }
    lemma_times_held_push(hut.windows, entry, entry.window);
    lemma_found(after.windows, entry.window);
    assert forall|w: u64| #[trigger] after.holds(w) implies hut.holds(w) || w == entry.window by {
        lemma_times_held_push(hut.windows, entry, w);
        lemma_found(hut.windows, w);
        lemma_found(after.windows, w);
    }
}

/// Without a tab, every window is held once if it was.
pub proof fn lemma_untabbed_once(hut: HutView, i: int)
    requires
        hut.holds_once(),
        0 <= i < hut.windows.len(),
    ensures
        hut.without_tab(i).holds_once(),
        !hut.without_tab(i).holds(hut.windows[i].window),
        forall|w: u64| #[trigger] hut.without_tab(i).holds(w) ==> hut.holds(w),
{
    let after = hut.without_tab(i);
    assert forall|w: u64| #[trigger] times_held(after.windows, w) <= 1 by {
        lemma_times_held_remove(hut.windows, i, w);
        assert(times_held(hut.windows, w) <= 1);
    }
    let gone = hut.windows[i].window;
    lemma_times_held_remove(hut.windows, i, gone);
    assert(times_held(hut.windows, gone) <= 1);
    lemma_found(after.windows, gone);
    assert forall|w: u64| #[trigger] after.holds(w) implies hut.holds(w) by {
        lemma_times_held_remove(hut.windows, i, w);
        lemma_found(hut.windows, w);
        lemma_found(after.windows, w);
    }
}

pub proof fn lemma_unnested_times(entry: EntryView, surface: u64, window: u64)
    requires
        entry.nests(surface),
    ensures
        entry.times(window) == entry.without_nested(surface).times(window) + if window == surface {
            1int
        } else {
            0int
        },
{
    lemma_floating_found(entry.floats, surface);
    lemma_alert_found(entry.alerts, surface);
    let f = float_index(entry.floats, surface);
    let a = alert_index(entry.alerts, surface);
    if f < entry.floats.len() {
        lemma_times_floating_remove(entry.floats, f, window);
    } else {
        lemma_times_alert_remove(entry.alerts, a, window);
    }
}

/// Without a Floating Window or Alert, every window is held once if it was.
pub proof fn lemma_unnested_once(hut: HutView, surface: u64)
    requires
        hut.holds_once(),
    ensures
        hut.without_nested(surface).holds_once(),
        nested_index(hut.windows, surface) < hut.windows.len() ==> !hut.without_nested(
            surface,
        ).holds(surface),
        forall|w: u64| #[trigger] hut.without_nested(surface).holds(w) ==> hut.holds(w),
{
    let after = hut.without_nested(surface);
    let n = nested_index(hut.windows, surface);
    lemma_found(hut.windows, surface);
    if n < hut.windows.len() {
        let entry = hut.windows[n].without_nested(surface);
        assert forall|w: u64|
            times_held(hut.windows, w) == #[trigger] times_held(after.windows, w) + if w == surface {
                1int
            } else {
                0int
            } by {
            lemma_times_held_update(hut.windows, n, entry, w);
            lemma_unnested_times(hut.windows[n], surface, w);
        }
        assert forall|w: u64| #[trigger] times_held(after.windows, w) <= 1 by {
            assert(times_held(hut.windows, w) <= 1);
        }
        assert(times_held(hut.windows, surface) <= 1);
        assert(times_held(after.windows, surface) == 0);
        lemma_found(after.windows, surface);
        assert forall|w: u64| #[trigger] after.holds(w) implies hut.holds(w) by {
            lemma_found(after.windows, w);
            lemma_found(hut.windows, w);
        }
    }
}

/// Once a window is gone, every other one is held once if it was, and that one
/// is not held.
pub proof fn law_removed_window_is_gone(hut: HutView, surface: u64)
    requires
        hut.holds_once(),
    ensures
        hut.without_window(surface).holds_once(),
        !hut.without_window(surface).holds(surface),
        forall|w: u64| #[trigger] hut.without_window(surface).holds(w) ==> hut.holds(w),
{
    lemma_found(hut.windows, surface);
    let i = main_index(hut.windows, surface);
    let after = hut.without_window(surface);
    if i < hut.windows.len() {
        lemma_untabbed_once(hut, i);
        let tabs = hut.without_tab(i);
        assert(after.windows == tabs.windows);
        assert forall|w: u64| #[trigger] after.holds(w) implies hut.holds(w) by {
            assert(tabs.holds(w));
        }
        assert(!tabs.holds(surface));
    } else {
        lemma_unnested_once(hut, surface);
    }
}

/// A window put under a tab that was not held yet leaves every window held
/// once.
pub proof fn lemma_nested_once(hut: HutView, j: int, entry: EntryView, surface: u64)
    requires
        hut.holds_once(),
        !hut.holds(surface),
        0 <= j < hut.windows.len(),
        forall|w: u64| #[trigger]
            entry.times(w) == hut.windows[j].times(w) + if w == surface {
                1int
            } else {
                0int
            },
    ensures
        ({
            let after = HutView { windows: hut.windows.update(j, entry), ..hut };
            &&& after.holds_once()
            &&& after.holds(surface)
            &&& forall|w: u64| #[trigger] after.holds(w) ==> hut.holds(w) || w == surface
        }),
{
    let after = HutView { windows: hut.windows.update(j, entry), ..hut };
    assert forall|w: u64|
        #[trigger] times_held(after.windows, w) == times_held(hut.windows, w) + if w == surface {
            1int
        } else {
            0int
        } by {
        lemma_times_held_update(hut.windows, j, entry, w);
    }
    lemma_found(hut.windows, surface);
    assert forall|w: u64| #[trigger] times_held(after.windows, w) <= 1 by {
        assert(times_held(hut.windows, w) <= 1);
    }
    assert(times_held(after.windows, surface) == 1);
    lemma_found(after.windows, surface);
    assert forall|w: u64| #[trigger] after.holds(w) implies hut.holds(w) || w == surface by {
        assert(times_held(after.windows, w) == times_held(hut.windows, w) + if w == surface {
            1int
        } else {
            0int
        });
        lemma_found(after.windows, w);
        lemma_found(hut.windows, w);
    }
}

/// Putting a Floating Window elsewhere leaves every window held as it was.
pub proof fn law_docking_keeps_windows_once(hut: HutView, surface: u64, dock: Dock)
    requires
        hut.holds_once(),
    ensures
        hut.with_dock(surface, dock).holds_once(),
        forall|w: u64| #[trigger] hut.with_dock(surface, dock).holds(w) <==> hut.holds(w),
{
    let after = hut.with_dock(surface, dock);
    let n = float_owner(hut.windows, surface);
    lemma_found(hut.windows, surface);
    assert forall|w: u64| #[trigger]
        times_held(after.windows, w) == times_held(hut.windows, w) by {
        if n < hut.windows.len() {
            let floats = hut.windows[n].floats;
            lemma_floating_found(floats, surface);
            let i = float_index(floats, surface);
            lemma_times_floating_remove(floats, i, w);
            lemma_times_floating_remove(after.windows[n].floats, i, w);
            assert(after.windows[n].floats.remove(i) =~= floats.remove(i));
            lemma_times_held_update(hut.windows, n, after.windows[n], w);
        }
    }
    lemma_held_alike(hut, after);
}

/// Putting an Alert elsewhere leaves every window held as it was.
pub proof fn law_placing_an_alert_keeps_windows_once(
    hut: HutView,
    surface: u64,
    position: (i32, i32),
)
    requires
        hut.holds_once(),
    ensures
        hut.with_alert_at(surface, position).holds_once(),
        forall|w: u64| #[trigger] hut.with_alert_at(surface, position).holds(w) <==> hut.holds(w),
{
    let after = hut.with_alert_at(surface, position);
    let n = alert_owner(hut.windows, surface);
    lemma_found(hut.windows, surface);
    assert forall|w: u64| #[trigger]
        times_held(after.windows, w) == times_held(hut.windows, w) by {
        if n < hut.windows.len() {
            let alerts = hut.windows[n].alerts;
            lemma_alert_found(alerts, surface);
            let i = alert_index(alerts, surface);
            lemma_times_alert_remove(alerts, i, w);
            lemma_times_alert_remove(after.windows[n].alerts, i, w);
            assert(after.windows[n].alerts.remove(i) =~= alerts.remove(i));
            lemma_times_held_update(hut.windows, n, after.windows[n], w);
        }
    }
    lemma_held_alike(hut, after);
}

proof fn lemma_held_alike(hut: HutView, after: HutView)
    requires
        hut.holds_once(),
        forall|w: u64| #[trigger]
            times_held(after.windows, w) == times_held(hut.windows, w),
    ensures
        after.holds_once(),
        forall|w: u64| #[trigger] after.holds(w) <==> hut.holds(w),
{
    assert forall|w: u64| #[trigger] times_held(after.windows, w) <= 1 by {
        assert(times_held(hut.windows, w) <= 1);
    }
    assert forall|w: u64| #[trigger] after.holds(w) <==> hut.holds(w) by {
        lemma_found(after.windows, w);
        lemma_found(hut.windows, w);
        assert(times_held(after.windows, w) == times_held(hut.windows, w));
    }
}

impl StackView {
    /// Whether every window is held by one console at most, and there in one
    /// place.
    pub open spec fn windows_once(self) -> bool {
        &&& forall|id: NodeId| #[trigger]
            self.nodes.contains_key(id) && self.nodes[id] is Console
                ==> (self.nodes[id]->Console_0).holds_once()
        &&& forall|a: NodeId, b: NodeId, window: u64|
            #![trigger is_holder(self.nodes, a, window), is_holder(self.nodes, b, window)]
            is_holder(self.nodes, a, window) && is_holder(self.nodes, b, window) ==> a == b
    }

    /// Whether no console holds a window.
    pub open spec fn unheld(self, window: u64) -> bool {
        forall|id: NodeId| !#[trigger] is_holder(self.nodes, id, window)
    }

    /// A console that changes so that it holds every window once, and none
    /// that another one holds, leaves every window held once.
    pub proof fn law_changed_console_keeps_windows_once(self, id: NodeId, hut: HutView)
        requires
            self.windows_once(),
            self.nodes.contains_key(id),
            self.nodes[id] is Console,
            hut.holds_once(),
            forall|w: u64| #[trigger]
                hut.holds(w) ==> (self.nodes[id]->Console_0).holds(w) || self.unheld(w),
        ensures
            self.with_console(id, hut).windows_once(),
    {
        let after = self.with_console(id, hut);
        assert forall|a: NodeId, b: NodeId, w: u64|
            is_holder(after.nodes, a, w) && is_holder(after.nodes, b, w) implies a == b by {
            if a != b {
                let other = if a == id {
                    b
                } else {
                    a
                };
                assert(is_holder(self.nodes, other, w));
                if a == id || b == id {
                    assert(hut.holds(w));
                    assert(is_holder(self.nodes, id, w));
                } else {
                    assert(is_holder(self.nodes, a, w) && is_holder(self.nodes, b, w));
                }
            }
        }
    }
}

/// The console that is found to hold a window does.
pub proof fn lemma_first_holder(nodes: Map<NodeId, NodeView>, ids: Seq<NodeId>, surface: u64)
    ensures
        first_holder(nodes, ids, surface) matches Some(id) ==> is_holder(nodes, id, surface),
    decreases ids.len(),
{
    if ids.len() > 0 && !is_holder(nodes, ids[0], surface) {
        lemma_first_holder(nodes, ids.drop_first(), surface);
    }
}

impl StackView {
    /// Whether every console holds the windows that it held before, or none.
    pub open spec fn holds_no_more(self, before: StackView) -> bool {
        forall|id: NodeId| #[trigger]
            self.nodes.contains_key(id) && self.nodes[id] is Console ==> {
                let hut = self.nodes[id]->Console_0;
                ||| hut.windows.len() == 0
                ||| before.nodes.contains_key(id) && before.nodes[id] is Console && hut.windows == (
                before.nodes[id]->Console_0).windows
            }
    }

    proof fn lemma_holds_no_more(self, before: StackView)
        requires
            before.windows_once(),
            self.holds_no_more(before),
        ensures
            self.windows_once(),
    {
        assert forall|id: NodeId| #[trigger]
            self.nodes.contains_key(id) && self.nodes[id] is Console implies (
        self.nodes[id]->Console_0).holds_once() by {
            let hut = self.nodes[id]->Console_0;
            assert forall|w: u64| #[trigger] times_held(hut.windows, w) <= 1 by {
                if hut.windows.len() > 0 {
                    assert((before.nodes[id]->Console_0).holds_once());
                }
            }
        }
        assert forall|a: NodeId, b: NodeId, w: u64|
            is_holder(self.nodes, a, w) && is_holder(self.nodes, b, w) implies a == b by {
            assert(is_holder(before.nodes, a, w));
            assert(is_holder(before.nodes, b, w));
        }
    }

    proof fn lemma_without_nodes_holds_no_more(self, ids: Seq<NodeId>)
        ensures
            self.without_nodes(ids).holds_no_more(self),
        decreases ids.len(),
    {
        if ids.len() > 0 {
            self.lemma_without_nodes_holds_no_more(ids.drop_last());
        }
    }

    proof fn lemma_without_subtrees_holds_no_more(self, tops: Seq<NodeId>)
        ensures
            self.without_subtrees(tops).holds_no_more(self),
        decreases tops.len(),
    {
        if tops.len() > 0 {
            self.lemma_without_subtrees_holds_no_more(tops.drop_last());
            let before = self.without_subtrees(tops.drop_last());
            before.lemma_without_nodes_holds_no_more(subtree(before.kids, tops.last()));
        }
    }

    proof fn lemma_children_swapped_holds_no_more(
        self,
        parents: Seq<NodeId>,
        old_id: NodeId,
        new_id: NodeId,
    )
        ensures
            self.children_swapped(parents, old_id, new_id).holds_no_more(self),
        decreases parents.len(),
    {
        if parents.len() > 0 {
            self.lemma_children_swapped_holds_no_more(parents.drop_last(), old_id, new_id);
        }
    }

    proof fn lemma_child_removed_holds_no_more(self, target: NodeId)
        ensures
            self.child_removed(target).holds_no_more(self),
    {
        if let Some(parent) = first_parent(self.kids, self.all_ids(), target) {
            let list = self.kids[parent];
            let rest = list.remove(list.index_of_first(target)->0);
            if rest.len() == 1 {
                let s = self.tops_swapped(parent, rest[0]);
                s.lemma_children_swapped_holds_no_more(s.all_ids(), parent, rest[0]);
            }
        }
    }

    /// A fresh console, which holds no window, and stepping, previewing,
    /// committing, wrapping, cycling, the exit of a console and the loss of an
    /// output leave every window held once.
    pub proof fn law_moving_about_keeps_windows_once(
        self,
        pos: int,
        protect: Option<usize>,
        fresh: HutView,
        kind: WrapKind,
        node: NodeId,
        hut: u64,
        dir: Direction,
    )
        requires
            self.windows_once(),
            fresh.windows.len() == 0,
        ensures
            self.with_node(NodeView::Console(fresh)).windows_once(),
            self.spawned(pos, fresh).windows_once(),
            self.left_forward(pos, protect).0.windows_once(),
            self.forward(pos, protect, fresh).0.windows_once(),
            self.backward(pos, protect).0.windows_once(),
            self.at(pos).windows_once(),
            self.previewing(pos).windows_once(),
            self.committed().windows_once(),
            self.wrapped(kind, fresh).windows_once(),
            self.without_console(node).windows_once(),
            self.exited(hut, fresh).windows_once(),
            self.without_output(pos).windows_once(),
            self.innermost_cycled(dir).windows_once(),
    {
        let added = self.with_node(NodeView::Console(fresh));
        assert(added.holds_no_more(self));
        added.lemma_holds_no_more(self);
        assert(self.spawned(pos, fresh).holds_no_more(self));
        self.spawned(pos, fresh).lemma_holds_no_more(self);
        let left = self.left_forward(pos, protect).0;
        assert(left.holds_no_more(self));
        left.lemma_holds_no_more(self);
        let forward = self.forward(pos, protect, fresh).0;
        assert(forward.holds_no_more(self));
        forward.lemma_holds_no_more(self);
        let backward = self.backward(pos, protect).0;
        assert(backward.holds_no_more(self));
        backward.lemma_holds_no_more(self);
        assert(self.at(pos).holds_no_more(self));
        self.at(pos).lemma_holds_no_more(self);
        assert(self.previewing(pos).holds_no_more(self));
        self.previewing(pos).lemma_holds_no_more(self);
        assert(self.committed().holds_no_more(self));
        self.committed().lemma_holds_no_more(self);
        let wrapped = self.wrapped(kind, fresh);
        assert(wrapped.holds_no_more(self));
        wrapped.lemma_holds_no_more(self);
        self.lemma_child_removed_holds_no_more(node);
        let parted = self.without_console(node);
        assert(parted.holds_no_more(self));
        parted.lemma_holds_no_more(self);
        let exited = self.exited(hut, fresh);
        if let Some(id) = first_console(self.nodes, self.all_ids(), hut) {
            self.lemma_child_removed_holds_no_more(id);
            assert(self.without_console(id).holds_no_more(self));
        }
        assert(exited.holds_no_more(self));
        exited.lemma_holds_no_more(self);
        let less = self.without_output(pos);
        let slots = StackView { slots: self.slots.remove(pos), ..self };
        slots.lemma_without_subtrees_holds_no_more(self.slots[pos].huts);
        assert(less.holds_no_more(self));
        less.lemma_holds_no_more(self);
        let cycled = self.innermost_cycled(dir);
        let path = self.path(self.out().huts[self.out().current as int]);
        self.lemma_cycling_level(path, path.len() as int);
        assert(cycled.holds_no_more(self));
        cycled.lemma_holds_no_more(self);
    }
}

/// Where every window is held once, a Floating Window is found where it is.
pub proof fn lemma_floating_once(hut: HutView, surface: u64, i: int, k: int)
    requires
        hut.holds_once(),
        0 <= i < hut.windows.len(),
        0 <= k < hut.windows[i].floats.len(),
        hut.windows[i].floats[k].window == surface,
    ensures
        float_owner(hut.windows, surface) == i,
        float_index(hut.windows[i].floats, surface) == k,
{
    let floats = hut.windows[i].floats;
    lemma_times_floating_remove(floats, k, surface);
    lemma_floating_found(floats, surface);
    let f = float_index(floats, surface);
    lemma_times_floating_remove(floats, f, surface);
    assert(times_held(hut.windows, surface) <= 1);
    lemma_times_held_remove(hut.windows, i, surface);
    if f != k {
        let rest = floats.remove(f);
        let j = if k < f {
            k
        } else {
            k - 1
        };
        assert(rest[j] == floats[k]);
        lemma_times_floating_remove(rest, j, surface);
    }
    lemma_float_owner_at(hut.windows, surface, i);
    lemma_found(hut.windows, surface);
    let n = float_owner(hut.windows, surface);
    if n != i {
        lemma_two_tabs(hut.windows, n, i, surface);
    }
}

/// Where every window is held once, an Alert is found where it is.
pub proof fn lemma_alert_once(hut: HutView, surface: u64, i: int, k: int)
    requires
        hut.holds_once(),
        0 <= i < hut.windows.len(),
        0 <= k < hut.windows[i].alerts.len(),
        hut.windows[i].alerts[k].window == surface,
    ensures
        alert_owner(hut.windows, surface) == i,
        alert_index(hut.windows[i].alerts, surface) == k,
{
    let alerts = hut.windows[i].alerts;
    lemma_times_alert_remove(alerts, k, surface);
    lemma_alert_found(alerts, surface);
    let f = alert_index(alerts, surface);
    lemma_times_alert_remove(alerts, f, surface);
    assert(times_held(hut.windows, surface) <= 1);
    lemma_times_held_remove(hut.windows, i, surface);
    if f != k {
        let rest = alerts.remove(f);
        let j = if k < f {
            k
        } else {
            k - 1
        };
        assert(rest[j] == alerts[k]);
        lemma_times_alert_remove(rest, j, surface);
    }
    lemma_alert_owner_at(hut.windows, surface, i);
    lemma_found(hut.windows, surface);
    let n = alert_owner(hut.windows, surface);
    if n != i {
        lemma_two_tabs(hut.windows, n, i, surface);
    }
}

/// A Main Window leaves with its tab, and with it what floats around it; the
/// other tabs stay. A Floating Window or Alert leaves alone.
pub proof fn law_removing_leaves_the_others(hut: HutView, surface: u64, window: u64)
    requires
        window != surface,
    ensures
        ({
            let i = main_index(hut.windows, surface);
            let after = hut.without_window(surface);
            &&& i < hut.windows.len() ==> after.windows == hut.windows.remove(i)
            &&& i >= hut.windows.len() ==> after.windows.len() == hut.windows.len() && times_held(
                after.windows,
                window,
            ) == times_held(hut.windows, window)
        }),
{
    lemma_found(hut.windows, surface);
    let n = nested_index(hut.windows, surface);
    if main_index(hut.windows, surface) >= hut.windows.len() && n < hut.windows.len() {
        let entry = hut.windows[n].without_nested(surface);
        lemma_times_held_update(hut.windows, n, entry, window);
        lemma_unnested_times(hut.windows[n], surface, window);
    }
}

/// Taking a Floating Window or Alert out leaves every tab its Main Window.
pub proof fn law_taking_a_nested_window_keeps_the_tabs(hut: HutView, surface: u64, i: int)
    requires
        0 <= i < hut.windows.len(),
    ensures
        ({
            let after = hut.without_nested(surface);
            &&& after.windows.len() == hut.windows.len()
            &&& after.windows[i].window == hut.windows[i].window
            &&& after.windows[i].foreign_handle == hut.windows[i].foreign_handle
            &&& !hut.windows[i].nests(surface) ==> after.windows[i] == hut.windows[i]
            &&& after.active == hut.active && after.showing_terminal == hut.showing_terminal
                && after.space == hut.space
        }),
{
    lemma_found(hut.windows, surface);
}

pub proof fn lemma_float_owner_at(windows: Seq<EntryView>, surface: u64, i: int)
    requires
        0 <= i < windows.len(),
        float_index(windows[i].floats, surface) < windows[i].floats.len(),
    ensures
        float_owner(windows, surface) <= i,
    decreases i,
{
    if i > 0 && float_index(windows[0].floats, surface) >= windows[0].floats.len() {
        lemma_float_owner_at(windows.drop_first(), surface, i - 1);
    }
}

pub proof fn lemma_alert_owner_at(windows: Seq<EntryView>, surface: u64, i: int)
    requires
        0 <= i < windows.len(),
        alert_index(windows[i].alerts, surface) < windows[i].alerts.len(),
    ensures
        alert_owner(windows, surface) <= i,
    decreases i,
{
    if i > 0 && alert_index(windows[0].alerts, surface) >= windows[0].alerts.len() {
        lemma_alert_owner_at(windows.drop_first(), surface, i - 1);
    }
}

} // verus!
