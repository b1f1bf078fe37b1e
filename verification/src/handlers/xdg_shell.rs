//! Client windows: where a new one goes, what happens when one is gone, when
//! one is dragged, and how one is first configured.
use vstd::prelude::*;

use crate::chrome::Rect;
use crate::console_hut::{alert_owner, float_owner, placed_index, ConsoleHut, HutView};
use crate::graph::NodeId;
use crate::graph_stack::GraphStack;
use crate::held::{law_removed_window_is_gone, lemma_first_holder, lemma_pushed_once};
use crate::main_window::EntryView;
use crate::stack_exit::lemma_first_console;
use crate::stack_model::{consoles, first_console, first_holder, is_holder, StackView};
use crate::tree::acyclic;

verus! {

impl StackView {
    /// Whether the focused output shows a console.
    pub open spec fn has_focus(self) -> bool {
        &&& self.focused < self.slots.len()
        &&& self.out().current < self.out().huts.len()
        &&& self.focus_lands(self.out().huts[self.out().current as int])
    }

    /// The console that has focus.
    pub open spec fn focus(self) -> HutView {
        self.focused_console(self.out().huts[self.out().current as int])
    }

    /// With the console that has focus changed.
    pub open spec fn with_focus(self, hut: HutView) -> StackView {
        self.with_console(self.path(self.out().huts[self.out().current as int]).last(), hut)
    }

    /// The console that a new window goes to: its owner, or the one that has
    /// focus if none is known.
    pub open spec fn new_window_hut(self, owner: Option<u64>) -> u64 {
        match owner {
            Some(id) => id,
            None => self.focus().id,
        }
    }

    /// Whether a new window is the first of its console.
    pub open spec fn first_window(self, hut: u64) -> bool {
        match first_console(self.nodes, self.all_ids(), hut) {
            Some(node) => (self.nodes[node]->Console_0).windows.len() == 0,
            None => false,
        }
    }

    /// The stack with a new window, a tab at the end of its console. The first
    /// one becomes the active tab.
    pub open spec fn window_added(self, hut: u64, window: u64, foreign_handle: u64) -> StackView {
        match first_console(self.nodes, self.all_ids(), hut) {
            Some(node) => self.with_console(
                node,
                (self.nodes[node]->Console_0).with_tab(
                    window,
                    self.first_window(hut),
                    foreign_handle,
                ),
            ),
            None => self,
        }
    }

    /// Whether a new window is shown at once: it is the first of the console
    /// that has focus.
    pub open spec fn shows_new(self, hut: u64) -> bool {
        hut == self.focus().id && self.first_window(hut)
    }

    /// The stack once a new window has its place: with it shown, where it is
    /// shown at once.
    pub open spec fn window_opened(self, hut: u64, window: u64, foreign_handle: u64) -> StackView {
        let added = self.window_added(hut, window, foreign_handle);
        if self.shows_new(hut) {
            added.with_focus(HutView { showing_terminal: false, ..added.focus() })
        } else {
            added
        }
    }

    /// The stack once a window is gone from the console that holds it.
    pub open spec fn window_closed(self, surface: u64) -> StackView {
        match first_holder(self.nodes, self.all_ids(), surface) {
            Some(node) => self.with_console(
                node,
                (self.nodes[node]->Console_0).without_window(surface),
            ),
            None => self,
        }
    }
}

/// A new window does not steal the view: unless it is the first window of the
/// console that has focus, that console stays what has focus, and goes on
/// showing what it showed.
pub proof fn law_new_window_does_not_steal_the_view(
    s: StackView,
    hut: u64,
    window: u64,
    foreign_handle: u64,
)
    requires
        s.has_focus(),
        !s.shows_new(hut),
    ensures
        ({
            let after = s.window_opened(hut, window, foreign_handle);
            &&& after.has_focus()
            &&& after.focus().id == s.focus().id
            &&& after.focus().showing_terminal == s.focus().showing_terminal
            &&& after.focus().active == s.focus().active
            &&& after.focus().space == s.focus().space
            &&& after.focus().windows.len() >= s.focus().windows.len()
            &&& forall|i: int|
                0 <= i < s.focus().windows.len() ==> #[trigger] after.focus().windows[i]
                    == s.focus().windows[i]
        }),
{
    lemma_first_console(s.nodes, s.all_ids(), hut);
    match first_console(s.nodes, s.all_ids(), hut) {
        Some(node) => {
            let changed = (s.nodes[node]->Console_0).with_tab(
                window,
                s.first_window(hut),
                foreign_handle,
            );
            s.law_changed_console_keeps_well_formed(node, changed);
            let after = s.with_console(node, changed);
            let top = s.out().huts[s.out().current as int];
            assert(after.path(top) == s.path(top));
        },
        None => {},
    }
}

/// A new window that no console holds yet leaves every window held once.
pub proof fn law_new_window_keeps_windows_once(
    s: StackView,
    hut: u64,
    window: u64,
    foreign_handle: u64,
)
    requires
        s.has_focus(),
        s.windows_once(),
        s.unheld(window),
    ensures
        s.window_opened(hut, window, foreign_handle).windows_once(),
{
    let added = s.window_added(hut, window, foreign_handle);
    lemma_first_console(s.nodes, s.all_ids(), hut);
    if let Some(node) = first_console(s.nodes, s.all_ids(), hut) {
        let before = s.nodes[node]->Console_0;
        let changed = before.with_tab(window, s.first_window(hut), foreign_handle);
        let entry = EntryView {
            window,
            foreign_handle,
            floats: Seq::empty(),
            alerts: Seq::empty(),
        };
        let pushed = HutView { windows: before.windows.push(entry), ..before };
        assert(s.nodes.contains_key(node));
        assert(!is_holder(s.nodes, node, window));
        lemma_pushed_once(before, entry);
        assert(changed.windows == pushed.windows);
        assert forall|w: u64| #[trigger] changed.holds(w) implies before.holds(w) || s.unheld(w) by {
            assert(pushed.holds(w));
        }
        s.law_changed_console_keeps_windows_once(node, changed);
        s.law_changed_console_keeps_well_formed(node, changed);
    }
    if s.shows_new(hut) {
        let top = added.out().huts[added.out().current as int];
        let leaf = added.path(top).last();
        assert(added.path(top) == s.path(top));
        let shown = HutView { showing_terminal: false, ..added.focus() };
        assert(added.nodes.contains_key(leaf) && added.nodes[leaf] is Console);
        added.law_changed_console_keeps_windows_once(leaf, shown);
    }
}

/// A window that is gone from the console that held it leaves every other one
/// held once, and is not held by any.
pub proof fn law_closed_window_is_gone(s: StackView, surface: u64)
    requires
        s.windows_once(),
    ensures
        s.window_closed(surface).windows_once(),
        first_holder(s.nodes, s.all_ids(), surface) is Some ==> s.window_closed(surface).unheld(
            surface,
        ),
{
    let after = s.window_closed(surface);
    lemma_first_holder(s.nodes, s.all_ids(), surface);
    if let Some(node) = first_holder(s.nodes, s.all_ids(), surface) {
        let hut = s.nodes[node]->Console_0;
        assert(s.nodes.contains_key(node));
        law_removed_window_is_gone(hut, surface);
        s.law_changed_console_keeps_windows_once(node, hut.without_window(surface));
        assert forall|id: NodeId| !#[trigger] is_holder(after.nodes, id, surface) by {
            if id != node {
                assert(is_holder(s.nodes, node, surface));
                assert(!is_holder(s.nodes, id, surface));
            }
        }
    }
}

/// Where a new window went.
#[derive(Debug, Clone, Copy, PartialEq, Eq)]
pub struct NewToplevel {
    pub hut_id: u64,
    /// The output it is sized for.
    pub output_index: Option<usize>,
    /// Whether it is shown at once, and takes the keyboard.
    pub show_now: bool,
}

/// A new window: `owner` is the console whose shell its client was launched
/// from, if that is known. It joins that console's tabs, and is listed to other
/// clients under `foreign_handle`.
pub fn new_toplevel(
    stack: &mut GraphStack,
    owner: Option<u64>,
    window: u64,
    foreign_handle: u64,
) -> (r: NewToplevel)
    requires
        acyclic(old(stack)@.kids),
        old(stack)@.has_focus(),
    ensures
        final(stack).same_frame(*old(stack)),
        ({
            let before = old(stack)@;
            let hut = before.new_window_hut(owner);
            &&& r.hut_id == hut
            &&& r.output_index == if before.output_of(hut, 0) < before.slots.len() {
                Some(before.output_of(hut, 0) as usize)
            } else {
                None
            }
            &&& r.show_now == before.shows_new(hut)
            &&& final(stack)@ == before.window_opened(hut, window, foreign_handle)
        }),
        old(stack)@.well_formed() ==> final(stack)@.well_formed(),
        old(stack)@.windows_once() && old(stack)@.unheld(window) ==> final(stack)@.windows_once(),
{
    let focused_id: u64 = stack.focused().id();
    let hut_id: u64 = match owner {
        Some(id) => id,
        None => focused_id,
    };
    let output_index = stack.output_index_for_hut(hut_id);
    let was_empty = match stack.find(hut_id) {
        Some(hut) => hut.main_window_count() == 0,
        None => false,
    };
    let ghost before = stack@;
    match stack.find_mut(hut_id) {
        Some(hut) => {
            hut.push_main_window(window, was_empty, foreign_handle);
            proof {
                let node = first_console(before.nodes, before.all_ids(), hut_id)->0;
                before.law_changed_console_keeps_well_formed(
                    node,
                    (before.nodes[node]->Console_0).with_tab(window, was_empty, foreign_handle),
                );
            }
        },
        None => {},
    }
    let ghost added = stack@;
    assert(added == before.window_added(hut_id, window, foreign_handle));
    let show_now = hut_id == focused_id && was_empty;
    if show_now {
        let hut = stack.focused_mut();
        hut.set_showing_terminal(false);
        proof {
            let top = added.out().huts[added.out().current as int];
            added.law_changed_console_keeps_well_formed(
                added.path(top).last(),
                HutView { showing_terminal: false, ..added.focus() },
            );
        }
    }
    proof {
        if before.windows_once() && before.unheld(window) {
            law_new_window_keeps_windows_once(before, hut_id, window, foreign_handle);
        }
    }
    NewToplevel { hut_id, output_index, show_now }
}

/// A window is gone. Returns whether it was the active Main Window of the
/// console that has focus, so that what is shown has to be arranged anew.
pub fn toplevel_destroyed(stack: &mut GraphStack, surface: u64) -> (r: bool)
    requires
        acyclic(old(stack)@.kids),
        old(stack)@.has_focus(),
    ensures
        final(stack).same_frame(*old(stack)),
        ({
            let hut = old(stack)@.focus();
            r == (hut.active < hut.windows.len() && hut.windows[hut.active as int].window
                == surface)
        }),
        final(stack)@ == old(stack)@.window_closed(surface),
        old(stack)@.well_formed() ==> final(stack)@.well_formed(),
        old(stack)@.windows_once() ==> final(stack)@.windows_once(),
{
    proof {
        if stack@.windows_once() {
            law_closed_window_is_gone(stack@, surface);
        }
    }
    let was_visible = match stack.focused().active_window() {
        Some(window) => window == surface,
        None => false,
    };
    if let Some(node) = stack.holder_of(surface) {
        let ghost before = stack@;
        if let Some(hut) = stack.console_mut(node) {
            hut.remove_window(surface);
            proof {
                before.law_changed_console_keeps_well_formed(
                    node,
                    (before.nodes[node]->Console_0).without_window(surface),
                );
            }
        }
    }
    was_visible
}

/// The start of a drag: the window is where it is on screen, in the console and
/// on the output that have focus.
#[derive(Debug, Clone, Copy, PartialEq, Eq)]
pub struct MoveStart {
    /// Whether it is a Floating Window rather than an Alert.
    pub floating_window: bool,
    pub hut_id: u64,
    pub output_index: usize,
    pub location: (i32, i32),
}

/// A client asks to move one of its windows. Only a Floating Window or Alert of
/// the console that has focus moves, and only while it is on screen.
pub fn move_request(stack: &GraphStack, surface: u64) -> (r: Option<MoveStart>)
    requires
        acyclic(stack@.kids),
        stack@.has_focus(),
    ensures
        ({
            let hut = stack@.focus();
            let floats = float_owner(hut.windows, surface) < hut.windows.len();
            let alerts = alert_owner(hut.windows, surface) < hut.windows.len();
            let at = placed_index(hut.space, surface);
            r == if (floats || alerts) && at < hut.space.len() {
                Some(
                    MoveStart {
                        floating_window: floats,
                        hut_id: hut.id,
                        output_index: stack@.focused,
                        location: hut.space[at].position,
                    },
                )
            } else {
                None
            }
        }),
{
    let hut = stack.focused();
    let is_floating_window = hut.has_floating_window(surface);
    if !is_floating_window && !hut.has_alert(surface) {
        return None;
    }
    match hut.placed_at(surface) {
        Some(location) => Some(
            MoveStart {
                floating_window: is_floating_window,
                hut_id: hut.id(),
                output_index: stack.focused_output_index(),
                location,
            },
        ),
        None => None,
    }
}

/// What a commit of a window's surface calls for.
#[derive(Debug, Clone, Copy, PartialEq, Eq, Structural)]
pub enum CommitAction {
    Nothing,
    /// Its first configuration: as a fullscreen window, or, for a dialog, at
    /// the size it chooses.
    Configure { fullscreen: bool },
}

/// What a commit calls for. A window is a dialog if it has a parent or says so.
pub fn handle_commit(
    is_toplevel: bool,
    initial_configure_sent: bool,
    has_parent: bool,
    dialog_hint: bool,
) -> (r: CommitAction)
    ensures
        r == if is_toplevel && !initial_configure_sent {
            CommitAction::Configure { fullscreen: !has_parent && !dialog_hint }
        } else {
            CommitAction::Nothing
        },
{
    if !is_toplevel || initial_configure_sent {
        return CommitAction::Nothing;
    }
    CommitAction::Configure { fullscreen: !(has_parent || dialog_hint) }
}

/// Whether a client may start dragging: it holds the pointer with the press it
/// names, on a surface of its own.
pub fn check_grab(has_grab: bool, has_start: bool, same_client: bool) -> (r: bool)
    ensures
        r == (has_grab && has_start && same_client),
{
    has_grab && has_start && same_client
}

/// The area that a popup has to stay in, relative to its window: the window's
/// own size where it is known to be on screen, else its output. `popup` is
/// where the popup's parent is in the window.
pub fn popup_target(window_size: Option<(i32, i32)>, output: Rect, popup: (i32, i32)) -> (r: Rect)
    requires
        window_size is Some ==> i32::MIN < popup.0 && i32::MIN < popup.1,
        window_size is None ==> i32::MIN <= output.x - popup.0 <= i32::MAX,
        window_size is None ==> i32::MIN <= output.y - popup.1 <= i32::MAX,
    ensures
        r == match window_size {
            Some((w, h)) => Rect { x: (0 - popup.0) as i32, y: (0 - popup.1) as i32, w, h },
            None => Rect {
                x: (output.x - popup.0) as i32,
                y: (output.y - popup.1) as i32,
                ..output
            },
        },
{
    match window_size {
        Some((w, h)) => Rect { x: 0 - popup.0, y: 0 - popup.1, w, h },
        None => Rect { x: output.x - popup.0, y: output.y - popup.1, w: output.w, h: output.h },
    }
}

/// The Main Windows of some consoles, in order.
pub open spec fn main_windows_of(huts: Seq<HutView>) -> Seq<u64>
    decreases huts.len(),
{
    if huts.len() == 0 {
        Seq::empty()
    } else {
        main_windows_of(huts.drop_last()) + huts.last().windows.map_values(|e: EntryView| e.window)
    }
}

pub(crate) fn list_main_windows(huts: &Vec<&ConsoleHut>) -> (r: Vec<u64>)
    ensures
        r@ == main_windows_of(huts@.map_values(|h: &ConsoleHut| h@)),
{
    let mut out: Vec<u64> = Vec::new();
    let ghost views = huts@.map_values(|h: &ConsoleHut| h@);
    assert(views.take(0) =~= Seq::empty());
    for i in 0..huts.len()
        invariant
            views == huts@.map_values(|h: &ConsoleHut| h@),
            out@ == main_windows_of(views.take(i as int)),
    {
        let hut = huts[i];
        let entries = hut.main_windows();
        let ghost before = out@;
        let ghost windows = hut@.windows.map_values(|e: EntryView| e.window);
        assert(before + windows.take(0) =~= before);
        for k in 0..entries.len()
            invariant
                crate::console_hut::entry_views(entries@) == hut@.windows,
                windows == hut@.windows.map_values(|e: EntryView| e.window),
                windows.len() == entries@.len(),
                out@ == before + windows.take(k as int),
        {
            assert(hut@.windows[k as int] == entries@[k as int]@);
            out.push(entries[k].window);
            assert(out@ =~= before + windows.take(k + 1));
        }
        assert(windows.take(windows.len() as int) =~= windows);
        assert(views.take(i + 1).drop_last() =~= views.take(i as int));
        assert(views.take(i + 1).last() == hut@);
    }
    assert(views.take(views.len() as int) =~= views);
    out
}

/// The windows to configure anew when every output changes size: all Main
/// Windows. What floats keeps its size.
pub fn resize_all_main_windows(stack: &GraphStack) -> (r: Vec<u64>)
    requires
        acyclic(stack@.kids),
    ensures
        r@ == main_windows_of(consoles(stack@.nodes, stack@.all_ids())),
{
    list_main_windows(&stack.all_huts())
}

/// A new window becomes the last tab of its console, with nothing around it,
/// under the handle given. The first window of a console is its active tab; a
/// later one leaves the active tab what it was. No other console changes.
pub proof fn law_new_window_is_the_last_tab(
    s: StackView,
    hut: u64,
    window: u64,
    foreign_handle: u64,
    x: NodeId,
)
    requires
        s.has_focus(),
        first_console(s.nodes, s.all_ids(), hut) is Some,
    ensures
        ({
            let node = first_console(s.nodes, s.all_ids(), hut)->0;
            let was = s.nodes[node]->Console_0;
            let added = s.window_added(hut, window, foreign_handle);
            let after = s.window_opened(hut, window, foreign_handle);
            let now = after.nodes[node]->Console_0;
            &&& added.nodes[node] is Console && after.nodes[node] is Console
            &&& now.windows.len() == was.windows.len() + 1
            &&& now.windows.drop_last() == was.windows
            &&& now.windows.last().window == window
            &&& now.windows.last().foreign_handle == foreign_handle
            &&& now.windows.last().floats.len() == 0
            &&& now.windows.last().alerts.len() == 0
            &&& was.windows.len() == 0 ==> now.active == 0
            &&& was.windows.len() > 0 ==> now.active == was.active
            &&& s.nodes.contains_key(x) && x != node && x != s.path(
                s.out().huts[s.out().current as int],
            ).last() ==> after.nodes[x] == s.nodes[x]
            &&& after.slots == s.slots && after.kids == s.kids && after.focused == s.focused
        }),
{
    let node = first_console(s.nodes, s.all_ids(), hut)->0;
    lemma_first_console(s.nodes, s.all_ids(), hut);
    let was = s.nodes[node]->Console_0;
    let changed = was.with_tab(window, s.first_window(hut), foreign_handle);
    s.law_changed_console_keeps_well_formed(node, changed);
    let added = s.window_added(hut, window, foreign_handle);
    let top = s.out().huts[s.out().current as int];
    assert(added.path(top) == s.path(top));
    assert(changed.windows.drop_last() =~= was.windows);
}

/// A new window goes to the console that its client was launched from; where
/// that is not known, to the one that has focus. It is shown at once exactly if
/// it is the first window of the console that has focus.
pub proof fn law_where_a_new_window_goes(s: StackView, owner: Option<u64>, hut: u64)
    ensures
        owner is Some ==> s.new_window_hut(owner) == owner->0,
        owner is None ==> s.new_window_hut(owner) == s.focus().id,
        s.shows_new(hut) <==> hut == s.focus().id && first_console(s.nodes, s.all_ids(), hut) is Some
            && (s.nodes[first_console(
            s.nodes,
            s.all_ids(),
            hut,
        )->0]->Console_0).windows.len() == 0,
{
}

/// A window that is shown at once is what its console shows then.
pub proof fn law_first_window_is_shown(s: StackView, hut: u64, window: u64, foreign_handle: u64)
    requires
        s.has_focus(),
        s.shows_new(hut),
    ensures
        s.window_opened(hut, window, foreign_handle).has_focus(),
        !s.window_opened(hut, window, foreign_handle).focus().showing_terminal,
{
    lemma_first_console(s.nodes, s.all_ids(), hut);
    let node = first_console(s.nodes, s.all_ids(), hut)->0;
    let changed = (s.nodes[node]->Console_0).with_tab(window, true, foreign_handle);
    s.law_changed_console_keeps_well_formed(node, changed);
    let added = s.window_added(hut, window, foreign_handle);
    let top = s.out().huts[s.out().current as int];
    assert(added.path(top) == s.path(top));
    let leaf = s.path(top).last();
    added.law_changed_console_keeps_well_formed(
        leaf,
        HutView { showing_terminal: false, ..added.focus() },
    );
    let after = s.window_opened(hut, window, foreign_handle);
    assert(after.path(top) == s.path(top));
}

/// The Main Windows of some consoles are all of them, one console after the
/// other, each in the order of its tabs.
pub proof fn law_main_windows_are_listed(huts: Seq<HutView>, hut: HutView, i: int)
    ensures
        main_windows_of(huts.push(hut)).len() == main_windows_of(huts).len() + hut.windows.len(),
        0 <= i < hut.windows.len() ==> main_windows_of(huts.push(hut))[main_windows_of(huts).len()
            + i] == hut.windows[i].window,
        0 <= i < main_windows_of(huts).len() ==> main_windows_of(huts.push(hut))[i]
            == main_windows_of(huts)[i],
        main_windows_of(Seq::empty()).len() == 0,
{
    assert(huts.push(hut).drop_last() =~= huts);
}

} // verus!
