//! Re-tagging windows as Main Windows, Floating Windows or Alerts, by their
//! own clients or by a trusted helper.
use vstd::prelude::*;
use vstd::string::*;

use crate::console_hut::{
    alert_owner, float_owner, main_index, nested_index, ConsoleHut, HutView,
};
use crate::graph::NodeId;
use crate::graph_stack::GraphStack;
use crate::held::{
    law_held_in_one_place, lemma_alert_owner_at, lemma_first_holder, lemma_float_owner_at, lemma_found, lemma_nested_once, lemma_pushed_once,
    lemma_unnested_once, lemma_untabbed_once,
};
use crate::main_window::{alert_index, float_index, Alert, Dock, Edge, EntryView, FloatingWindow};
use crate::stack_model::{consoles, first_holder, is_holder, StackView};
use crate::text::str_eq;
use crate::tree::acyclic;

verus! {

/// What a window can become under a Main Window.
#[derive(Debug, Clone, Copy, PartialEq, Eq, Structural)]
pub enum Role {
    Floating,
    Alert,
}

/// A place under a Main Window.
#[derive(Debug, Clone, Copy, PartialEq, Eq, Structural)]
pub struct Nesting {
    pub role: Role,
    pub main: u64,
}

/// What re-tagging did.
#[derive(Debug, Clone, Copy, PartialEq, Eq, Structural)]
pub struct Retagged {
    /// The console that holds the window.
    pub hut_id: u64,
    /// Whether the window is a Floating Window or an Alert now, rather than a
    /// Main Window.
    pub nested: bool,
}

impl EntryView {
    /// The tab with one more Floating Window or Alert.
    pub open spec fn with_nested(self, surface: u64, role: Role) -> EntryView {
        match role {
            Role::Floating => EntryView {
                floats: self.floats.push(
                    FloatingWindow { window: surface, dock: Dock::Docked(Edge::Right) },
                ),
                ..self
            },
            Role::Alert => EntryView {
                alerts: self.alerts.push(Alert { window: surface, position: (100i32, 100i32) }),
                ..self
            },
        }
    }
}

impl HutView {
    /// The console without a window that it holds.
    pub open spec fn without_held(self, surface: u64) -> HutView {
        let i = main_index(self.windows, surface);
        if i < self.windows.len() {
            self.without_tab(i)
        } else {
            self.without_nested(surface)
        }
    }

    /// Whether a window that is tagged anew as a Main Window becomes the
    /// active tab: one that was nested always does; one that was a Main Window
    /// does if it was active before or is now the only one.
    pub open spec fn comes_to_front(self, surface: u64) -> bool {
        if main_index(self.windows, surface) < self.windows.len() {
            (self.active < self.windows.len() && self.windows[self.active as int].window == surface)
                || self.without_held(surface).windows.len() == 0
        } else {
            true
        }
    }

    /// With one more tab at the end.
    pub open spec fn with_tab(self, window: u64, make_active: bool, foreign_handle: u64) -> HutView {
        HutView {
            windows: self.windows.push(
                EntryView {
                    window,
                    foreign_handle,
                    floats: Seq::empty(),
                    alerts: Seq::empty(),
                },
            ),
            active: if make_active {
                self.windows.len() as usize
            } else {
                self.active
            },
            ..self
        }
    }

    /// Whether a window that it holds ends up under a Main Window: a role was
    /// asked for, and its Main Window is another one of this console.
    pub open spec fn nests_under(self, surface: u64, target: Option<Nesting>) -> bool {
        let rest = self.without_held(surface);
        target is Some && main_index(rest.windows, target->0.main) < rest.windows.len()
    }

    /// The console after one of its windows was tagged anew. A window whose
    /// Main Window is not found here stays a Main Window itself.
    pub open spec fn retagged(
        self,
        surface: u64,
        target: Option<Nesting>,
        foreign_handle: u64,
    ) -> HutView {
        let rest = self.without_held(surface);
        if self.nests_under(surface, target) {
            let j = main_index(rest.windows, target->0.main);
            let entry = rest.windows[j];
            HutView {
                windows: rest.windows.update(j, entry.with_nested(surface, target->0.role)),
                ..rest
            }
        } else {
            rest.with_tab(surface, self.comes_to_front(surface), foreign_handle)
        }
    }
}

proof fn lemma_nested_times(entry: EntryView, surface: u64, role: Role, window: u64)
    ensures
        entry.with_nested(surface, role).times(window) == entry.times(window) + if window == surface {
            1int
        } else {
            0int
        },
{
    let after = entry.with_nested(surface, role);
    match role {
        Role::Floating => {
            assert(after.floats.drop_last() =~= entry.floats);
        },
        Role::Alert => {
            assert(after.alerts.drop_last() =~= entry.alerts);
        },
    }
}

/// Tagging a window anew leaves every window of the console held once.
proof fn lemma_retagged_once(
    hut: HutView,
    surface: u64,
    target: Option<Nesting>,
    foreign_handle: u64,
)
    requires
        hut.holds_once(),
    ensures
        ({
            let after = hut.retagged(surface, target, foreign_handle);
            &&& after.holds_once()
            &&& forall|w: u64| #[trigger] after.holds(w) ==> hut.holds(w) || w == surface
        }),
{
    let rest = hut.without_held(surface);
    let after = hut.retagged(surface, target, foreign_handle);
    lemma_found(hut.windows, surface);
    let i = main_index(hut.windows, surface);
    if i < hut.windows.len() {
        lemma_untabbed_once(hut, i);
    } else {
        lemma_unnested_once(hut, surface);
    }
    assert(!rest.holds(surface));
    if hut.nests_under(surface, target) {
        lemma_main_index_is_place(rest.windows, target->0.main);
        let j = main_index(rest.windows, target->0.main);
        let entry = rest.windows[j].with_nested(surface, target->0.role);
        assert forall|w: u64| #[trigger]
            entry.times(w) == rest.windows[j].times(w) + if w == surface {
                1int
            } else {
                0int
            } by {
            lemma_nested_times(rest.windows[j], surface, target->0.role, w);
        }
        lemma_nested_once(rest, j, entry, surface);
        assert forall|w: u64| #[trigger] after.holds(w) implies hut.holds(w) || w == surface by {
            if w != surface {
                assert(rest.holds(w));
            }
        }
    } else {
        let entry = EntryView {
            window: surface,
            foreign_handle,
            floats: Seq::empty(),
            alerts: Seq::empty(),
        };
        lemma_pushed_once(rest, entry);
        let pushed = HutView { windows: rest.windows.push(entry), ..rest };
        assert(after.windows == pushed.windows);
        assert forall|w: u64| #[trigger] after.holds(w) implies hut.holds(w) || w == surface by {
            assert(pushed.holds(w));
            if w != surface {
                assert(rest.holds(w));
            }
        }
    }
}

/// A window that is tagged anew has one place in its console. As a Main Window
/// it is neither a Floating Window nor an Alert of anything there; as one of
/// these it is neither the other one nor a Main Window.
pub proof fn law_retagged_window_has_one_place(
    hut: HutView,
    surface: u64,
    target: Option<Nesting>,
    foreign_handle: u64,
)
    requires
        hut.holds_once(),
    ensures
        ({
            let after = hut.retagged(surface, target, foreign_handle);
            let n = after.windows.len();
            let main = main_index(after.windows, surface) < n;
            let floats = float_owner(after.windows, surface) < n;
            let alerts = alert_owner(after.windows, surface) < n;
            let nested = hut.nests_under(surface, target);
            &&& after.holds_once()
            &&& main == !nested
            &&& floats == (nested && target->0.role is Floating)
            &&& alerts == (nested && target->0.role is Alert)
        }),
{
    let rest = hut.without_held(surface);
    let after = hut.retagged(surface, target, foreign_handle);
    lemma_retagged_once(hut, surface, target, foreign_handle);
    law_held_in_one_place(after, surface);
    if hut.nests_under(surface, target) {
        lemma_main_index_is_place(rest.windows, target->0.main);
        let j = main_index(rest.windows, target->0.main);
        let entry = after.windows[j];
        match target->0.role {
            Role::Floating => {
                lemma_float_at(entry.floats, surface, entry.floats.len() - 1);
                lemma_float_owner_at(after.windows, surface, j);
            },
            Role::Alert => {
                lemma_alert_at(entry.alerts, surface, entry.alerts.len() - 1);
                lemma_alert_owner_at(after.windows, surface, j);
            },
        }
    } else {
        lemma_main_at(after.windows, surface, after.windows.len() - 1);
    }
}

proof fn lemma_main_at(windows: Seq<EntryView>, surface: u64, i: int)
    requires
        0 <= i < windows.len(),
        windows[i].window == surface,
    ensures
        main_index(windows, surface) <= i,
    decreases i,
{
    if i > 0 && windows[0].window != surface {
        lemma_main_at(windows.drop_first(), surface, i - 1);
    }
}

proof fn lemma_nested_at(windows: Seq<EntryView>, surface: u64, i: int)
    requires
        0 <= i < windows.len(),
        windows[i].nests(surface),
    ensures
        nested_index(windows, surface) <= i,
    decreases i,
{
    if i > 0 && !windows[0].nests(surface) {
        lemma_nested_at(windows.drop_first(), surface, i - 1);
    }
}

proof fn lemma_float_at(floats: Seq<FloatingWindow>, surface: u64, i: int)
    requires
        0 <= i < floats.len(),
        floats[i].window == surface,
    ensures
        float_index(floats, surface) <= i,
    decreases i,
{
    if i > 0 && floats[0].window != surface {
        lemma_float_at(floats.drop_first(), surface, i - 1);
    }
}

proof fn lemma_alert_at(alerts: Seq<Alert>, surface: u64, i: int)
    requires
        0 <= i < alerts.len(),
        alerts[i].window == surface,
    ensures
        alert_index(alerts, surface) <= i,
    decreases i,
{
    if i > 0 && alerts[0].window != surface {
        lemma_alert_at(alerts.drop_first(), surface, i - 1);
    }
}

/// A window that is tagged anew stays in its console.
pub proof fn law_retagged_window_stays(
    hut: HutView,
    surface: u64,
    target: Option<Nesting>,
    foreign_handle: u64,
)
    ensures
        hut.retagged(surface, target, foreign_handle).holds(surface),
{
    let rest = hut.without_held(surface);
    let after = hut.retagged(surface, target, foreign_handle);
    if hut.nests_under(surface, target) {
        lemma_main_index_is_place(rest.windows, target->0.main);
        let j = main_index(rest.windows, target->0.main);
        let entry = after.windows[j];
        match target->0.role {
            Role::Floating => {
                lemma_float_at(entry.floats, surface, entry.floats.len() - 1);
            },
            Role::Alert => {
                lemma_alert_at(entry.alerts, surface, entry.alerts.len() - 1);
            },
        }
        assert(entry.nests(surface));
        lemma_nested_at(after.windows, surface, j);
    } else {
        lemma_main_at(after.windows, surface, after.windows.len() - 1);
    }
}

/// Tagging a Main Window as the Main Window that it is leaves the user's view
/// alone: the active tab shows the same window as before.
pub proof fn law_main_window_tagged_again_keeps_the_view(
    hut: HutView,
    surface: u64,
    foreign_handle: u64,
)
    requires
        hut.active < hut.windows.len() <= usize::MAX,
        main_index(hut.windows, surface) < hut.windows.len(),
    ensures
        ({
            let after = hut.retagged(surface, None, foreign_handle);
            &&& after.active < after.windows.len()
            &&& after.windows[after.active as int].window == hut.windows[hut.active as int].window
        }),
{
    lemma_main_index_is_place(hut.windows, surface);
    lemma_main_index_shows(hut.windows, surface);
    let i = main_index(hut.windows, surface);
    let rest = hut.without_held(surface);
    assert(rest.windows == hut.windows.remove(i));
    let after = hut.retagged(surface, None, foreign_handle);
    if hut.comes_to_front(surface) {
        assert(after.windows[rest.windows.len() as int].window == surface);
    } else {
        assert(i != hut.active);
        assert(after.windows[after.active as int] == rest.windows[rest.active as int]);
    }
}

/// A Floating Window or Alert that is tagged as a Main Window comes to the
/// front.
pub proof fn law_promoted_window_comes_to_the_front(
    hut: HutView,
    surface: u64,
    foreign_handle: u64,
)
    requires
        main_index(hut.windows, surface) >= hut.windows.len(),
        nested_index(hut.windows, surface) < hut.windows.len(),
        hut.windows.len() < usize::MAX,
    ensures
        ({
            let after = hut.retagged(surface, None, foreign_handle);
            &&& after.active < after.windows.len()
            &&& after.windows[after.active as int].window == surface
        }),
{
    lemma_nested_index_is_place(hut.windows, surface);
    let rest = hut.without_held(surface);
    assert(rest.windows.len() == hut.windows.len());
    let after = hut.retagged(surface, None, foreign_handle);
    assert(after.windows[rest.windows.len() as int].window == surface);
}

/// Whatever a window is tagged as, the active tab is one that is there.
pub proof fn law_retagging_keeps_the_tab_seated(
    hut: HutView,
    surface: u64,
    target: Option<Nesting>,
    foreign_handle: u64,
)
    requires
        hut.tab_seated(),
        hut.windows.len() < usize::MAX,
    ensures
        hut.retagged(surface, target, foreign_handle).tab_seated(),
{
    lemma_main_index_is_place(hut.windows, surface);
    lemma_nested_index_is_place(hut.windows, surface);
    let rest = hut.without_held(surface);
    assert(rest.windows.len() <= hut.windows.len());
    assert(rest.tab_seated());
    if hut.nests_under(surface, target) {
        lemma_main_index_is_place(rest.windows, target->0.main);
    }
}

proof fn lemma_nested_index_is_place(windows: Seq<EntryView>, surface: u64)
    ensures
        0 <= nested_index(windows, surface) <= windows.len(),
    decreases windows.len(),
{
    if windows.len() > 0 && !windows[0].nests(surface) {
        lemma_nested_index_is_place(windows.drop_first(), surface);
    }
}

proof fn lemma_main_index_shows(windows: Seq<EntryView>, surface: u64)
    ensures
        0 <= main_index(windows, surface) < windows.len() ==> windows[main_index(
            windows,
            surface,
        )].window == surface,
    decreases windows.len(),
{
    if windows.len() > 0 && windows[0].window != surface {
        let t = windows.drop_first();
        lemma_main_index_is_place(t, surface);
        lemma_main_index_shows(t, surface);
        let i = main_index(t, surface);
        if i < t.len() {
            assert(t[i] == windows[i + 1]);
        }
    }
}

proof fn lemma_main_index_is_place(windows: Seq<EntryView>, surface: u64)
    ensures
        0 <= main_index(windows, surface) <= windows.len(),
    decreases windows.len(),
{
    if windows.len() > 0 && windows[0].window != surface {
        lemma_main_index_is_place(windows.drop_first(), surface);
    }
}

fn retag_in(
    hut: &mut ConsoleHut,
    surface: u64,
    target: Option<Nesting>,
    foreign_handle: u64,
) -> (r: bool)
    requires
        old(hut)@.holds(surface),
    ensures
        r == old(hut)@.nests_under(surface, target),
        final(hut)@ == old(hut)@.retagged(surface, target, foreign_handle),
{
    let was_active = match hut.active_main_window_entry() {
        Some(entry) => entry.matches(surface),
        None => false,
    };
    let was_bare = hut.has_bare_main_window(surface);
    if was_bare {
        let _ = hut.take_bare_main_window(surface);
    } else {
        let _ = hut.take_nested_window(surface);
    }
    assert(hut@ == old(hut)@.without_held(surface));
    let make_active = if was_bare {
        was_active || hut.main_window_count() == 0
    } else {
        true
    };
    let mut nested = false;
    if let Some(Nesting { role, main }) = target {
        match hut.find_main_window_mut(main) {
            Some(entry) => {
                nested = true;
                match role {
                    Role::Floating => entry.floating_windows.push(FloatingWindow::new(surface)),
                    Role::Alert => entry.alerts.push(Alert::new(surface)),
                }
            },
            None => {},
        }
    }
    if !nested {
        hut.push_main_window(surface, make_active, foreign_handle);
    }
    nested
}

/// Tags a window anew, in the console that holds it: as a Main Window, or as a
/// Floating Window or Alert of the Main Window given. A new Main Window is
/// listed to other clients under `foreign_handle`. `None` if no console holds
/// the window.
pub fn retag(
    stack: &mut GraphStack,
    surface: u64,
    target: Option<Nesting>,
    foreign_handle: u64,
) -> (r: Option<Retagged>)
    requires
        acyclic(old(stack)@.kids),
    ensures
        final(stack).same_frame(*old(stack)),
        match first_holder(old(stack)@.nodes, old(stack)@.all_ids(), surface) {
            None => r is None && final(stack)@ == old(stack)@,
            Some(node) => {
                let hut = old(stack)@.nodes[node]->Console_0;
                &&& r == Some(
                    Retagged { hut_id: hut.id, nested: hut.nests_under(surface, target) },
                )
                &&& final(stack)@ == old(stack)@.with_console(
                    node,
                    hut.retagged(surface, target, foreign_handle),
                )
            },
        },
        old(stack)@.well_formed() ==> final(stack)@.well_formed(),
        old(stack)@.windows_once() ==> final(stack)@.windows_once(),
{
    match stack.holder_of(surface) {
        None => None,
        Some(node) => {
            let ghost before = stack@;
            match stack.console_mut(node) {
                None => None,
                Some(hut) => {
                    let hut_id: u64 = hut.id();
                    let nested = retag_in(hut, surface, target, foreign_handle);
                    proof {
                        before.law_changed_console_keeps_well_formed(
                            node,
                            (before.nodes[node]->Console_0).retagged(
                                surface,
                                target,
                                foreign_handle,
                            ),
                        );
                        if before.windows_once() {
                            law_retagging_keeps_windows_once(
                                before,
                                surface,
                                target,
                                foreign_handle,
                            );
                        }
                    }
                    Some(Retagged { hut_id, nested })
                },
            }
        },
    }
}

/// Whether a window that was tagged anew takes the keyboard: it is nested, and
/// shows on the console that has focus.
pub fn focus_after_retag(stack: &GraphStack, retagged: Retagged, surface: u64) -> (r: bool)
    requires
        acyclic(stack@.kids),
        stack@.focused < stack@.slots.len(),
        stack@.out().current < stack@.out().huts.len(),
        stack@.focus_lands(stack@.out().huts[stack@.out().current as int]),
    ensures
        ({
            let hut = stack@.focused_console(stack@.out().huts[stack@.out().current as int]);
            r == (retagged.nested && retagged.hut_id == hut.id && crate::console_hut::placed_index(
                hut.space,
                surface,
            ) < hut.space.len())
        }),
{
    let hut = stack.focused();
    retagged.nested && retagged.hut_id == hut.id() && hut.placed_at(surface).is_some()
}

/// A window listed to other clients: its handle, and the name they know it by.
#[derive(Debug)]
pub struct ListedToplevel {
    pub handle: u64,
    pub identifier: String,
}

/// Whether a handle is listed under a name.
pub open spec fn listed_as(listed: Seq<ListedToplevel>, handle: u64, name: Seq<char>) -> bool {
    exists|i: int|
        0 <= i < listed.len() && (#[trigger] listed[i]).handle == handle && listed[i].identifier@
            == name
}

/// The first of some tabs that is listed under a name; their number if none
/// is.
pub open spec fn named_tab(windows: Seq<EntryView>, listed: Seq<ListedToplevel>, name: Seq<char>) -> int
    decreases windows.len(),
{
    if windows.len() == 0 || listed_as(listed, windows[0].foreign_handle, name) {
        0
    } else {
        1 + named_tab(windows.drop_first(), listed, name)
    }
}

/// The first Main Window of some consoles that is listed under a name.
pub open spec fn named_window(
    huts: Seq<HutView>,
    listed: Seq<ListedToplevel>,
    name: Seq<char>,
) -> Option<u64>
    decreases huts.len(),
{
    if huts.len() == 0 {
        None
    } else {
        let i = named_tab(huts[0].windows, listed, name);
        if i < huts[0].windows.len() {
            Some(huts[0].windows[i].window)
        } else {
            named_window(huts.drop_first(), listed, name)
        }
    }
}

fn is_listed(listed: &Vec<ListedToplevel>, handle: u64, name: &str) -> (r: bool)
    ensures
        r == listed_as(listed@, handle, name@),
{
    for i in 0..listed.len()
        invariant
            forall|k: int|
                0 <= k < i ==> !((#[trigger] listed@[k]).handle == handle && listed@[k].identifier@
                    == name@),
    {
        if listed[i].handle == handle && str_eq(listed[i].identifier.as_str(), name) {
            assert(listed@[i as int].handle == handle && listed@[i as int].identifier@ == name@);
            return true;
        }
    }
    false
}

fn named_in(hut: &ConsoleHut, listed: &Vec<ListedToplevel>, name: &str) -> (r: Option<u64>)
    ensures
        ({
            let i = named_tab(hut@.windows, listed@, name@);
            r == if i < hut@.windows.len() {
                Some(hut@.windows[i].window)
            } else {
                None
            }
        }),
{
    let entries = hut.main_windows();
    let ghost views = hut@.windows;
    assert(views.len() == entries@.len());
    assert(views.skip(0) =~= views);
    for i in 0..entries.len()
        invariant
            views == hut@.windows,
            views == crate::console_hut::entry_views(entries@),
            views.len() == entries@.len(),
            named_tab(views, listed@, name@) == i + named_tab(
                views.skip(i as int),
                listed@,
                name@,
            ),
    {
        assert(views[i as int] == entries@[i as int]@);
        assert(views.skip(i as int)[0] == views[i as int]);
        assert(views.skip(i as int).drop_first() =~= views.skip(i + 1));
        if is_listed(listed, entries[i].foreign_handle, name) {
            return Some(entries[i].window);
        }
    }
    None
}

/// The Main Window listed under a name.
pub fn resolve_by_identifier(
    stack: &GraphStack,
    listed: &Vec<ListedToplevel>,
    identifier: &str,
) -> (r: Option<u64>)
    requires
        acyclic(stack@.kids),
    ensures
        r == named_window(consoles(stack@.nodes, stack@.all_ids()), listed@, identifier@),
{
    let huts = stack.all_huts();
    let ghost views = consoles(stack@.nodes, stack@.all_ids());
    assert(views.len() == huts@.len());
    assert(views.skip(0) =~= views);
    for i in 0..huts.len()
        invariant
            views == huts@.map_values(|h: &ConsoleHut| h@),
            views == consoles(stack@.nodes, stack@.all_ids()),
            views.len() == huts@.len(),
            named_window(views, listed@, identifier@) == named_window(
                views.skip(i as int),
                listed@,
                identifier@,
            ),
    {
        assert(views[i as int] == huts@[i as int]@);
        assert(views.skip(i as int)[0] == views[i as int]);
        assert(views.skip(i as int).drop_first() =~= views.skip(i + 1));
        let found = named_in(huts[i], listed, identifier);
        if found.is_some() {
            return found;
        }
    }
    None
}

/// A request of the trusted helper.
#[derive(Debug)]
pub enum AuthorityRequest {
    Authenticate(String),
    SetMain(String),
    SetFloating(String, String),
    SetAlert(String, String),
    Destroy,
}

/// How a request of the trusted helper is answered.
#[derive(Debug, Clone, Copy, PartialEq, Eq, Structural)]
pub enum AuthorityReply {
    /// Nothing is sent.
    Silent,
    /// The token is wrong.
    BadToken,
    /// The helper has not presented the token yet.
    NotAuthenticated,
    /// A name in the request is no window's.
    UnknownToplevel,
    /// A window was tagged anew, in a console or in none.
    Tagged(Option<Retagged>),
}

/// The trusted helper's end of the protocol: whether it has presented the
/// token.
#[derive(Debug, Clone, Copy, PartialEq, Eq, Structural)]
pub struct Authority {
    pub authenticated: bool,
}

/// The window to tag and what to tag it as, if every name in a request is a
/// window's.
pub open spec fn resolved(
    stack: StackView,
    listed: Seq<ListedToplevel>,
    request: AuthorityRequest,
) -> Option<(u64, Option<Nesting>)> {
    let huts = consoles(stack.nodes, stack.all_ids());
    match request {
        AuthorityRequest::SetMain(name) => match named_window(huts, listed, name@) {
            Some(surface) => Some((surface, None)),
            None => None,
        },
        AuthorityRequest::SetFloating(name, main) => match (
            named_window(huts, listed, name@),
            named_window(huts, listed, main@),
        ) {
            (Some(surface), Some(m)) => Some((surface, Some(Nesting { role: Role::Floating, main: m }))),
            _ => None,
        },
        AuthorityRequest::SetAlert(name, main) => match (
            named_window(huts, listed, name@),
            named_window(huts, listed, main@),
        ) {
            (Some(surface), Some(m)) => Some((surface, Some(Nesting { role: Role::Alert, main: m }))),
            _ => None,
        },
        _ => None,
    }
}

/// The stack after a window was tagged anew.
pub open spec fn stack_retagged(
    stack: StackView,
    surface: u64,
    target: Option<Nesting>,
    foreign_handle: u64,
) -> StackView {
    match first_holder(stack.nodes, stack.all_ids(), surface) {
        None => stack,
        Some(node) => stack.with_console(
            node,
            (stack.nodes[node]->Console_0).retagged(surface, target, foreign_handle),
        ),
    }
}

/// What tagging a window anew reports.
pub open spec fn retag_report(
    stack: StackView,
    surface: u64,
    target: Option<Nesting>,
) -> Option<Retagged> {
    match first_holder(stack.nodes, stack.all_ids(), surface) {
        None => None,
        Some(node) => {
            let hut = stack.nodes[node]->Console_0;
            Some(Retagged { hut_id: hut.id, nested: hut.nests_under(surface, target) })
        },
    }
}

/// Tagging a window anew leaves every window held once. One that is a Main
/// Window then is neither a Floating Window nor an Alert of anything.
pub proof fn law_retagging_keeps_windows_once(
    stack: StackView,
    surface: u64,
    target: Option<Nesting>,
    foreign_handle: u64,
)
    requires
        stack.windows_once(),
    ensures
        ({
            let after = stack_retagged(stack, surface, target, foreign_handle);
            let report = retag_report(stack, surface, target);
            &&& after.windows_once()
            &&& report is Some && !report->0.nested ==> forall|id: NodeId| #[trigger]
                after.nodes.contains_key(id) && after.nodes[id] is Console ==> {
                    let hut = after.nodes[id]->Console_0;
                    &&& float_owner(hut.windows, surface) == hut.windows.len()
                    &&& alert_owner(hut.windows, surface) == hut.windows.len()
                }
        }),
{
    let after = stack_retagged(stack, surface, target, foreign_handle);
    lemma_first_holder(stack.nodes, stack.all_ids(), surface);
    if let Some(node) = first_holder(stack.nodes, stack.all_ids(), surface) {
        let hut = stack.nodes[node]->Console_0;
        let changed = hut.retagged(surface, target, foreign_handle);
        assert(stack.nodes.contains_key(node));
        lemma_retagged_once(hut, surface, target, foreign_handle);
        stack.law_changed_console_keeps_windows_once(node, changed);
        law_retagged_window_has_one_place(hut, surface, target, foreign_handle);
        if !hut.nests_under(surface, target) {
            assert forall|id: NodeId| #[trigger]
                after.nodes.contains_key(id) && after.nodes[id] is Console implies ({
                let hut = after.nodes[id]->Console_0;
                &&& float_owner(hut.windows, surface) == hut.windows.len()
                &&& alert_owner(hut.windows, surface) == hut.windows.len()
            }) by {
                let there = after.nodes[id]->Console_0;
                lemma_found(there.windows, surface);
                if id != node {
                    assert(is_holder(stack.nodes, node, surface));
                    assert(!is_holder(stack.nodes, id, surface));
                    assert(stack.nodes.contains_key(id));
                }
            }
        }
    }
}

fn resolve_pair(
    stack: &GraphStack,
    listed: &Vec<ListedToplevel>,
    name: &String,
    main: &String,
) -> (r: Option<(u64, u64)>)
    requires
        acyclic(stack@.kids),
    ensures
        ({
            let huts = consoles(stack@.nodes, stack@.all_ids());
            r == match (
                named_window(huts, listed@, name@),
                named_window(huts, listed@, main@),
            ) {
                (Some(surface), Some(m)) => Some((surface, m)),
                _ => None,
            }
        }),
{
    let surface = resolve_by_identifier(stack, listed, name.as_str());
    let main_surface = resolve_by_identifier(stack, listed, main.as_str());
    match (surface, main_surface) {
        (Some(surface), Some(m)) => Some((surface, m)),
        _ => None,
    }
}

impl Default for Authority {
    fn default() -> (r: Self)
        ensures
            !r.authenticated,
    {
        Authority { authenticated: false }
    }
}

impl Authority {
    /// Handles a request of the trusted helper. `token` is the secret it has to
    /// present before anything else.
    pub fn request(
        &mut self,
        stack: &mut GraphStack,
        request: AuthorityRequest,
        token: &str,
        listed: &Vec<ListedToplevel>,
        foreign_handle: u64,
    ) -> (r: AuthorityReply)
        requires
            acyclic(old(stack)@.kids),
        ensures
            final(stack).same_frame(*old(stack)),
            old(stack)@.well_formed() ==> final(stack)@.well_formed(),
            old(stack)@.windows_once() ==> final(stack)@.windows_once(),
            match request {
                AuthorityRequest::Authenticate(given) => {
                    &&& final(stack)@ == old(stack)@
                    &&& final(self).authenticated == (old(self).authenticated || given@ == token@)
                    &&& r == if given@ == token@ {
                        AuthorityReply::Silent
                    } else {
                        AuthorityReply::BadToken
                    }
                },
                _ => {
                    &&& final(self).authenticated == old(self).authenticated
                    &&& if !old(self).authenticated {
                        r == AuthorityReply::NotAuthenticated && final(stack)@ == old(stack)@
                    } else if request is Destroy {
                        r == AuthorityReply::Silent && final(stack)@ == old(stack)@
                    } else {
                        match resolved(old(stack)@, listed@, request) {
                            None => r == AuthorityReply::UnknownToplevel && final(stack)@ == old(
                                stack,
                            )@,
                            Some((surface, target)) => {
                                &&& r == AuthorityReply::Tagged(
                                    retag_report(old(stack)@, surface, target),
                                )
                                &&& final(stack)@ == stack_retagged(
                                    old(stack)@,
                                    surface,
                                    target,
                                    foreign_handle,
                                )
                            },
                        }
                    }
                },
            },
    {
        if let AuthorityRequest::Authenticate(given) = &request {
            if str_eq(given.as_str(), token) {
                self.authenticated = true;
                return AuthorityReply::Silent;
            }
            return AuthorityReply::BadToken;
        }
        if !self.authenticated {
            return AuthorityReply::NotAuthenticated;
        }
        match &request {
            AuthorityRequest::SetMain(name) => {
                match resolve_by_identifier(stack, listed, name.as_str()) {
                    None => AuthorityReply::UnknownToplevel,
                    Some(surface) => AuthorityReply::Tagged(
                        retag(stack, surface, None, foreign_handle),
                    ),
                }
            },
            AuthorityRequest::SetFloating(name, main) => {
                match resolve_pair(stack, listed, name, main) {
                    None => AuthorityReply::UnknownToplevel,
                    Some((surface, m)) => AuthorityReply::Tagged(
                        retag(stack, surface, Some(Nesting { role: Role::Floating, main: m }), foreign_handle),
                    ),
                }
            },
            AuthorityRequest::SetAlert(name, main) => {
                match resolve_pair(stack, listed, name, main) {
                    None => AuthorityReply::UnknownToplevel,
                    Some((surface, m)) => AuthorityReply::Tagged(
                        retag(stack, surface, Some(Nesting { role: Role::Alert, main: m }), foreign_handle),
                    ),
                }
            },
            AuthorityRequest::Destroy => AuthorityReply::Silent,
            AuthorityRequest::Authenticate(_) => AuthorityReply::Silent,
        }
    }
}

/// A client's request to tag one of its own windows. A Main Window that is
/// already gone is `None`.
#[derive(Debug, Clone, Copy)]
pub enum RoleRequest {
    SetMain,
    SetFloating(Option<u64>),
    SetAlert(Option<u64>),
    Destroy,
}

/// What a client's request asks for; `None` if nothing.
pub open spec fn role_target(request: RoleRequest) -> Option<Option<Nesting>> {
    match request {
        RoleRequest::SetMain => Some(None),
        RoleRequest::SetFloating(Some(main)) => Some(Some(Nesting { role: Role::Floating, main: main })),
        RoleRequest::SetAlert(Some(main)) => Some(Some(Nesting { role: Role::Alert, main: main })),
        _ => None,
    }
}

/// Handles a client's request to tag its window `tagged`, which is `None` if
/// it is already gone.
pub fn window_role(
    stack: &mut GraphStack,
    tagged: Option<u64>,
    request: RoleRequest,
    foreign_handle: u64,
) -> (r: Option<Retagged>)
    requires
        acyclic(old(stack)@.kids),
    ensures
        final(stack).same_frame(*old(stack)),
        old(stack)@.well_formed() ==> final(stack)@.well_formed(),
        old(stack)@.windows_once() ==> final(stack)@.windows_once(),
        match (tagged, role_target(request)) {
            (Some(surface), Some(target)) => {
                &&& r == retag_report(old(stack)@, surface, target)
                &&& final(stack)@ == stack_retagged(old(stack)@, surface, target, foreign_handle)
            },
            _ => r is None && final(stack)@ == old(stack)@,
        },
{
    let surface: u64 = match tagged {
        Some(surface) => surface,
        None => {
            return None;
        },
    };
    match request {
        RoleRequest::SetMain => retag(stack, surface, None, foreign_handle),
        RoleRequest::SetFloating(Some(main)) => retag(
            stack,
            surface,
            Some(Nesting { role: Role::Floating, main: main }),
            foreign_handle,
        ),
        RoleRequest::SetAlert(Some(main)) => retag(
            stack,
            surface,
            Some(Nesting { role: Role::Alert, main: main }),
            foreign_handle,
        ),
        _ => None,
    }
}

/// A window that is tagged as a Floating Window or Alert comes last among those
/// of its Main Window, docked at the right or at the place where Alerts begin.
/// One that is tagged as a Main Window is the last tab, with nothing around it,
/// under the handle given. All other tabs are as they are without the window,
/// in the same order.
pub proof fn law_where_a_tagged_window_goes(
    hut: HutView,
    surface: u64,
    target: Option<Nesting>,
    foreign_handle: u64,
    i: int,
)
    ensures
        ({
            let rest = hut.without_held(surface);
            let after = hut.retagged(surface, target, foreign_handle);
            if hut.nests_under(surface, target) {
                let j = main_index(rest.windows, target->0.main);
                let was = rest.windows[j];
                let now = after.windows[j];
                &&& after.windows.len() == rest.windows.len()
                &&& 0 <= j < rest.windows.len()
                &&& was.window == target->0.main
                &&& now.window == was.window && now.foreign_handle == was.foreign_handle
                &&& target->0.role is Floating ==> now.alerts == was.alerts && now.floats.drop_last()
                    == was.floats && now.floats.last().window == surface
                    && now.floats.last().dock == Dock::Docked(Edge::Right)
                &&& target->0.role is Alert ==> now.floats == was.floats && now.alerts.drop_last()
                    == was.alerts && now.alerts.last().window == surface
                    && now.alerts.last().position.0 == 100 && now.alerts.last().position.1 == 100
                &&& 0 <= i < rest.windows.len() && i != j ==> after.windows[i] == rest.windows[i]
                &&& after.active == rest.active
            } else {
                &&& after.windows.len() == rest.windows.len() + 1
                &&& after.windows.last().window == surface
                &&& after.windows.last().foreign_handle == foreign_handle
                &&& after.windows.last().floats.len() == 0
                &&& after.windows.last().alerts.len() == 0
                &&& 0 <= i < rest.windows.len() ==> after.windows[i] == rest.windows[i]
            }
        }),
        ({
            let after = hut.retagged(surface, target, foreign_handle);
            &&& after.id == hut.id && after.touched == hut.touched && after.pixel_size
                == hut.pixel_size && after.showing_terminal == hut.showing_terminal && after.space
                == hut.space
        }),
{
    let rest = hut.without_held(surface);
    let after = hut.retagged(surface, target, foreign_handle);
    if hut.nests_under(surface, target) {
        lemma_main_index_is_place(rest.windows, target->0.main);
        lemma_main_index_shows(rest.windows, target->0.main);
        let j = main_index(rest.windows, target->0.main);
        assert(after.windows[j].floats.drop_last() =~= rest.windows[j].floats
            || target->0.role is Alert);
        assert(after.windows[j].alerts.drop_last() =~= rest.windows[j].alerts
            || target->0.role is Floating);
    }
}

/// A window nests under a Main Window exactly if a place under one was asked
/// for, and that Main Window is another one of the same console.
pub proof fn law_when_a_window_nests(hut: HutView, surface: u64, target: Option<Nesting>)
    requires
        hut.holds_once(),
        hut.holds(surface),
    ensures
        target is None ==> !hut.nests_under(surface, target),
        target is Some ==> (hut.nests_under(surface, target) <==> target->0.main != surface
            && main_index(hut.windows, target->0.main) < hut.windows.len()),
{
    let rest = hut.without_held(surface);
    lemma_found(hut.windows, surface);
    let i = main_index(hut.windows, surface);
    if i < hut.windows.len() {
        lemma_untabbed_once(hut, i);
    } else {
        lemma_unnested_once(hut, surface);
    }
    if target is Some {
        let main = target->0.main;
        let m = main_index(hut.windows, main);
        let r = main_index(rest.windows, main);
        lemma_found(hut.windows, main);
        lemma_found(rest.windows, main);
        if r < rest.windows.len() {
            if i < hut.windows.len() {
                let at = if r < i {
                    r
                } else {
                    r + 1
                };
                assert(rest.windows[r] == hut.windows[at]);
                lemma_main_at(hut.windows, main, at);
            } else {
                assert(rest.windows[r].window == hut.windows[r].window);
                lemma_main_at(hut.windows, main, r);
            }
        }
        if m < hut.windows.len() && main != surface {
            if i < hut.windows.len() {
                let at = if m < i {
                    m
                } else {
                    m - 1
                };
                assert(m != i);
                assert(rest.windows[at] == hut.windows[m]);
                lemma_main_at(rest.windows, main, at);
            } else {
                assert(rest.windows[m].window == hut.windows[m].window);
                lemma_main_at(rest.windows, main, m);
            }
        }
    }
}

/// The name of a window leads to the first Main Window that is listed under it,
/// console by console and tab by tab, and to none if none is.
pub proof fn law_named_window_is_listed(huts: Seq<HutView>, listed: Seq<ListedToplevel>, name: Seq<char>)
    ensures
        match named_window(huts, listed, name) {
            Some(window) => exists|h: int, i: int, k: int|
                0 <= h < huts.len() && 0 <= i < huts[h].windows.len() && 0 <= k < listed.len()
                    && #[trigger] huts[h].windows[i].window == window && (
                #[trigger] listed[k]).handle == huts[h].windows[i].foreign_handle
                    && listed[k].identifier@ == name,
            None => forall|h: int, i: int, k: int|
                0 <= h < huts.len() && 0 <= i < huts[h].windows.len() && 0 <= k < listed.len()
                    ==> !(#[trigger] huts[h].windows[i].foreign_handle == (
                #[trigger] listed[k]).handle && listed[k].identifier@ == name),
        },
    decreases huts.len(),
{
    if huts.len() > 0 {
        let i = named_tab(huts[0].windows, listed, name);
        lemma_named_tab(huts[0].windows, listed, name);
        let t = huts.drop_first();
        if i < huts[0].windows.len() {
            let k = choose|k: int|
                0 <= k < listed.len() && (#[trigger] listed[k]).handle
                    == huts[0].windows[i].foreign_handle && listed[k].identifier@ == name;
            assert(huts[0].windows[i].window == named_window(huts, listed, name)->0);
            assert(listed[k].handle == huts[0].windows[i].foreign_handle);
        } else {
            law_named_window_is_listed(t, listed, name);
            match named_window(t, listed, name) {
                Some(window) => {
                    let (h, j, k) = choose|h: int, j: int, k: int|
                        0 <= h < t.len() && 0 <= j < t[h].windows.len() && 0 <= k < listed.len()
                            && #[trigger] t[h].windows[j].window == window && (
                        #[trigger] listed[k]).handle == t[h].windows[j].foreign_handle
                            && listed[k].identifier@ == name;
                    assert(huts[h + 1].windows[j].window == window);
                },
                None => {
                    assert forall|h: int, j: int, k: int|
                        0 <= h < huts.len() && 0 <= j < huts[h].windows.len() && 0 <= k
                            < listed.len() implies !(#[trigger] huts[h].windows[j].foreign_handle
                        == (#[trigger] listed[k]).handle && listed[k].identifier@ == name) by {
                        if h == 0 {
                            assert(!listed_as(listed, huts[0].windows[j].foreign_handle, name));
                        } else {
                            assert(t[h - 1] == huts[h]);
                            assert(t[h - 1].windows[j].foreign_handle
                                == huts[h].windows[j].foreign_handle);
                        }
                    }
                },
            }
        }
    }
}

proof fn lemma_named_tab(windows: Seq<EntryView>, listed: Seq<ListedToplevel>, name: Seq<char>)
    ensures
        ({
            let i = named_tab(windows, listed, name);
            &&& 0 <= i <= windows.len()
            &&& i < windows.len() ==> listed_as(listed, windows[i].foreign_handle, name)
            &&& forall|j: int|
                0 <= j < i ==> !listed_as(listed, (#[trigger] windows[j]).foreign_handle, name)
        }),
    decreases windows.len(),
{
    if windows.len() > 0 && !listed_as(listed, windows[0].foreign_handle, name) {
        let t = windows.drop_first();
        lemma_named_tab(t, listed, name);
        assert forall|j: int| 0 <= j < named_tab(windows, listed, name) implies !listed_as(
            listed,
            (#[trigger] windows[j]).foreign_handle,
            name,
        ) by {
            if j > 0 {
                assert(t[j - 1] == windows[j]);
            }
        }
    }
}

/// What a request of the trusted helper comes to: the window that its name
/// leads to, as a Main Window or as a Floating Window or Alert of the one that
/// the other name leads to. Nothing if a name leads nowhere, or if the request
/// names no window.
pub proof fn law_what_a_request_comes_to(
    stack: StackView,
    listed: Seq<ListedToplevel>,
    name: String,
    main: String,
)
    ensures
        ({
            let huts = consoles(stack.nodes, stack.all_ids());
            let window = named_window(huts, listed, name@);
            let under = named_window(huts, listed, main@);
            let tag = |request: AuthorityRequest| resolved(stack, listed, request);
            let both = window is Some && under is Some;
            &&& window is Some ==> tag(AuthorityRequest::SetMain(name)) == Some(
                (window->0, None::<Nesting>),
            )
            &&& window is None ==> tag(AuthorityRequest::SetMain(name)) is None
            &&& both ==> tag(AuthorityRequest::SetFloating(name, main)) == Some(
                (window->0, Some(Nesting { role: Role::Floating, main: under->0 })),
            )
            &&& both ==> tag(AuthorityRequest::SetAlert(name, main)) == Some(
                (window->0, Some(Nesting { role: Role::Alert, main: under->0 })),
            )
            &&& !both ==> tag(AuthorityRequest::SetFloating(name, main)) is None && tag(
                AuthorityRequest::SetAlert(name, main),
            ) is None
            &&& tag(AuthorityRequest::Destroy) is None
            &&& tag(AuthorityRequest::Authenticate(name)) is None
        }),
{
}

/// What a client's own request asks for. One about a Main Window that is gone
/// asks for nothing.
pub proof fn law_what_a_client_asks_for(main: u64)
    ensures
        role_target(RoleRequest::SetMain) == Some(None::<Nesting>),
        role_target(RoleRequest::SetFloating(Some(main))) == Some(
            Some(Nesting { role: Role::Floating, main }),
        ),
        role_target(RoleRequest::SetAlert(Some(main))) == Some(
            Some(Nesting { role: Role::Alert, main }),
        ),
        role_target(RoleRequest::SetFloating(None)) is None,
        role_target(RoleRequest::SetAlert(None)) is None,
        role_target(RoleRequest::Destroy) is None,
{
}

/// Tagging a window anew changes just the console that holds it, and reports
/// that console. A window that no console holds changes nothing.
pub proof fn law_tagging_changes_just_the_holder(
    stack: StackView,
    surface: u64,
    target: Option<Nesting>,
    foreign_handle: u64,
    x: NodeId,
)
    ensures
        ({
            let node = first_holder(stack.nodes, stack.all_ids(), surface);
            let after = stack_retagged(stack, surface, target, foreign_handle);
            let report = retag_report(stack, surface, target);
            &&& after.slots == stack.slots && after.kids == stack.kids && after.focused
                == stack.focused
            &&& node is None ==> after == stack && report is None
            &&& node is Some ==> {
                let hut = stack.nodes[node->0]->Console_0;
                &&& hut.holds(surface)
                &&& report is Some
                &&& report->0.hut_id == hut.id
                &&& report->0.nested == hut.nests_under(surface, target)
                &&& after.nodes[node->0] is Console
                &&& after.nodes[node->0]->Console_0 == hut.retagged(surface, target, foreign_handle)
            }
            &&& stack.nodes.contains_key(x) && Some(x) != node ==> after.nodes[x] == stack.nodes[x]
        }),
{
    lemma_first_holder(stack.nodes, stack.all_ids(), surface);
}

} // verus!
