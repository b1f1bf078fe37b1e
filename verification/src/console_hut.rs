//! A console: one terminal together with the client windows that belong to
//! it. This is the model of those windows, of which of them is shown and
//! where, and of the terminal grid's size. The terminal itself, its glyphs
//! and its textures live outside.
use vstd::prelude::*;

use crate::held::{
    law_docking_keeps_windows_once, law_placing_an_alert_keeps_windows_once,
    law_removed_window_is_gone, lemma_pushed_once, lemma_unnested_once, lemma_untabbed_once,
};
use crate::hut::{shift_active_index_on_removal, shifted, stepped, wrapping_step, Direction};
use crate::main_window::{
    alert_index, float_index, Alert, Dock, EntryView, FloatingWindow, MainWindowEntry,
};

verus! {

/// The grid size used before the real output size is known.
pub const INITIAL_COLS: usize = 80;

pub const INITIAL_LINES: usize = 24;

/// Hands out the next console's id from a counter, which wraps around at the
/// end of its range.
pub fn next_hut_id(next: &mut u64) -> (r: u64)
    ensures
        r == *old(next),
        *final(next) == if *old(next) == u64::MAX {
            0
        } else {
            *old(next) + 1
        },
{
    let id: u64 = *next;
    *next = if id == 0xffff_ffff_ffff_ffff {
        0
    } else {
        id + 1
    };
    id
}

/// A window placed in a console's space, back to front.
#[derive(Debug, Clone, Copy, PartialEq, Eq)]
pub struct Placed {
    pub window: u64,
    pub position: (i32, i32),
}

/// The size of a terminal grid, in cells, and of one of its cells, in pixels.
#[derive(Debug, Clone, Copy, PartialEq, Eq)]
pub struct GridFit {
    pub cols: usize,
    pub lines: usize,
    pub cell: (u16, u16),
}

pub struct ConsoleHut {
    pub id: u64,
    touched: bool,
    pixel_size: (i32, i32),
    main_windows: Vec<MainWindowEntry>,
    active_main_window: usize,
    pub showing_terminal: bool,
    space: Vec<Placed>,
}

/// What a console stands for.
#[verifier::ext_equal]
pub struct HutView {
    pub id: u64,
    pub touched: bool,
    pub pixel_size: (i32, i32),
    pub windows: Seq<EntryView>,
    pub active: usize,
    pub showing_terminal: bool,
    pub space: Seq<Placed>,
}

pub open spec fn entry_views(s: Seq<MainWindowEntry>) -> Seq<EntryView> {
    s.map_values(|e: MainWindowEntry| e@)
}

impl View for ConsoleHut {
    type V = HutView;

    closed spec fn view(&self) -> HutView {
        HutView {
            id: self.id,
            touched: self.touched,
            pixel_size: self.pixel_size,
            windows: entry_views(self.main_windows@),
            active: self.active_main_window,
            showing_terminal: self.showing_terminal,
            space: self.space@,
        }
    }
}

/// The position of the first tab whose Main Window shows `surface`; the
/// number of tabs if none does.
pub open spec fn main_index(windows: Seq<EntryView>, surface: u64) -> int
    decreases windows.len(),
{
    if windows.len() == 0 || windows[0].window == surface {
        0
    } else {
        1 + main_index(windows.drop_first(), surface)
    }
}

/// The position of the first tab that holds `surface` as a Floating Window or
/// an Alert; the number of tabs if none does.
pub open spec fn nested_index(windows: Seq<EntryView>, surface: u64) -> int
    decreases windows.len(),
{
    if windows.len() == 0 || windows[0].nests(surface) {
        0
    } else {
        1 + nested_index(windows.drop_first(), surface)
    }
}

/// The position of the first tab that holds `surface` as a Floating Window;
/// the number of tabs if none does.
pub open spec fn float_owner(windows: Seq<EntryView>, surface: u64) -> int
    decreases windows.len(),
{
    if windows.len() == 0 || float_index(windows[0].floats, surface) < windows[0].floats.len() {
        0
    } else {
        1 + float_owner(windows.drop_first(), surface)
    }
}

/// The position of the first tab that holds `surface` as an Alert; the number
/// of tabs if none does.
pub open spec fn alert_owner(windows: Seq<EntryView>, surface: u64) -> int
    decreases windows.len(),
{
    if windows.len() == 0 || alert_index(windows[0].alerts, surface) < windows[0].alerts.len() {
        0
    } else {
        1 + alert_owner(windows.drop_first(), surface)
    }
}

proof fn lemma_float_owner(windows: Seq<EntryView>, surface: u64, i: int)
    requires
        0 <= i <= windows.len(),
        forall|j: int|
            0 <= j < i ==> float_index((#[trigger] windows[j]).floats, surface)
                >= windows[j].floats.len(),
        i < windows.len() ==> float_index(windows[i].floats, surface) < windows[i].floats.len(),
    ensures
        float_owner(windows, surface) == i,
    decreases i,
{
    if i > 0 {
        assert(float_index(windows[0].floats, surface) >= windows[0].floats.len());
        let t = windows.drop_first();
        assert forall|j: int| 0 <= j < i - 1 implies float_index(
            (#[trigger] t[j]).floats,
            surface,
        ) >= t[j].floats.len() by {
            assert(t[j] == windows[j + 1]);
        }
        lemma_float_owner(t, surface, i - 1);
    }
}

proof fn lemma_alert_owner(windows: Seq<EntryView>, surface: u64, i: int)
    requires
        0 <= i <= windows.len(),
        forall|j: int|
            0 <= j < i ==> alert_index((#[trigger] windows[j]).alerts, surface)
                >= windows[j].alerts.len(),
        i < windows.len() ==> alert_index(windows[i].alerts, surface) < windows[i].alerts.len(),
    ensures
        alert_owner(windows, surface) == i,
    decreases i,
{
    if i > 0 {
        assert(alert_index(windows[0].alerts, surface) >= windows[0].alerts.len());
        let t = windows.drop_first();
        assert forall|j: int| 0 <= j < i - 1 implies alert_index(
            (#[trigger] t[j]).alerts,
            surface,
        ) >= t[j].alerts.len() by {
            assert(t[j] == windows[j + 1]);
        }
        lemma_alert_owner(t, surface, i - 1);
    }
}

pub proof fn lemma_main_index(windows: Seq<EntryView>, surface: u64, i: int)
    requires
        0 <= i <= windows.len(),
        forall|j: int| 0 <= j < i ==> (#[trigger] windows[j]).window != surface,
        i < windows.len() ==> windows[i].window == surface,
    ensures
        main_index(windows, surface) == i,
    decreases i,
{
    if i > 0 {
        assert(windows[0].window != surface);
        let t = windows.drop_first();
        assert forall|j: int| 0 <= j < i - 1 implies (#[trigger] t[j]).window != surface by {
            assert(t[j] == windows[j + 1]);
        }
        lemma_main_index(t, surface, i - 1);
    }
}

proof fn lemma_nested_index(windows: Seq<EntryView>, surface: u64, i: int)
    requires
        0 <= i <= windows.len(),
        forall|j: int| 0 <= j < i ==> !(#[trigger] windows[j]).nests(surface),
        i < windows.len() ==> windows[i].nests(surface),
    ensures
        nested_index(windows, surface) == i,
    decreases i,
{
    if i > 0 {
        assert(!windows[0].nests(surface));
        let t = windows.drop_first();
        assert forall|j: int| 0 <= j < i - 1 implies !(#[trigger] t[j]).nests(surface) by {
            assert(t[j] == windows[j + 1]);
        }
        lemma_nested_index(t, surface, i - 1);
    }
}

/// The position in `space` of the window that is `surface`; the length if it
/// is not there.
pub open spec fn placed_index(space: Seq<Placed>, surface: u64) -> int
    decreases space.len(),
{
    if space.len() == 0 || space[0].window == surface {
        0
    } else {
        1 + placed_index(space.drop_first(), surface)
    }
}

pub proof fn lemma_placed_index(space: Seq<Placed>, surface: u64, i: int)
    requires
        0 <= i <= space.len(),
        forall|j: int| 0 <= j < i ==> (#[trigger] space[j]).window != surface,
        i < space.len() ==> space[i].window == surface,
    ensures
        placed_index(space, surface) == i,
    decreases i,
{
    if i > 0 {
        assert(space[0].window != surface);
        let t = space.drop_first();
        assert forall|j: int| 0 <= j < i - 1 implies (#[trigger] t[j]).window != surface by {
            assert(t[j] == space[j + 1]);
        }
        lemma_placed_index(t, surface, i - 1);
    }
}

/// `space` with `window` mapped at `position`, on top of everything else.
pub open spec fn mapped(space: Seq<Placed>, window: u64, position: (i32, i32)) -> Seq<Placed> {
    let i = placed_index(space, window);
    let rest = if i < space.len() {
        space.remove(i)
    } else {
        space
    };
    rest.push(Placed { window, position })
}

/// `space` once every floating one of these windows is mapped, in order.
pub open spec fn with_floats(space: Seq<Placed>, floats: Seq<FloatingWindow>) -> Seq<Placed>
    decreases floats.len(),
{
    if floats.len() == 0 {
        space
    } else {
        let before = with_floats(space, floats.drop_last());
        match floats.last().dock {
            Dock::Floating(p) => mapped(before, floats.last().window, p),
            Dock::Docked(_) => before,
        }
    }
}

/// `space` once every one of these Alerts is mapped, in order.
pub open spec fn with_alerts(space: Seq<Placed>, alerts: Seq<Alert>) -> Seq<Placed>
    decreases alerts.len(),
{
    if alerts.len() == 0 {
        space
    } else {
        mapped(
            with_alerts(space, alerts.drop_last()),
            alerts.last().window,
            alerts.last().position,
        )
    }
}

impl HutView {
    /// Whether the active tab is there, or is where the first one will be.
    pub open spec fn tab_seated(self) -> bool {
        self.active == 0 || self.active < self.windows.len()
    }

    /// What belongs on screen: nothing while the terminal shows; otherwise
    /// the active Main Window at `origin`, then its floating windows, then
    /// its Alerts on top.
    pub open spec fn arranged(self, origin: (i32, i32)) -> Seq<Placed> {
        if self.showing_terminal || self.active >= self.windows.len() {
            Seq::empty()
        } else {
            let entry = self.windows[self.active as int];
            let main = mapped(Seq::empty(), entry.window, origin);
            with_alerts(with_floats(main, entry.floats), entry.alerts)
        }
    }

    /// Whether a client surface is one of the console's: a Main Window, or a
    /// Floating Window or Alert of one.
    pub open spec fn holds(self, surface: u64) -> bool {
        main_index(self.windows, surface) < self.windows.len() || nested_index(
            self.windows,
            surface,
        ) < self.windows.len()
    }

    /// The console once the tab at `i` is gone.
    pub open spec fn without_tab(self, i: int) -> HutView {
        HutView {
            windows: self.windows.remove(i),
            active: shifted(self.active as int, i, self.windows.len() - 1) as usize,
            ..self
        }
    }

    /// The console once `surface`, nested under some tab, is taken out.
    pub open spec fn without_nested(self, surface: u64) -> HutView {
        let n = nested_index(self.windows, surface);
        if n < self.windows.len() {
            HutView {
                windows: self.windows.update(n, self.windows[n].without_nested(surface)),
                ..self
            }
        } else {
            self
        }
    }

    /// The console with the Floating Window `surface`, if it has it, put at
    /// `dock`.
    pub open spec fn with_dock(self, surface: u64, dock: Dock) -> HutView {
        let n = float_owner(self.windows, surface);
        if n < self.windows.len() {
            let floats = self.windows[n].floats;
            let i = float_index(floats, surface);
            HutView {
                windows: self.windows.update(
                    n,
                    EntryView {
                        floats: floats.update(i, FloatingWindow { dock, ..floats[i] }),
                        ..self.windows[n]
                    },
                ),
                ..self
            }
        } else {
            self
        }
    }

    /// The console with the Alert `surface`, if it has it, put at `position`.
    pub open spec fn with_alert_at(self, surface: u64, position: (i32, i32)) -> HutView {
        let n = alert_owner(self.windows, surface);
        if n < self.windows.len() {
            let alerts = self.windows[n].alerts;
            let i = alert_index(alerts, surface);
            HutView {
                windows: self.windows.update(
                    n,
                    EntryView {
                        alerts: alerts.update(i, Alert { position, ..alerts[i] }),
                        ..self.windows[n]
                    },
                ),
                ..self
            }
        } else {
            self
        }
    }

    /// The console once the client surface is destroyed.
    pub open spec fn without_window(self, surface: u64) -> HutView {
        let i = main_index(self.windows, surface);
        if i < self.windows.len() {
            HutView {
                showing_terminal: self.showing_terminal || self.windows.len() == 1,
                ..self.without_tab(i)
            }
        } else {
            self.without_nested(surface)
        }
    }
}

/// Whether a window is somewhere in a space.
pub open spec fn is_placed(space: Seq<Placed>, window: u64) -> bool {
    exists|i: int| 0 <= i < space.len() && (#[trigger] space[i]).window == window
}

/// Whether a window is one of these Alerts.
pub open spec fn is_alert(alerts: Seq<Alert>, window: u64) -> bool {
    exists|i: int| 0 <= i < alerts.len() && (#[trigger] alerts[i]).window == window
}

/// Whether a window is one of these Floating Windows, and floats.
pub open spec fn is_floating(floats: Seq<FloatingWindow>, window: u64) -> bool {
    exists|i: int|
        0 <= i < floats.len() && (#[trigger] floats[i]).window == window && floats[i].dock is Floating
}

proof fn lemma_mapped_places(space: Seq<Placed>, window: u64, position: (i32, i32), x: u64)
    ensures
        is_placed(mapped(space, window, position), x) <==> is_placed(space, x) || x == window,
{
    let i = placed_index(space, window);
    lemma_placed_index_range(space, window);
    let r = mapped(space, window, position);
    assert(r[r.len() - 1].window == window);
    if is_placed(space, x) && x != window {
        let k = choose|k: int| 0 <= k < space.len() && (#[trigger] space[k]).window == x;
        if i < space.len() && k > i {
            assert(r[k - 1] == space[k]);
        } else {
            assert(r[k] == space[k]);
        }
    }
    if is_placed(r, x) && x != window {
        let k = choose|k: int| 0 <= k < r.len() && (#[trigger] r[k]).window == x;
        if i < space.len() && k >= i {
            assert(r[k] == space[k + 1]);
        } else {
            assert(r[k] == space[k]);
        }
    }
}

proof fn lemma_placed_index_range(space: Seq<Placed>, window: u64)
    ensures
        0 <= placed_index(space, window) <= space.len(),
        placed_index(space, window) < space.len() ==> space[placed_index(space, window)].window
            == window,
    decreases space.len(),
{
    if space.len() > 0 && space[0].window != window {
        lemma_placed_index_range(space.drop_first(), window);
    }
}

proof fn lemma_floats_place(space: Seq<Placed>, floats: Seq<FloatingWindow>, x: u64)
    ensures
        is_placed(with_floats(space, floats), x) <==> is_placed(space, x) || is_floating(floats, x),
    decreases floats.len(),
{
    if floats.len() > 0 {
        let rest = floats.drop_last();
        let last = floats[floats.len() - 1];
        lemma_floats_place(space, rest, x);
        if last.dock is Floating {
            lemma_mapped_places(with_floats(space, rest), last.window, last.dock->Floating_0, x);
        }
        if is_floating(rest, x) {
            let k = choose|k: int|
                0 <= k < rest.len() && (#[trigger] rest[k]).window == x && rest[k].dock is Floating;
            assert(floats[k] == rest[k]);
        }
        if is_floating(floats, x) {
            let k = choose|k: int|
                0 <= k < floats.len() && (#[trigger] floats[k]).window == x
                    && floats[k].dock is Floating;
            if k < rest.len() {
                assert(rest[k] == floats[k]);
            }
        }
    }
}

proof fn lemma_alerts_place(space: Seq<Placed>, alerts: Seq<Alert>, x: u64)
    ensures
        is_placed(with_alerts(space, alerts), x) <==> is_placed(space, x) || is_alert(alerts, x),
    decreases alerts.len(),
{
    if alerts.len() > 0 {
        let rest = alerts.drop_last();
        let last = alerts[alerts.len() - 1];
        lemma_alerts_place(space, rest, x);
        lemma_mapped_places(with_alerts(space, rest), last.window, last.position, x);
        if is_alert(rest, x) {
            let k = choose|k: int| 0 <= k < rest.len() && (#[trigger] rest[k]).window == x;
            assert(alerts[k] == rest[k]);
        }
        if is_alert(alerts, x) {
            let k = choose|k: int| 0 <= k < alerts.len() && (#[trigger] alerts[k]).window == x;
            if k < rest.len() {
                assert(rest[k] == alerts[k]);
            }
        }
    }
}

/// A console that shows its terminal has no window on screen; another one has
/// exactly its active Main Window, those of that one's Floating Windows that
/// float, and its Alerts. A docked window is not on screen.
pub proof fn law_what_is_on_screen(hut: HutView, origin: (i32, i32), window: u64)
    ensures
        is_placed(hut.arranged(origin), window) <==> {
            &&& !hut.showing_terminal
            &&& hut.active < hut.windows.len()
            &&& {
                let entry = hut.windows[hut.active as int];
                ||| entry.window == window
                ||| is_floating(entry.floats, window)
                ||| is_alert(entry.alerts, window)
            }
        },
{
    if !hut.showing_terminal && hut.active < hut.windows.len() {
        let entry = hut.windows[hut.active as int];
        let main = mapped(Seq::empty(), entry.window, origin);
        lemma_mapped_places(Seq::empty(), entry.window, origin, window);
        lemma_floats_place(main, entry.floats, window);
        lemma_alerts_place(with_floats(main, entry.floats), entry.alerts, window);
    }
}

/// Whether no window is in a space twice.
pub open spec fn placed_once(space: Seq<Placed>) -> bool {
    forall|i: int, j: int|
        0 <= i < j < space.len() ==> (#[trigger] space[i]).window != (#[trigger] space[j]).window
}

proof fn lemma_placed_index_first(space: Seq<Placed>, window: u64)
    ensures
        forall|i: int|
            0 <= i < placed_index(space, window) && i < space.len() ==> (#[trigger] space[i]).window
                != window,
    decreases space.len(),
{
    if space.len() > 0 && space[0].window != window {
        let t = space.drop_first();
        lemma_placed_index_first(t, window);
        assert forall|i: int|
            0 <= i < placed_index(space, window) && i < space.len() implies (
        #[trigger] space[i]).window != window by {
            if i > 0 {
                assert(t[i - 1] == space[i]);
            }
        }
    }
}

proof fn lemma_mapped_placed_once(space: Seq<Placed>, window: u64, position: (i32, i32))
    requires
        placed_once(space),
    ensures
        placed_once(mapped(space, window, position)),
{
    let at = placed_index(space, window);
    lemma_placed_index_range(space, window);
    lemma_placed_index_first(space, window);
    let r = mapped(space, window, position);
    assert forall|i: int, j: int| 0 <= i < j < r.len() implies (#[trigger] r[i]).window != (
    #[trigger] r[j]).window by {
        let bi = if at < space.len() && i >= at {
            i + 1
        } else {
            i
        };
        let bj = if at < space.len() && j >= at {
            j + 1
        } else {
            j
        };
        assert(r[i] == space[bi]);
        if j < r.len() - 1 {
            assert(r[j] == space[bj]);
        } else if at < space.len() {
            assert(space[at].window == window);
        }
    }
}

proof fn lemma_floats_placed_once(space: Seq<Placed>, floats: Seq<FloatingWindow>)
    requires
        placed_once(space),
    ensures
        placed_once(with_floats(space, floats)),
    decreases floats.len(),
{
    if floats.len() > 0 {
        let rest = floats.drop_last();
        let last = floats[floats.len() - 1];
        lemma_floats_placed_once(space, rest);
        if last.dock is Floating {
            lemma_mapped_placed_once(with_floats(space, rest), last.window, last.dock->Floating_0);
        }
    }
}

proof fn lemma_alerts_placed_once(space: Seq<Placed>, alerts: Seq<Alert>)
    requires
        placed_once(space),
    ensures
        placed_once(with_alerts(space, alerts)),
    decreases alerts.len(),
{
    if alerts.len() > 0 {
        let rest = alerts.drop_last();
        let last = alerts[alerts.len() - 1];
        lemma_alerts_placed_once(space, rest);
        lemma_mapped_placed_once(with_alerts(space, rest), last.window, last.position);
    }
}

/// No window is on screen twice.
pub proof fn law_no_window_is_on_screen_twice(hut: HutView, origin: (i32, i32))
    ensures
        placed_once(hut.arranged(origin)),
{
    if !hut.showing_terminal && hut.active < hut.windows.len() {
        let entry = hut.windows[hut.active as int];
        let main = mapped(Seq::empty(), entry.window, origin);
        lemma_mapped_placed_once(Seq::empty(), entry.window, origin);
        lemma_floats_placed_once(main, entry.floats);
        lemma_alerts_placed_once(with_floats(main, entry.floats), entry.alerts);
    }
}

/// Alerts are on top of everything else on screen.
pub proof fn law_alerts_are_on_top(hut: HutView, origin: (i32, i32), i: int, j: int)
    requires
        hut.active < hut.windows.len(),
        0 <= i < hut.arranged(origin).len(),
        0 <= j < hut.arranged(origin).len(),
        !is_alert(hut.windows[hut.active as int].alerts, hut.arranged(origin)[i].window),
        is_alert(hut.windows[hut.active as int].alerts, hut.arranged(origin)[j].window),
    ensures
        i < j,
{
    let entry = hut.windows[hut.active as int];
    let below = with_floats(mapped(Seq::empty(), entry.window, origin), entry.floats);
    lemma_floats_placed_once(mapped(Seq::empty(), entry.window, origin), entry.floats);
    lemma_alerts_end_up_on_top(below, entry.alerts, i, j);
}

proof fn lemma_alerts_end_up_on_top(space: Seq<Placed>, alerts: Seq<Alert>, i: int, j: int)
    requires
        placed_once(space),
        0 <= i < with_alerts(space, alerts).len(),
        0 <= j < with_alerts(space, alerts).len(),
        !is_alert(alerts, with_alerts(space, alerts)[i].window),
        is_alert(alerts, with_alerts(space, alerts)[j].window),
    ensures
        i < j,
    decreases alerts.len(),
{
    let rest = alerts.drop_last();
    let last = alerts[alerts.len() - 1];
    let before = with_alerts(space, rest);
    let all = with_alerts(space, alerts);
    let at = placed_index(before, last.window);
    lemma_placed_index_range(before, last.window);
    lemma_alerts_placed_once(space, rest);
    lemma_placed_index_first(before, last.window);
    assert(all[i].window != last.window);
    if j < all.len() - 1 {
        let bi = if at < before.len() && i >= at {
            i + 1
        } else {
            i
        };
        let bj = if at < before.len() && j >= at {
            j + 1
        } else {
            j
        };
        assert(before[bi] == all[i]);
        assert(before[bj] == all[j]);
        assert(!is_alert(rest, all[i].window)) by {
            if is_alert(rest, all[i].window) {
                let k = choose|k: int|
                    0 <= k < rest.len() && (#[trigger] rest[k]).window == all[i].window;
                assert(alerts[k] == rest[k]);
            }
        }
        let k = choose|k: int| 0 <= k < alerts.len() && (#[trigger] alerts[k]).window == all[j].window;
        if k < rest.len() {
            assert(rest[k] == alerts[k]);
            lemma_alerts_end_up_on_top(space, rest, bi, bj);
        } else {
            assert(before[at].window == last.window);
        }
    }
}

/// Arranging what is arranged already changes nothing.
pub proof fn law_arranging_again_changes_nothing(hut: HutView, origin: (i32, i32))
    ensures
        ({
            let once = HutView { space: hut.arranged(origin), ..hut };
            once.arranged(origin) == once.space
        }),
{
}

/// How many whole cells of `cell` pixels fit in `pixels`, at least one.
pub open spec fn cells_fitting(pixels: int, cell: int) -> int {
    let unit = if cell < 1 {
        1
    } else {
        cell
    };
    let room = if pixels < 0 {
        0
    } else {
        pixels
    };
    if room / unit < 1 {
        1
    } else {
        room / unit
    }
}

fn cells_in(pixels: i32, cell: usize) -> (r: usize)
    ensures
        r == cells_fitting(pixels as int, cell as int),
{
    let unit: usize = if cell < 1 {
        1
    } else {
        cell
    };
    let room: usize = if pixels < 0 {
        0
    } else {
        pixels as usize
    };
    let n: usize = room / unit;
    if n < 1 {
        1
    } else {
        n
    }
}

/// The grid that fills `size` pixels with cells of `cell` pixels.
pub open spec fn grid_for(size: (i32, i32), cell: (usize, usize)) -> GridFit {
    let w = if cell.0 < 1 {
        1
    } else {
        cell.0
    };
    let h = if cell.1 < 1 {
        1
    } else {
        cell.1
    };
    GridFit {
        cols: cells_fitting(size.0 as int, cell.0 as int) as usize,
        lines: cells_fitting(size.1 as int, cell.1 as int) as usize,
        cell: (w as u16, h as u16),
    }
}

/// The grid that fills an area of `size` pixels with cells of `cell` pixels.
pub fn fit_grid(size: (i32, i32), cell: (usize, usize)) -> (r: GridFit)
    ensures
        r == grid_for(size, cell),
        r.cols >= 1,
        r.lines >= 1,
{
    let w: usize = if cell.0 < 1 {
        1
    } else {
        cell.0
    };
    let h: usize = if cell.1 < 1 {
        1
    } else {
        cell.1
    };
    GridFit {
        cols: cells_in(size.0, cell.0),
        lines: cells_in(size.1, cell.1),
        cell: (w as u16, h as u16),
    }
}

/// The grid cell under a pixel position, clamped to a grid of `cols` by
/// `lines`, and whether the position is in the cell's left half.
pub fn pixel_to_cell(
    x: usize,
    y: usize,
    cell: (usize, usize),
    cols: usize,
    lines: usize,
) -> (r: (usize, usize, bool))
    ensures
        ({
            let w: int = if cell.0 < 1 { 1 } else { cell.0 as int };
            let h: int = if cell.1 < 1 { 1 } else { cell.1 as int };
            let last_col: int = if cols > 0 { cols - 1 } else { 0 };
            let last_row: int = if lines > 0 { lines - 1 } else { 0 };
            &&& r.0 == (if x as int / w < last_col { x as int / w } else { last_col })
            &&& r.1 == (if y as int / h < last_row { y as int / h } else { last_row })
            &&& r.2 == ((x as int % w) < w / 2)
        }),
{
    let w: usize = if cell.0 < 1 {
        1
    } else {
        cell.0
    };
    let h: usize = if cell.1 < 1 {
        1
    } else {
        cell.1
    };
    let last_col: usize = cols.saturating_sub(1);
    let last_row: usize = lines.saturating_sub(1);
    let c: usize = x / w;
    let l: usize = y / h;
    let col: usize = if c < last_col {
        c
    } else {
        last_col
    };
    let row: usize = if l < last_row {
        l
    } else {
        last_row
    };
    (col, row, (x % w) < w / 2)
}

fn map_into(space: &mut Vec<Placed>, window: u64, position: (i32, i32))
    ensures
        final(space)@ == mapped(old(space)@, window, position),
{
    let mut at: usize = 0;
    while at < space.len() && space[at].window != window
        invariant
            at <= space@.len(),
            forall|j: int| 0 <= j < at ==> (#[trigger] space@[j]).window != window,
        decreases space@.len() - at,
    {
        at = at + 1;
    }
    proof {
        lemma_placed_index(space@, window, at as int);
    }
    if at < space.len() {
        space.remove(at);
    }
    space.push(Placed { window, position });
}

impl ConsoleHut {
    /// A console as it is right after its terminal was started, with grid
    /// cells of `cell` pixels.
    pub fn spawned(id: u64, cell: (u16, u16)) -> (r: Self)
        ensures
            r@ == (HutView {
                id,
                touched: false,
                pixel_size: ((80 * cell.0) as i32, (24 * cell.1) as i32),
                windows: Seq::empty(),
                active: 0,
                showing_terminal: true,
                space: Seq::empty(),
            }),
            r@.holds_once(),
    {
        let r = ConsoleHut {
            id,
            touched: false,
            pixel_size: (80 * (cell.0 as i32), 24 * (cell.1 as i32)),
            main_windows: Vec::new(),
            active_main_window: 0,
            showing_terminal: true,
            space: Vec::new(),
        };
        assert(r@.windows =~= Seq::empty());
        r
    }

    pub fn id(&self) -> (r: u64)
        ensures
            r == self@.id,
    {
        self.id
    }

    /// Whether the terminal is shown rather than the active Main Window.
    pub fn showing_terminal(&self) -> (r: bool)
        ensures
            r == self@.showing_terminal,
    {
        self.showing_terminal
    }

    pub fn set_showing_terminal(&mut self, showing: bool)
        ensures
            final(self)@ == (HutView { showing_terminal: showing, ..old(self)@ }),
    {
        self.showing_terminal = showing;
    }

    /// The Main Window whose tab is active, if any.
    pub fn active_window(&self) -> (r: Option<u64>)
        ensures
            r == (if self@.active < self@.windows.len() {
                Some(self@.windows[self@.active as int].window)
            } else {
                None::<u64>
            }),
    {
        if self.active_main_window < self.main_windows.len() {
            Some(self.main_windows[self.active_main_window].window)
        } else {
            None
        }
    }

    /// The active tab's whole entry, if any.
    pub fn active_main_window_entry(&self) -> (r: Option<&MainWindowEntry>)
        ensures
            match r {
                Some(e) => self@.active < self@.windows.len()
                    && e@ == self@.windows[self@.active as int],
                None => self@.active >= self@.windows.len(),
            },
    {
        if self.active_main_window < self.main_windows.len() {
            Some(&self.main_windows[self.active_main_window])
        } else {
            None
        }
    }

    /// The index of the active tab.
    pub fn active_main_window_index(&self) -> (r: usize)
        ensures
            r == self@.active,
    {
        self.active_main_window
    }

    pub fn main_windows(&self) -> (r: &Vec<MainWindowEntry>)
        ensures
            entry_views(r@) == self@.windows,
    {
        &self.main_windows
    }

    pub fn main_window_count(&self) -> (r: usize)
        ensures
            r == self@.windows.len(),
    {
        self.main_windows.len()
    }

    /// Selects a tab, or the last one if there is none at `index`.
    pub fn set_active_main_window(&mut self, index: usize)
        ensures
            final(self)@ == (HutView {
                active: (if index < old(self)@.windows.len() {
                    index as int
                } else if old(self)@.windows.len() > 0 {
                    old(self)@.windows.len() - 1
                } else {
                    0
                }) as usize,
                ..old(self)@
            }),
            final(self)@.tab_seated(),
    {
        let last: usize = self.main_windows.len().saturating_sub(1);
        self.active_main_window = if index < last {
            index
        } else {
            last
        };
    }

    /// Adds a tab at the end. It becomes the active one only if asked to.
    pub fn push_main_window(&mut self, window: u64, make_active: bool, foreign_handle: u64)
        ensures
            final(self)@ == (HutView {
                windows: old(self)@.windows.push(
                    EntryView {
                        window,
                        foreign_handle,
                        floats: Seq::empty(),
                        alerts: Seq::empty(),
                    },
                ),
                active: if make_active {
                    old(self)@.windows.len() as usize
                } else {
                    old(self)@.active
                },
                ..old(self)@
            }),
            old(self)@.tab_seated() ==> final(self)@.tab_seated(),
            old(self)@.holds_once() && !old(self)@.holds(window) ==> final(self)@.holds_once(),
    {
        self.main_windows.push(MainWindowEntry::new(window, foreign_handle));
        if make_active {
            self.active_main_window = self.main_windows.len() - 1;
        }
        let ghost entry = EntryView {
            window,
            foreign_handle,
            floats: Seq::empty(),
            alerts: Seq::empty(),
        };
        assert(self@.windows =~= old(self)@.windows.push(entry));
        proof {
            if old(self)@.holds_once() && !old(self)@.holds(window) {
                lemma_pushed_once(old(self)@, entry);
            }
        }
    }

    fn main_position(&self, surface: u64) -> (r: Option<usize>)
        ensures
            match r {
                Some(i) => i == main_index(self@.windows, surface) && i < self@.windows.len(),
                None => main_index(self@.windows, surface) == self@.windows.len(),
            },
    {
        for i in 0..self.main_windows.len()
            invariant
                forall|j: int| 0 <= j < i ==> (#[trigger] self@.windows[j]).window != surface,
        {
            assert(self@.windows[i as int] == self.main_windows@[i as int]@);
            if self.main_windows[i].matches(surface) {
                proof {
                    lemma_main_index(self@.windows, surface, i as int);
                }
                return Some(i);
            }
        }
        proof {
            lemma_main_index(self@.windows, surface, self@.windows.len() as int);
        }
        None
    }

    /// Whether `surface` is a Main Window here.
    pub fn has_bare_main_window(&self, surface: u64) -> (r: bool)
        ensures
            r == (main_index(self@.windows, surface) < self@.windows.len()),
    {
        self.main_position(surface).is_some()
    }

    fn remove_tab(&mut self, i: usize) -> (r: MainWindowEntry)
        requires
            i < old(self)@.windows.len(),
        ensures
            r@ == old(self)@.windows[i as int],
            final(self)@ == old(self)@.without_tab(i as int),
    {
        let entry = self.main_windows.remove(i);
        self.active_main_window = shift_active_index_on_removal(
            self.active_main_window,
            i,
            self.main_windows.len(),
        );
        assert(self@.windows =~= old(self)@.windows.remove(i as int));
        entry
    }

    /// Takes a Main Window out, keeping the active tab on the same window.
    pub fn take_bare_main_window(&mut self, surface: u64) -> (r: Option<u64>)
        ensures
            ({
                let i = main_index(old(self)@.windows, surface);
                if i < old(self)@.windows.len() {
                    r == Some(surface) && final(self)@ == old(self)@.without_tab(i)
                } else {
                    r is None && final(self)@ == old(self)@
                }
            }),
            old(self)@.tab_seated() ==> final(self)@.tab_seated(),
            old(self)@.holds_once() ==> final(self)@.holds_once(),
            old(self)@.holds_once() && r is Some ==> !final(self)@.holds(surface),
    {
        match self.main_position(surface) {
            Some(i) => {
                proof {
                    lemma_main_found(self@.windows, surface);
                    if self@.holds_once() {
                        lemma_untabbed_once(self@, i as int);
                    }
                }
                let entry = self.remove_tab(i);
                Some(entry.window)
            },
            None => None,
        }
    }

    /// The tab of a Main Window, to be changed in place.
    pub fn find_main_window_mut(&mut self, surface: u64) -> (r: Option<&mut MainWindowEntry>)
        ensures
            ({
                let i = main_index(old(self)@.windows, surface);
                match r {
                    Some(e) => {
                        &&& i < old(self)@.windows.len()
                        &&& e@ == old(self)@.windows[i]
                        &&& final(self)@ == (HutView {
                            windows: old(self)@.windows.update(i, final(e)@),
                            ..old(self)@
                        })
                    },
                    None => i == old(self)@.windows.len() && final(self)@ == old(self)@,
                }
            }),
    {
        match self.main_position(surface) {
            Some(i) => {
                proof {
                    self.lemma_set_tab(i as int);
                }
                Some(&mut self.main_windows[i])
            },
            None => None,
        }
    }

    proof fn lemma_set_tab(self, i: int)
        requires
            0 <= i < self@.windows.len(),
        ensures
            forall|e: MainWindowEntry|
                entry_views(#[trigger] self.main_windows@.update(i, e)) == self@.windows.update(
                    i,
                    e@,
                ),
    {
        assert forall|e: MainWindowEntry|
            entry_views(#[trigger] self.main_windows@.update(i, e)) == self@.windows.update(
                i,
                e@,
            ) by {
            assert(entry_views(self.main_windows@.update(i, e)) =~= self@.windows.update(i, e@));
        }
    }

    fn nested_position(&self, surface: u64) -> (r: Option<usize>)
        ensures
            match r {
                Some(i) => i == nested_index(self@.windows, surface) && i < self@.windows.len(),
                None => nested_index(self@.windows, surface) == self@.windows.len(),
            },
    {
        for i in 0..self.main_windows.len()
            invariant
                forall|j: int| 0 <= j < i ==> !(#[trigger] self@.windows[j]).nests(surface),
        {
            assert(self@.windows[i as int] == self.main_windows@[i as int]@);
            let found = self.main_windows[i].float_position(surface).is_some()
                || self.main_windows[i].alert_position(surface).is_some();
            if found {
                proof {
                    lemma_nested_index(self@.windows, surface, i as int);
                }
                return Some(i);
            }
        }
        proof {
            lemma_nested_index(self@.windows, surface, self@.windows.len() as int);
        }
        None
    }

    /// Takes a Floating Window or Alert out of whichever tab holds it.
    pub fn take_nested_window(&mut self, surface: u64) -> (r: Option<u64>)
        ensures
            r == (if nested_index(old(self)@.windows, surface) < old(self)@.windows.len() {
                Some(surface)
            } else {
                None::<u64>
            }),
            final(self)@ == old(self)@.without_nested(surface),
            old(self)@.tab_seated() ==> final(self)@.tab_seated(),
            old(self)@.holds_once() ==> final(self)@.holds_once(),
            old(self)@.holds_once() && r is Some ==> !final(self)@.holds(surface),
    {
        proof {
            if self@.holds_once() {
                lemma_unnested_once(self@, surface);
            }
        }
        match self.nested_position(surface) {
            Some(i) => {
                proof {
                    self.lemma_set_tab(i as int);
                    lemma_nested_found(self@.windows, surface);
                }
                let found = self.main_windows[i].take_nested(surface);
                assert(found);
                Some(surface)
            },
            None => None,
        }
    }

    fn float_place(&self, surface: u64) -> (r: Option<(usize, usize)>)
        ensures
            match r {
                Some((i, k)) => {
                    &&& i == float_owner(self@.windows, surface)
                    &&& i < self@.windows.len()
                    &&& k == float_index(self@.windows[i as int].floats, surface)
                    &&& k < self@.windows[i as int].floats.len()
                },
                None => float_owner(self@.windows, surface) == self@.windows.len(),
            },
    {
        for i in 0..self.main_windows.len()
            invariant
                forall|j: int|
                    0 <= j < i ==> float_index((#[trigger] self@.windows[j]).floats, surface)
                        >= self@.windows[j].floats.len(),
        {
            assert(self@.windows[i as int] == self.main_windows@[i as int]@);
            match self.main_windows[i].float_position(surface) {
                Some(k) => {
                    proof {
                        lemma_float_owner(self@.windows, surface, i as int);
                    }
                    return Some((i, k));
                },
                None => {},
            }
        }
        proof {
            lemma_float_owner(self@.windows, surface, self@.windows.len() as int);
        }
        None
    }

    /// A Floating Window's entry, to be changed in place.
    pub fn floating_window_mut(&mut self, surface: u64) -> (r: Option<&mut FloatingWindow>)
        ensures
            ({
                let n = float_owner(old(self)@.windows, surface);
                match r {
                    Some(f) => {
                        &&& n < old(self)@.windows.len()
                        &&& *f == old(self)@.windows[n].floats[float_index(
                            old(self)@.windows[n].floats,
                            surface,
                        )]
                        &&& final(self)@ == (HutView {
                            windows: old(self)@.windows.update(
                                n,
                                EntryView {
                                    floats: old(self)@.windows[n].floats.update(
                                        float_index(old(self)@.windows[n].floats, surface),
                                        *final(f),
                                    ),
                                    ..old(self)@.windows[n]
                                },
                            ),
                            ..old(self)@
                        })
                    },
                    None => n == old(self)@.windows.len() && final(self)@ == old(self)@,
                }
            }),
    {
        match self.float_place(surface) {
            Some((i, k)) => {
                proof {
                    self.lemma_set_tab(i as int);
                }
                let entry = &mut self.main_windows[i];
                Some(&mut entry.floating_windows[k])
            },
            None => None,
        }
    }

    fn alert_place(&self, surface: u64) -> (r: Option<(usize, usize)>)
        ensures
            match r {
                Some((i, k)) => {
                    &&& i == alert_owner(self@.windows, surface)
                    &&& i < self@.windows.len()
                    &&& k == alert_index(self@.windows[i as int].alerts, surface)
                    &&& k < self@.windows[i as int].alerts.len()
                },
                None => alert_owner(self@.windows, surface) == self@.windows.len(),
            },
    {
        for i in 0..self.main_windows.len()
            invariant
                forall|j: int|
                    0 <= j < i ==> alert_index((#[trigger] self@.windows[j]).alerts, surface)
                        >= self@.windows[j].alerts.len(),
        {
            assert(self@.windows[i as int] == self.main_windows@[i as int]@);
            match self.main_windows[i].alert_position(surface) {
                Some(k) => {
                    proof {
                        lemma_alert_owner(self@.windows, surface, i as int);
                    }
                    return Some((i, k));
                },
                None => {},
            }
        }
        proof {
            lemma_alert_owner(self@.windows, surface, self@.windows.len() as int);
        }
        None
    }

    /// An Alert's entry, to be changed in place.
    pub fn alert_mut(&mut self, surface: u64) -> (r: Option<&mut Alert>)
        ensures
            ({
                let n = alert_owner(old(self)@.windows, surface);
                match r {
                    Some(a) => {
                        &&& n < old(self)@.windows.len()
                        &&& *a == old(self)@.windows[n].alerts[alert_index(
                            old(self)@.windows[n].alerts,
                            surface,
                        )]
                        &&& final(self)@ == (HutView {
                            windows: old(self)@.windows.update(
                                n,
                                EntryView {
                                    alerts: old(self)@.windows[n].alerts.update(
                                        alert_index(old(self)@.windows[n].alerts, surface),
                                        *final(a),
                                    ),
                                    ..old(self)@.windows[n]
                                },
                            ),
                            ..old(self)@
                        })
                    },
                    None => n == old(self)@.windows.len() && final(self)@ == old(self)@,
                }
            }),
    {
        match self.alert_place(surface) {
            Some((i, k)) => {
                proof {
                    self.lemma_set_tab(i as int);
                }
                let entry = &mut self.main_windows[i];
                Some(&mut entry.alerts[k])
            },
            None => None,
        }
    }

    /// Whether `surface` is a Floating Window here.
    pub fn has_floating_window(&self, surface: u64) -> (r: bool)
        ensures
            r == (float_owner(self@.windows, surface) < self@.windows.len()),
    {
        self.float_place(surface).is_some()
    }

    /// Whether `surface` is an Alert here.
    pub fn has_alert(&self, surface: u64) -> (r: bool)
        ensures
            r == (alert_owner(self@.windows, surface) < self@.windows.len()),
    {
        self.alert_place(surface).is_some()
    }

    /// Whether `surface` is one of this console's windows.
    pub fn holds_window(&self, surface: u64) -> (r: bool)
        ensures
            r == self@.holds(surface),
    {
        self.main_position(surface).is_some() || self.nested_position(surface).is_some()
    }

    /// Puts a Floating Window at `dock`, if it is one of this console's.
    pub fn set_dock(&mut self, surface: u64, dock: Dock)
        ensures
            final(self)@ == old(self)@.with_dock(surface, dock),
            old(self)@.holds_once() ==> final(self)@.holds_once(),
    {
        proof {
            if self@.holds_once() {
                law_docking_keeps_windows_once(self@, surface, dock);
            }
        }
        match self.floating_window_mut(surface) {
            Some(sub) => {
                sub.dock = dock;
            },
            None => {},
        }
    }

    /// Puts an Alert at `position`, if it is one of this console's.
    pub fn set_alert_position(&mut self, surface: u64, position: (i32, i32))
        ensures
            final(self)@ == old(self)@.with_alert_at(surface, position),
            old(self)@.holds_once() ==> final(self)@.holds_once(),
    {
        proof {
            if self@.holds_once() {
                law_placing_an_alert_keeps_windows_once(self@, surface, position);
            }
        }
        match self.alert_mut(surface) {
            Some(alert) => {
                alert.position = position;
            },
            None => {},
        }
    }

    /// A client surface was destroyed: a Main Window, or a Floating Window or
    /// Alert of one. Returns whether it was one of this console's. With its
    /// last Main Window gone, the console shows its terminal again.
    pub fn remove_window(&mut self, surface: u64) -> (r: bool)
        ensures
            r == (main_index(old(self)@.windows, surface) < old(self)@.windows.len()
                || nested_index(old(self)@.windows, surface) < old(self)@.windows.len()),
            final(self)@ == old(self)@.without_window(surface),
            old(self)@.tab_seated() ==> final(self)@.tab_seated(),
            old(self)@.holds_once() ==> final(self)@.holds_once() && !final(self)@.holds(surface),
    {
        proof {
            if self@.holds_once() {
                law_removed_window_is_gone(self@, surface);
            }
        }
        match self.main_position(surface) {
            Some(i) => {
                self.remove_tab(i);
                assert(self@.windows.len() == self.main_windows@.len());
                if self.main_windows.len() == 0 {
                    self.showing_terminal = true;
                }
                assert(self@.windows == old(self)@.without_tab(i as int).windows);
                return true;
            },
            None => {},
        }
        self.take_nested_window(surface).is_some()
    }

    /// Moves the active tab one step. Nothing moves with fewer than two tabs.
    pub fn cycle_tab(&mut self, forward: bool)
        requires
            old(self)@.windows.len() < 2 || old(self)@.active + old(self)@.windows.len() <= usize::MAX,
        ensures
            final(self)@ == (HutView {
                active: if old(self)@.windows.len() < 2 {
                    old(self)@.active
                } else {
                    stepped(
                        old(self)@.windows.len() as int,
                        old(self)@.active as int,
                        if forward {
                            Direction::Next
                        } else {
                            Direction::Prev
                        },
                    ) as usize
                },
                ..old(self)@
            }),
            old(self)@.tab_seated() ==> final(self)@.tab_seated(),
    {
        let len: usize = self.main_windows.len();
        if len < 2 {
            return ;
        }
        let dir = if forward {
            Direction::Next
        } else {
            Direction::Prev
        };
        self.active_main_window = wrapping_step(len, self.active_main_window, dir);
    }

    /// Whether this console has ever received a keystroke.
    pub fn touched(&self) -> (r: bool)
        ensures
            r == self@.touched,
    {
        self.touched
    }

    /// This console with a keystroke received.
    pub closed spec fn as_touched(self) -> ConsoleHut {
        ConsoleHut { touched: true, ..self }
    }

    pub proof fn lemma_as_touched(self)
        ensures
            self.as_touched()@ == (HutView { touched: true, ..self@ }),
    {
    }

    pub fn mark_touched(&mut self)
        ensures
            *final(self) == old(self).as_touched(),
            final(self)@ == (HutView { touched: true, ..old(self)@ }),
    {
        self.touched = true;
    }

    /// Follows a new output size. Returns the grid that the terminal must
    /// take on, or `None` if the size is the one it already has.
    pub fn resize_to_pixels(&mut self, width: i32, height: i32, cell: (usize, usize)) -> (r: Option<
        GridFit,
    >)
        ensures
            final(self)@ == (HutView { pixel_size: (width, height), ..old(self)@ }),
            r == (if old(self)@.pixel_size == (width, height) {
                None::<GridFit>
            } else {
                Some(grid_for((width, height), cell))
            }),
    {
        if self.pixel_size.0 == width && self.pixel_size.1 == height {
            return None;
        }
        self.pixel_size = (width, height);
        Some(fit_grid(self.pixel_size, cell))
    }

    /// The grid that the terminal must take on once its cells are `cell`
    /// pixels, the output size staying what it is.
    pub fn rescale(&self, cell: (usize, usize)) -> (r: GridFit)
        ensures
            r == grid_for(self@.pixel_size, cell),
    {
        fit_grid(self.pixel_size, cell)
    }

    /// Makes this console's space match what it should be showing.
    pub fn sync_main_window_space(&mut self, area_origin: (i32, i32))
        ensures
            final(self)@ == (HutView { space: old(self)@.arranged(area_origin), ..old(self)@ }),
    {
        let mut space: Vec<Placed> = Vec::new();
        assert(space@ =~= Seq::empty());
        if !self.showing_terminal && self.active_main_window < self.main_windows.len() {
            let entry = &self.main_windows[self.active_main_window];
            assert(entry@ == self@.windows[self@.active as int]);
            map_into(&mut space, entry.window, area_origin);
            let ghost base = space@;
            for i in 0..entry.floating_windows.len()
                invariant
                    space@ == with_floats(base, entry@.floats.take(i as int)),
            {
                proof {
                    let t = entry@.floats.take(i + 1);
                    assert(t.drop_last() =~= entry@.floats.take(i as int));
                    assert(t.last() == entry@.floats[i as int]);
                }
                match entry.floating_windows[i].dock {
                    Dock::Floating(p) => {
                        map_into(&mut space, entry.floating_windows[i].window, p);
                    },
                    Dock::Docked(_) => {},
                }
            }
            assert(entry@.floats.take(entry@.floats.len() as int) =~= entry@.floats);
            let ghost base2 = space@;
            for i in 0..entry.alerts.len()
                invariant
                    space@ == with_alerts(base2, entry@.alerts.take(i as int)),
            {
                proof {
                    let t = entry@.alerts.take(i + 1);
                    assert(t.drop_last() =~= entry@.alerts.take(i as int));
                    assert(t.last() == entry@.alerts[i as int]);
                }
                map_into(&mut space, entry.alerts[i].window, entry.alerts[i].position);
            }
            assert(entry@.alerts.take(entry@.alerts.len() as int) =~= entry@.alerts);
        }
        self.space = space;
    }

    /// This console's space as it was last arranged, back to front.
    pub fn space(&self) -> (r: &Vec<Placed>)
        ensures
            r@ == self@.space,
    {
        &self.space
    }

    /// Where `surface` is currently mapped, if it is.
    pub fn placed_at(&self, surface: u64) -> (r: Option<(i32, i32)>)
        ensures
            r == (if placed_index(self@.space, surface) < self@.space.len() {
                Some(self@.space[placed_index(self@.space, surface)].position)
            } else {
                None::<(i32, i32)>
            }),
    {
        for i in 0..self.space.len()
            invariant
                forall|j: int| 0 <= j < i ==> (#[trigger] self@.space[j]).window != surface,
        {
            if self.space[i].window == surface {
                proof {
                    lemma_placed_index(self@.space, surface, i as int);
                }
                return Some(self.space[i].position);
            }
        }
        proof {
            lemma_placed_index(self@.space, surface, self@.space.len() as int);
        }
        None
    }

    /// Maps a window at a position while it is being dragged, on top, without
    /// changing the model it will be arranged from later.
    pub fn map_live(&mut self, window: u64, position: (i32, i32))
        ensures
            final(self)@ == (HutView {
                space: mapped(old(self)@.space, window, position),
                ..old(self)@
            }),
    {
        map_into(&mut self.space, window, position);
    }
}

proof fn lemma_main_found(windows: Seq<EntryView>, surface: u64)
    ensures
        0 <= main_index(windows, surface) <= windows.len(),
        main_index(windows, surface) < windows.len() ==> windows[main_index(
            windows,
            surface,
        )].window == surface,
    decreases windows.len(),
{
    if windows.len() > 0 && windows[0].window != surface {
        lemma_main_found(windows.drop_first(), surface);
    }
}

proof fn lemma_nested_found(windows: Seq<EntryView>, surface: u64)
    ensures
        0 <= nested_index(windows, surface) <= windows.len(),
        nested_index(windows, surface) < windows.len() ==> windows[nested_index(
            windows,
            surface,
        )].nests(surface),
    decreases windows.len(),
{
    if windows.len() > 0 && !windows[0].nests(surface) {
        lemma_nested_found(windows.drop_first(), surface);
    }
}

/// Whether a window is in a space at a position.
pub open spec fn shown_at(space: Seq<Placed>, window: u64, position: (i32, i32)) -> bool {
    exists|k: int|
        0 <= k < space.len() && (#[trigger] space[k]).window == window && space[k].position
            == position
}

proof fn lemma_mapped_shows(space: Seq<Placed>, window: u64, position: (i32, i32))
    ensures
        shown_at(mapped(space, window, position), window, position),
{
    let r = mapped(space, window, position);
    assert(r[r.len() - 1] == (Placed { window, position }));
}

proof fn lemma_mapped_keeps(
    space: Seq<Placed>,
    window: u64,
    position: (i32, i32),
    x: u64,
    q: (i32, i32),
)
    requires
        x != window,
        shown_at(space, x, q),
    ensures
        shown_at(mapped(space, window, position), x, q),
{
    let r = mapped(space, window, position);
    let i = placed_index(space, window);
    lemma_placed_index_range(space, window);
    let k = choose|k: int|
        0 <= k < space.len() && (#[trigger] space[k]).window == x && space[k].position == q;
    if i < space.len() && k > i {
        assert(r[k - 1] == space[k]);
    } else {
        assert(r[k] == space[k]);
    }
}

proof fn lemma_floats_keep(
    space: Seq<Placed>,
    floats: Seq<FloatingWindow>,
    x: u64,
    q: (i32, i32),
)
    requires
        !is_floating(floats, x),
        shown_at(space, x, q),
    ensures
        shown_at(with_floats(space, floats), x, q),
    decreases floats.len(),
{
    if floats.len() > 0 {
        let rest = floats.drop_last();
        let last = floats[floats.len() - 1];
        assert(!is_floating(rest, x)) by {
            if is_floating(rest, x) {
                let k = choose|k: int|
                    0 <= k < rest.len() && (#[trigger] rest[k]).window == x
                        && rest[k].dock is Floating;
                assert(floats[k] == rest[k]);
            }
        }
        lemma_floats_keep(space, rest, x, q);
        if last.dock is Floating {
            assert(last.window != x);
            lemma_mapped_keeps(
                with_floats(space, rest),
                last.window,
                last.dock->Floating_0,
                x,
                q,
            );
        }
    }
}

proof fn lemma_floats_show(space: Seq<Placed>, floats: Seq<FloatingWindow>, i: int)
    requires
        0 <= i < floats.len(),
        floats[i].dock is Floating,
        forall|j: int|
            0 <= j < floats.len() && j != i ==> (#[trigger] floats[j]).window != floats[i].window,
    ensures
        shown_at(with_floats(space, floats), floats[i].window, floats[i].dock->Floating_0),
    decreases floats.len(),
{
    let rest = floats.drop_last();
    let last = floats[floats.len() - 1];
    if i == floats.len() - 1 {
        lemma_mapped_shows(with_floats(space, rest), last.window, last.dock->Floating_0);
    } else {
        assert forall|j: int| 0 <= j < rest.len() && j != i implies (#[trigger] rest[j]).window
            != rest[i].window by {
            assert(floats[j].window != floats[i].window);
        }
        lemma_floats_show(space, rest, i);
        assert(last.window != floats[i].window);
        if last.dock is Floating {
            lemma_mapped_keeps(
                with_floats(space, rest),
                last.window,
                last.dock->Floating_0,
                floats[i].window,
                floats[i].dock->Floating_0,
            );
        }
    }
}

proof fn lemma_alerts_keep(space: Seq<Placed>, alerts: Seq<Alert>, x: u64, q: (i32, i32))
    requires
        !is_alert(alerts, x),
        shown_at(space, x, q),
    ensures
        shown_at(with_alerts(space, alerts), x, q),
    decreases alerts.len(),
{
    if alerts.len() > 0 {
        let rest = alerts.drop_last();
        let last = alerts[alerts.len() - 1];
        assert(!is_alert(rest, x)) by {
            if is_alert(rest, x) {
                let k = choose|k: int| 0 <= k < rest.len() && (#[trigger] rest[k]).window == x;
                assert(alerts[k] == rest[k]);
            }
        }
        lemma_alerts_keep(space, rest, x, q);
        assert(last.window != x);
        lemma_mapped_keeps(with_alerts(space, rest), last.window, last.position, x, q);
    }
}

proof fn lemma_alerts_show(space: Seq<Placed>, alerts: Seq<Alert>, i: int)
    requires
        0 <= i < alerts.len(),
        forall|j: int|
            0 <= j < alerts.len() && j != i ==> (#[trigger] alerts[j]).window != alerts[i].window,
    ensures
        shown_at(with_alerts(space, alerts), alerts[i].window, alerts[i].position),
    decreases alerts.len(),
{
    let rest = alerts.drop_last();
    let last = alerts[alerts.len() - 1];
    if i == alerts.len() - 1 {
        lemma_mapped_shows(with_alerts(space, rest), last.window, last.position);
    } else {
        assert forall|j: int| 0 <= j < rest.len() && j != i implies (#[trigger] rest[j]).window
            != rest[i].window by {
            assert(alerts[j].window != alerts[i].window);
        }
        lemma_alerts_show(space, rest, i);
        assert(last.window != alerts[i].window);
        lemma_mapped_keeps(
            with_alerts(space, rest),
            last.window,
            last.position,
            alerts[i].window,
            alerts[i].position,
        );
    }
}

/// The active Main Window is on screen at the start of the usable area.
pub proof fn law_main_window_is_at_the_origin(hut: HutView, origin: (i32, i32))
    requires
        !hut.showing_terminal,
        hut.active < hut.windows.len(),
        ({
            let entry = hut.windows[hut.active as int];
            !is_floating(entry.floats, entry.window) && !is_alert(entry.alerts, entry.window)
        }),
    ensures
        shown_at(hut.arranged(origin), hut.windows[hut.active as int].window, origin),
{
    let entry = hut.windows[hut.active as int];
    let main = mapped(Seq::empty(), entry.window, origin);
    lemma_mapped_shows(Seq::empty(), entry.window, origin);
    lemma_floats_keep(main, entry.floats, entry.window, origin);
    lemma_alerts_keep(with_floats(main, entry.floats), entry.alerts, entry.window, origin);
}

/// A Floating Window that floats is on screen at its own position.
pub proof fn law_floating_window_is_at_its_place(hut: HutView, origin: (i32, i32), i: int)
    requires
        !hut.showing_terminal,
        hut.active < hut.windows.len(),
        ({
            let entry = hut.windows[hut.active as int];
            &&& 0 <= i < entry.floats.len()
            &&& entry.floats[i].dock is Floating
            &&& forall|j: int|
                0 <= j < entry.floats.len() && j != i ==> (#[trigger] entry.floats[j]).window
                    != entry.floats[i].window
            &&& !is_alert(entry.alerts, entry.floats[i].window)
        }),
    ensures
        ({
            let float = hut.windows[hut.active as int].floats[i];
            shown_at(hut.arranged(origin), float.window, float.dock->Floating_0)
        }),
{
    let entry = hut.windows[hut.active as int];
    let main = mapped(Seq::empty(), entry.window, origin);
    let float = entry.floats[i];
    lemma_floats_show(main, entry.floats, i);
    lemma_alerts_keep(
        with_floats(main, entry.floats),
        entry.alerts,
        float.window,
        float.dock->Floating_0,
    );
}

/// An Alert is on screen at its own position.
pub proof fn law_alert_is_at_its_place(hut: HutView, origin: (i32, i32), i: int)
    requires
        !hut.showing_terminal,
        hut.active < hut.windows.len(),
        ({
            let entry = hut.windows[hut.active as int];
            &&& 0 <= i < entry.alerts.len()
            &&& forall|j: int|
                0 <= j < entry.alerts.len() && j != i ==> (#[trigger] entry.alerts[j]).window
                    != entry.alerts[i].window
        }),
    ensures
        ({
            let alert = hut.windows[hut.active as int].alerts[i];
            shown_at(hut.arranged(origin), alert.window, alert.position)
        }),
{
    let entry = hut.windows[hut.active as int];
    let main = mapped(Seq::empty(), entry.window, origin);
    lemma_alerts_show(with_floats(main, entry.floats), entry.alerts, i);
}

/// Mapping a window puts it on top of all others, which keep their order.
pub proof fn law_mapping_raises(space: Seq<Placed>, window: u64, position: (i32, i32))
    ensures
        ({
            let r = mapped(space, window, position);
            &&& r.last() == (Placed { window, position })
            &&& !is_placed(space, window) ==> r.drop_last() == space
            &&& is_placed(space, window) ==> exists|k: int|
                0 <= k < space.len() && (#[trigger] space[k]).window == window && r.drop_last()
                    == space.remove(k) && forall|j: int|
                    0 <= j < k ==> (#[trigger] space[j]).window != window
        }),
{
    let r = mapped(space, window, position);
    let i = placed_index(space, window);
    lemma_placed_index_range(space, window);
    lemma_placed_index_first(space, window);
    if i < space.len() {
        assert(r.drop_last() =~= space.remove(i));
        assert(space[i].window == window);
    } else {
        assert(r.drop_last() =~= space);
    }
}

/// Closing a tab leaves the others in their order, and the active tab shows the
/// window that it showed. Where that is the one closed, the next one is active
/// then, or the last one.
pub proof fn law_closing_a_tab(hut: HutView, i: int)
    requires
        0 <= i < hut.windows.len() <= usize::MAX,
        hut.active < hut.windows.len(),
    ensures
        ({
            let after = hut.without_tab(i);
            let n = hut.windows.len();
            &&& after.windows == hut.windows.remove(i)
            &&& hut.active != i ==> after.active < after.windows.len()
                && after.windows[after.active as int] == hut.windows[hut.active as int]
            &&& hut.active == i && i + 1 < n ==> after.active == i
            &&& hut.active == i && i + 1 == n && n > 1 ==> after.active == i - 1
            &&& n == 1 ==> after.active == 0
            &&& after.id == hut.id && after.touched == hut.touched && after.pixel_size
                == hut.pixel_size && after.showing_terminal == hut.showing_terminal && after.space
                == hut.space
        }),
{
}

/// With its last Main Window gone, a console shows its terminal; else it goes on
/// showing what it showed.
pub proof fn law_terminal_shows_once_the_windows_are_gone(hut: HutView, surface: u64)
    ensures
        ({
            let after = hut.without_window(surface);
            let main = main_index(hut.windows, surface) < hut.windows.len();
            &&& main && hut.windows.len() == 1 ==> after.showing_terminal
            &&& !(main && hut.windows.len() == 1) ==> after.showing_terminal
                == hut.showing_terminal
            &&& after.id == hut.id && after.touched == hut.touched && after.pixel_size
                == hut.pixel_size && after.space == hut.space
        }),
{
}

/// As many whole cells fill an area as fit into it, at least one.
pub proof fn law_cells_fill_the_area(pixels: int, cell: int)
    requires
        1 <= cell,
    ensures
        cells_fitting(pixels, cell) >= 1,
        pixels >= cell ==> cells_fitting(pixels, cell) * cell <= pixels < (cells_fitting(
            pixels,
            cell,
        ) + 1) * cell,
        pixels < cell ==> cells_fitting(pixels, cell) == 1,
{
    if pixels >= cell {
        vstd::arithmetic::div_mod::lemma_fundamental_div_mod(pixels, cell);
        let q = pixels / cell;
        assert(q >= 1) by (nonlinear_arith)
            requires
                pixels == cell * q + pixels % cell,
                0 <= pixels % cell < cell,
                pixels >= cell,
                1 <= cell,
        ;
        assert(q * cell <= pixels < (q + 1) * cell) by (nonlinear_arith)
            requires
                pixels == cell * q + pixels % cell,
                0 <= pixels % cell < cell,
        ;
    } else {
        let room = if pixels < 0 {
            0
        } else {
            pixels
        };
        assert(room / cell == 0) by (nonlinear_arith)
            requires
                0 <= room < cell,
        ;
    }
}

/// A grid has the columns that fit the width and the lines that fit the height.
pub proof fn law_grid_fills_both_ways(size: (i32, i32), cell: (usize, usize))
    requires
        1 <= cell.0 <= u16::MAX,
        1 <= cell.1 <= u16::MAX,
    ensures
        ({
            let g = grid_for(size, cell);
            &&& g.cols == cells_fitting(size.0 as int, cell.0 as int)
            &&& g.lines == cells_fitting(size.1 as int, cell.1 as int)
            &&& g.cell.0 == cell.0
            &&& g.cell.1 == cell.1
        }),
{
    law_cells_fill_the_area(size.0 as int, cell.0 as int);
    law_cells_fill_the_area(size.1 as int, cell.1 as int);
    let c = cells_fitting(size.0 as int, cell.0 as int);
    let l = cells_fitting(size.1 as int, cell.1 as int);
    assert(c <= c * cell.0) by (nonlinear_arith)
        requires
            1 <= cell.0,
            1 <= c,
    ;
    assert(l <= l * cell.1) by (nonlinear_arith)
        requires
            1 <= cell.1,
            1 <= l,
    ;
}

/// Docking or undocking a Floating Window changes just where that one is.
pub proof fn law_docking_moves_just_one(hut: HutView, surface: u64, dock: Dock, i: int, k: int)
    requires
        0 <= i < hut.windows.len(),
        0 <= k < hut.windows[i].floats.len(),
    ensures
        ({
            let after = hut.with_dock(surface, dock);
            let was = hut.windows[i].floats[k];
            let now = after.windows[i].floats[k];
            &&& after.windows.len() == hut.windows.len()
            &&& after.windows[i].window == hut.windows[i].window
            &&& after.windows[i].foreign_handle == hut.windows[i].foreign_handle
            &&& after.windows[i].alerts == hut.windows[i].alerts
            &&& after.windows[i].floats.len() == hut.windows[i].floats.len()
            &&& now.window == was.window
            &&& was.window != surface ==> now.dock == was.dock
            &&& was.window == surface && hut.holds_once() ==> now.dock == dock
            &&& after.active == hut.active && after.showing_terminal == hut.showing_terminal
                && after.space == hut.space && after.id == hut.id && after.touched == hut.touched
                && after.pixel_size == hut.pixel_size
        }),
{
    let n = float_owner(hut.windows, surface);
    crate::held::lemma_found(hut.windows, surface);
    if n < hut.windows.len() {
        crate::held::lemma_floating_found(hut.windows[n].floats, surface);
    }
    if hut.windows[i].floats[k].window == surface && hut.holds_once() {
        crate::held::lemma_floating_once(hut, surface, i, k);
    }
}

/// Moving an Alert changes just where that one is.
pub proof fn law_moving_an_alert_moves_just_one(
    hut: HutView,
    surface: u64,
    position: (i32, i32),
    i: int,
    k: int,
)
    requires
        0 <= i < hut.windows.len(),
        0 <= k < hut.windows[i].alerts.len(),
    ensures
        ({
            let after = hut.with_alert_at(surface, position);
            let was = hut.windows[i].alerts[k];
            let now = after.windows[i].alerts[k];
            &&& after.windows.len() == hut.windows.len()
            &&& after.windows[i].window == hut.windows[i].window
            &&& after.windows[i].foreign_handle == hut.windows[i].foreign_handle
            &&& after.windows[i].floats == hut.windows[i].floats
            &&& after.windows[i].alerts.len() == hut.windows[i].alerts.len()
            &&& now.window == was.window
            &&& was.window != surface ==> now.position == was.position
            &&& was.window == surface && hut.holds_once() ==> now.position == position
            &&& after.active == hut.active && after.showing_terminal == hut.showing_terminal
                && after.space == hut.space && after.id == hut.id && after.touched == hut.touched
                && after.pixel_size == hut.pixel_size
        }),
{
    let n = alert_owner(hut.windows, surface);
    crate::held::lemma_found(hut.windows, surface);
    if n < hut.windows.len() {
        crate::held::lemma_alert_found(hut.windows[n].alerts, surface);
    }
    if hut.windows[i].alerts[k].window == surface && hut.holds_once() {
        crate::held::lemma_alert_once(hut, surface, i, k);
    }
}

/// Where a window is looked for among the tabs: the first that has it as its
/// Main Window, and the first that has it as a Floating Window or Alert.
pub proof fn law_first_tab_that_has_it(windows: Seq<EntryView>, surface: u64)
    ensures
        ({
            let m = main_index(windows, surface);
            let n = nested_index(windows, surface);
            &&& 0 <= m <= windows.len() && 0 <= n <= windows.len()
            &&& m < windows.len() ==> windows[m].window == surface
            &&& n < windows.len() ==> windows[n].nests(surface)
            &&& forall|i: int| 0 <= i < m ==> (#[trigger] windows[i]).window != surface
            &&& forall|i: int| 0 <= i < n ==> !(#[trigger] windows[i]).nests(surface)
        }),
    decreases windows.len(),
{
    if windows.len() > 0 {
        let t = windows.drop_first();
        law_first_tab_that_has_it(t, surface);
        assert forall|i: int| 0 <= i < main_index(windows, surface) implies (
        #[trigger] windows[i]).window != surface by {
            if i > 0 {
                assert(t[i - 1] == windows[i]);
            }
        }
        assert forall|i: int| 0 <= i < nested_index(windows, surface) implies !(
        #[trigger] windows[i]).nests(surface) by {
            if i > 0 {
                assert(t[i - 1] == windows[i]);
            }
        }
    }
}

/// A console holds exactly the Main Windows of its tabs, and what is nested under
/// one of them.
pub proof fn law_what_a_console_holds(hut: HutView, surface: u64)
    ensures
        hut.holds(surface) <==> exists|i: int|
            0 <= i < hut.windows.len() && ((#[trigger] hut.windows[i]).window == surface
                || hut.windows[i].nests(surface)),
{
    law_first_tab_that_has_it(hut.windows, surface);
    let m = main_index(hut.windows, surface);
    let n = nested_index(hut.windows, surface);
    if m < hut.windows.len() {
        assert(hut.windows[m].window == surface);
    } else if n < hut.windows.len() {
        assert(hut.windows[n].nests(surface));
    }
}

} // verus!
