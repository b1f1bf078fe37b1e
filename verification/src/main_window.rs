//! Main Windows and what floats around them. A client surface is known here
//! by a number that stays the same for as long as the surface lives.
use vstd::prelude::*;

verus! {

/// The edge of the output that a docked window's handle sits against.
#[derive(Debug, Clone, Copy, PartialEq, Eq, Structural)]
pub enum Edge {
    Left,
    Right,
    Top,
    Bottom,
}

/// Where a Floating Window currently is.
#[derive(Debug, Clone, Copy, PartialEq, Eq)]
pub enum Dock {
    /// Off screen, shown as a handle at this edge.
    Docked(Edge),
    /// On screen at this position.
    Floating((i32, i32)),
}

#[derive(Debug, Clone, Copy, PartialEq, Eq)]
pub struct FloatingWindow {
    pub window: u64,
    pub dock: Dock,
}

impl FloatingWindow {
    /// A Floating Window starts out docked at the right.
    pub fn new(window: u64) -> (r: Self)
        ensures
            r == (FloatingWindow { window, dock: Dock::Docked(Edge::Right) }),
    {
        FloatingWindow { window, dock: Dock::Docked(Edge::Right) }
    }
}

#[derive(Debug, Clone, Copy, PartialEq, Eq)]
pub struct Alert {
    pub window: u64,
    pub position: (i32, i32),
}

impl Alert {
    /// An Alert starts out at a fixed position on screen.
    pub fn new(window: u64) -> (r: Self)
        ensures
            r == (Alert { window, position: (100i32, 100i32) }),
    {
        Alert { window, position: (100, 100) }
    }
}

/// One tab of a console: a Main Window with its Floating Windows and Alerts.
#[derive(Debug)]
pub struct MainWindowEntry {
    pub window: u64,
    /// The handle under which other clients see this window.
    pub foreign_handle: u64,
    pub floating_windows: Vec<FloatingWindow>,
    pub alerts: Vec<Alert>,
}

/// What a tab stands for.
#[verifier::ext_equal]
pub struct EntryView {
    pub window: u64,
    pub foreign_handle: u64,
    pub floats: Seq<FloatingWindow>,
    pub alerts: Seq<Alert>,
}

impl View for MainWindowEntry {
    type V = EntryView;

    open spec fn view(&self) -> EntryView {
        EntryView {
            window: self.window,
            foreign_handle: self.foreign_handle,
            floats: self.floating_windows@,
            alerts: self.alerts@,
        }
    }
}

/// The position of the first Floating Window that shows `surface`; the length
/// of the list if none does.
pub open spec fn float_index(floats: Seq<FloatingWindow>, surface: u64) -> int
    decreases floats.len(),
{
    if floats.len() == 0 || floats[0].window == surface {
        0
    } else {
        1 + float_index(floats.drop_first(), surface)
    }
}

/// The position of the first Alert that shows `surface`; the length of the
/// list if none does.
pub open spec fn alert_index(alerts: Seq<Alert>, surface: u64) -> int
    decreases alerts.len(),
{
    if alerts.len() == 0 || alerts[0].window == surface {
        0
    } else {
        1 + alert_index(alerts.drop_first(), surface)
    }
}

pub proof fn lemma_float_index(floats: Seq<FloatingWindow>, surface: u64, i: int)
    requires
        0 <= i <= floats.len(),
        forall|j: int| 0 <= j < i ==> (#[trigger] floats[j]).window != surface,
        i < floats.len() ==> floats[i].window == surface,
    ensures
        float_index(floats, surface) == i,
    decreases i,
{
    if i > 0 {
        assert(floats[0].window != surface);
        let t = floats.drop_first();
        assert forall|j: int| 0 <= j < i - 1 implies (#[trigger] t[j]).window != surface by {
            assert(t[j] == floats[j + 1]);
        }
        lemma_float_index(t, surface, i - 1);
    }
}

pub proof fn lemma_alert_index(alerts: Seq<Alert>, surface: u64, i: int)
    requires
        0 <= i <= alerts.len(),
        forall|j: int| 0 <= j < i ==> (#[trigger] alerts[j]).window != surface,
        i < alerts.len() ==> alerts[i].window == surface,
    ensures
        alert_index(alerts, surface) == i,
    decreases i,
{
    if i > 0 {
        assert(alerts[0].window != surface);
        let t = alerts.drop_first();
        assert forall|j: int| 0 <= j < i - 1 implies (#[trigger] t[j]).window != surface by {
            assert(t[j] == alerts[j + 1]);
        }
        lemma_alert_index(t, surface, i - 1);
    }
}

impl EntryView {
    /// Whether `surface` is one of this tab's Floating Windows or Alerts.
    pub open spec fn nests(self, surface: u64) -> bool {
        float_index(self.floats, surface) < self.floats.len() || alert_index(self.alerts, surface)
            < self.alerts.len()
    }

    /// The tab once the first Floating Window or else Alert that shows
    /// `surface` is taken out.
    pub open spec fn without_nested(self, surface: u64) -> EntryView {
        let f = float_index(self.floats, surface);
        let a = alert_index(self.alerts, surface);
        if f < self.floats.len() {
            EntryView { floats: self.floats.remove(f), ..self }
        } else if a < self.alerts.len() {
            EntryView { alerts: self.alerts.remove(a), ..self }
        } else {
            self
        }
    }
}

impl MainWindowEntry {
    pub fn new(window: u64, foreign_handle: u64) -> (r: Self)
        ensures
            r@ == (EntryView {
                window,
                foreign_handle,
                floats: Seq::empty(),
                alerts: Seq::empty(),
            }),
    {
        MainWindowEntry {
            window,
            foreign_handle,
            floating_windows: Vec::new(),
            alerts: Vec::new(),
        }
    }

    pub fn matches(&self, surface: u64) -> (r: bool)
        ensures
            r == (self@.window == surface),
    {
        self.window == surface
    }

    pub fn float_position(&self, surface: u64) -> (r: Option<usize>)
        ensures
            match r {
                Some(i) => i == float_index(self@.floats, surface) && i < self@.floats.len(),
                None => float_index(self@.floats, surface) == self@.floats.len(),
            },
    {
        for i in 0..self.floating_windows.len()
            invariant
                forall|j: int| 0 <= j < i ==> (#[trigger] self@.floats[j]).window != surface,
        {
            if self.floating_windows[i].window == surface {
                proof {
                    lemma_float_index(self@.floats, surface, i as int);
                }
                return Some(i);
            }
        }
        proof {
            lemma_float_index(self@.floats, surface, self@.floats.len() as int);
        }
        None
    }

    pub fn alert_position(&self, surface: u64) -> (r: Option<usize>)
        ensures
            match r {
                Some(i) => i == alert_index(self@.alerts, surface) && i < self@.alerts.len(),
                None => alert_index(self@.alerts, surface) == self@.alerts.len(),
            },
    {
        for i in 0..self.alerts.len()
            invariant
                forall|j: int| 0 <= j < i ==> (#[trigger] self@.alerts[j]).window != surface,
        {
            if self.alerts[i].window == surface {
                proof {
                    lemma_alert_index(self@.alerts, surface, i as int);
                }
                return Some(i);
            }
        }
        proof {
            lemma_alert_index(self@.alerts, surface, self@.alerts.len() as int);
        }
        None
    }

    /// Takes the Floating Window or Alert that shows `surface` out of this
    /// tab. Returns whether there was one.
    pub fn take_nested(&mut self, surface: u64) -> (r: bool)
        ensures
            r == old(self)@.nests(surface),
            final(self)@ == old(self)@.without_nested(surface),
    {
        match self.float_position(surface) {
            Some(i) => {
                self.floating_windows.remove(i);
                return true;
            },
            None => {},
        }
        match self.alert_position(surface) {
            Some(i) => {
                self.alerts.remove(i);
                true
            },
            None => false,
        }
    }
}

/// Taking a window out of a tab takes out one place, of the Floating Windows if
/// it is among them and else of the Alerts; the others stay in their order, and
/// the tab's own window stays.
pub proof fn law_taking_a_window_out(entry: EntryView, surface: u64, i: int)
    requires
        0 <= i,
    ensures
        ({
            let out = entry.without_nested(surface);
            let none_before = |n: int|
                forall|k: int| 0 <= k < n ==> (#[trigger] entry.floats[k]).window != surface;
            &&& out.window == entry.window && out.foreign_handle == entry.foreign_handle
            &&& i < entry.floats.len() && entry.floats[i].window == surface && none_before(i) ==> {
                &&& out.floats == entry.floats.take(i) + entry.floats.skip(i + 1)
                &&& out.alerts == entry.alerts
                &&& entry.nests(surface)
            }
            &&& i < entry.alerts.len() && entry.alerts[i].window == surface && none_before(
                entry.floats.len() as int,
            ) && (forall|k: int| 0 <= k < i ==> (#[trigger] entry.alerts[k]).window != surface)
                ==> {
                &&& out.floats == entry.floats
                &&& out.alerts == entry.alerts.take(i) + entry.alerts.skip(i + 1)
                &&& entry.nests(surface)
            }
            &&& none_before(entry.floats.len() as int) && (forall|k: int|
                0 <= k < entry.alerts.len() ==> (#[trigger] entry.alerts[k]).window != surface)
                ==> out == entry && !entry.nests(surface)
        }),
{
    let floats = entry.floats.len() as int;
    let alerts = entry.alerts.len() as int;
    if forall|k: int| 0 <= k < floats ==> (#[trigger] entry.floats[k]).window != surface {
        lemma_float_index(entry.floats, surface, floats);
    }
    if forall|k: int| 0 <= k < alerts ==> (#[trigger] entry.alerts[k]).window != surface {
        lemma_alert_index(entry.alerts, surface, alerts);
    }
    if i < floats && entry.floats[i].window == surface && forall|k: int|
        0 <= k < i ==> (#[trigger] entry.floats[k]).window != surface {
        lemma_float_index(entry.floats, surface, i);
    }
    if i < alerts && entry.alerts[i].window == surface && forall|k: int|
        0 <= k < i ==> (#[trigger] entry.alerts[k]).window != surface {
        lemma_alert_index(entry.alerts, surface, i);
    }
    if i < floats {
        assert(entry.floats.remove(i) =~= entry.floats.take(i) + entry.floats.skip(i + 1));
    }
    if i < alerts {
        assert(entry.alerts.remove(i) =~= entry.alerts.take(i) + entry.alerts.skip(i + 1));
    }
}

proof fn lemma_nested_there(floats: Seq<FloatingWindow>, alerts: Seq<Alert>, surface: u64, k: int)
    requires
        0 <= k,
    ensures
        k < floats.len() && floats[k].window == surface ==> float_index(floats, surface)
            < floats.len(),
        k < alerts.len() && alerts[k].window == surface ==> alert_index(alerts, surface)
            < alerts.len(),
    decreases k,
{
    if k > 0 {
        lemma_nested_there(
            if floats.len() > 0 {
                floats.drop_first()
            } else {
                floats
            },
            if alerts.len() > 0 {
                alerts.drop_first()
            } else {
                alerts
            },
            surface,
            k - 1,
        );
    }
}

/// A tab nests exactly its Floating Windows and its Alerts.
pub proof fn law_what_a_tab_nests(entry: EntryView, surface: u64)
    ensures
        entry.nests(surface) <==> (exists|k: int|
            0 <= k < entry.floats.len() && (#[trigger] entry.floats[k]).window == surface) || (
        exists|k: int|
            0 <= k < entry.alerts.len() && (#[trigger] entry.alerts[k]).window == surface),
{
    if exists|k: int| 0 <= k < entry.floats.len() && (#[trigger] entry.floats[k]).window == surface {
        let k = choose|k: int|
            0 <= k < entry.floats.len() && (#[trigger] entry.floats[k]).window == surface;
        lemma_nested_there(entry.floats, entry.alerts, surface, k);
    } else {
        lemma_float_index(entry.floats, surface, entry.floats.len() as int);
    }
    if exists|k: int| 0 <= k < entry.alerts.len() && (#[trigger] entry.alerts[k]).window == surface {
        let k = choose|k: int|
            0 <= k < entry.alerts.len() && (#[trigger] entry.alerts[k]).window == surface;
        lemma_nested_there(entry.floats, entry.alerts, surface, k);
    } else {
        lemma_alert_index(entry.alerts, surface, entry.alerts.len() as int);
    }
}

} // verus!
