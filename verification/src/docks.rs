//! The handles of docked Floating Windows along the edges of an output, and
//! dragging a window off its handle.
use vstd::prelude::*;

use crate::console_hut::{mapped, ConsoleHut, HutView};
use crate::grabs::{settle_floating, settled_from};
use crate::graph_stack::GraphStack;
use crate::main_window::{Dock, Edge, FloatingWindow};
use crate::stack_model::{first_console, StackView};
use crate::chrome::truncate_with_ellipsis;
use crate::tree::acyclic;

verus! {

/// Sizes at scale 1.
pub const HANDLE_W: i32 = 140;

pub const HANDLE_H: i32 = 28;

pub const HANDLE_GAP: i32 = 4;

pub const EDGE_MARGIN: i32 = 40;

/// The longest title a handle shows, in characters.
pub const MAX_TITLE_CHARS: usize = 18;

/// The sizes that handles are laid out with, already scaled to the output.
#[derive(Debug, Clone, Copy)]
pub struct HandleMetrics {
    pub handle: (i32, i32),
    pub gap: i32,
    pub margin: i32,
}

/// One handle on screen.
#[derive(Debug, Clone, Copy)]
pub struct Handle {
    pub surface: u64,
    /// `x, y, width, height`.
    pub rect: (i32, i32, i32, i32),
}

/// A window being dragged off its handle.
#[derive(Debug, Clone, Copy)]
pub struct DockDrag {
    pub surface: u64,
    /// Where the pointer was pressed, as the bits of two binary64 numbers.
    pub start: (u64, u64),
    /// Whether the window has come off its handle.
    pub detached: bool,
    pub hut_id: u64,
    /// The output it is on, by number.
    pub output: u64,
}

/// What is being dragged, if anything.
pub struct Drags {
    pub dock_drag: Option<DockDrag>,
    pub dragging_hut_id: Option<u64>,
}

/// The start of handle `step` on `edge`.
pub open spec fn handle_start(
    edge: Edge,
    step: int,
    output_size: (i32, i32),
    handle_size: (i32, i32),
    gap: i32,
    margin: i32,
) -> (int, int) {
    match edge {
        Edge::Left => (0, margin + step * (handle_size.1 + gap)),
        Edge::Right => (output_size.0 - handle_size.0, margin + step * (handle_size.1 + gap)),
        Edge::Top => (margin + step * (handle_size.0 + gap), 0),
        Edge::Bottom => (margin + step * (handle_size.0 + gap), output_size.1 - handle_size.1),
    }
}

/// Whether handle `step` on `edge` and everything computed on the way to it
/// can be represented.
pub open spec fn handle_fits(
    edge: Edge,
    step: int,
    output_size: (i32, i32),
    handle_size: (i32, i32),
    gap: i32,
    margin: i32,
) -> bool {
    let p = handle_start(edge, step, output_size, handle_size, gap, margin);
    let unit = match edge {
        Edge::Left | Edge::Right => handle_size.1 + gap,
        Edge::Top | Edge::Bottom => handle_size.0 + gap,
    };
    &&& i32::MIN <= step <= i32::MAX
    &&& i32::MIN <= unit <= i32::MAX
    &&& i32::MIN <= step * unit <= i32::MAX
    &&& i32::MIN <= p.0 <= i32::MAX
    &&& i32::MIN <= p.1 <= i32::MAX
}

/// Where the handle number `step` on `edge` starts. Handles sit flush against
/// their edge, one after the other from the margin on.
pub fn handle_position(
    edge: Edge,
    step: i32,
    output_size: (i32, i32),
    handle_size: (i32, i32),
    gap: i32,
    margin: i32,
) -> (r: (i32, i32))
    requires
        handle_fits(edge, step as int, output_size, handle_size, gap, margin),
    ensures
        ({
            let p = handle_start(edge, step as int, output_size, handle_size, gap, margin);
            r == (p.0 as i32, p.1 as i32)
        }),
{
    match edge {
        Edge::Left => (0, margin + step * (handle_size.1 + gap)),
        Edge::Right => (output_size.0 - handle_size.0, margin + step * (handle_size.1 + gap)),
        Edge::Top => (margin + step * (handle_size.0 + gap), 0),
        Edge::Bottom => (margin + step * (handle_size.0 + gap), output_size.1 - handle_size.1),
    }
}

/// Handles on one edge never overlap: with no negative size and gap, a later
/// one begins at least a gap beyond the end of each one before it, along the
/// edge.
pub proof fn law_handles_do_not_overlap(
    edge: Edge,
    i: int,
    j: int,
    output_size: (i32, i32),
    handle_size: (i32, i32),
    gap: i32,
    margin: i32,
)
    requires
        i < j,
        0 <= handle_size.0,
        0 <= handle_size.1,
        0 <= gap,
    ensures
        ({
            let p = handle_start(edge, i, output_size, handle_size, gap, margin);
            let q = handle_start(edge, j, output_size, handle_size, gap, margin);
            match edge {
                Edge::Left | Edge::Right => p.0 == q.0 && p.1 + handle_size.1 + gap <= q.1,
                Edge::Top | Edge::Bottom => p.1 == q.1 && p.0 + handle_size.0 + gap <= q.0,
            }
        }),
{
    let unit = match edge {
        Edge::Left | Edge::Right => handle_size.1 + gap,
        Edge::Top | Edge::Bottom => handle_size.0 + gap,
    };
    assert(i * unit + unit <= j * unit) by (nonlinear_arith)
        requires
            i < j,
            0 <= unit,
    ;
}

/// The windows docked at `edge`, in order.
pub open spec fn docked_at(floats: Seq<FloatingWindow>, edge: Edge) -> Seq<u64>
    decreases floats.len(),
{
    if floats.len() == 0 {
        Seq::empty()
    } else {
        let before = docked_at(floats.drop_last(), edge);
        if floats.last().dock == Dock::Docked(edge) {
            before.push(floats.last().window)
        } else {
            before
        }
    }
}

/// The handles of these windows along `edge`.
pub open spec fn handles_along(
    edge: Edge,
    windows: Seq<u64>,
    output_size: (i32, i32),
    m: HandleMetrics,
) -> Seq<Handle> {
    Seq::new(
        windows.len(),
        |n: int|
            {
                let p = handle_start(edge, n, output_size, m.handle, m.gap, m.margin);
                Handle {
                    surface: windows[n],
                    rect: (p.0 as i32, p.1 as i32, m.handle.0, m.handle.1),
                }
            },
    )
}

/// The handles of a tab: those on the left, then right, top and bottom.
pub open spec fn tab_handles(
    floats: Seq<FloatingWindow>,
    output_size: (i32, i32),
    m: HandleMetrics,
) -> Seq<Handle> {
    handles_along(Edge::Left, docked_at(floats, Edge::Left), output_size, m) + handles_along(
        Edge::Right,
        docked_at(floats, Edge::Right),
        output_size,
        m,
    ) + handles_along(Edge::Top, docked_at(floats, Edge::Top), output_size, m) + handles_along(
        Edge::Bottom,
        docked_at(floats, Edge::Bottom),
        output_size,
        m,
    )
}

/// The handles that a console shows: those of its active Main Window, none
/// where it shows its terminal.
pub open spec fn hut_handles(hut: HutView, output_size: (i32, i32), m: HandleMetrics) -> Seq<
    Handle,
> {
    if !hut.showing_terminal && hut.active < hut.windows.len() {
        tab_handles(hut.windows[hut.active as int].floats, output_size, m)
    } else {
        Seq::empty()
    }
}

/// Whether the handles of so many windows can be laid out on every edge.
pub open spec fn layout_fits(count: nat, output_size: (i32, i32), m: HandleMetrics) -> bool {
    forall|edge: Edge, n: int|
        0 <= n < count ==> #[trigger] handle_fits(edge, n, output_size, m.handle, m.gap, m.margin)
}

/// Whether the handles of a console can be laid out.
pub open spec fn hut_layout_fits(hut: HutView, output_size: (i32, i32), m: HandleMetrics) -> bool {
    !hut.showing_terminal && hut.active < hut.windows.len() ==> layout_fits(
        hut.windows[hut.active as int].floats.len(),
        output_size,
        m,
    )
}

proof fn lemma_docked_len(floats: Seq<FloatingWindow>, edge: Edge)
    ensures
        docked_at(floats, edge).len() <= floats.len(),
    decreases floats.len(),
{
    if floats.len() > 0 {
        lemma_docked_len(floats.drop_last(), edge);
    }
}

fn is_docked_at(dock: Dock, edge: Edge) -> (r: bool)
    ensures
        r == (dock == Dock::Docked(edge)),
{
    match dock {
        Dock::Docked(e) => e == edge,
        Dock::Floating(_) => false,
    }
}

fn push_handles(
    out: &mut Vec<Handle>,
    floats: &Vec<FloatingWindow>,
    edge: Edge,
    output_size: (i32, i32),
    m: HandleMetrics,
)
    requires
        layout_fits(floats@.len(), output_size, m),
    ensures
        final(out)@ == old(out)@ + handles_along(edge, docked_at(floats@, edge), output_size, m),
{
    let mut n: usize = 0;
    let ghost start = out@;
    assert(floats@.take(0) =~= Seq::empty());
    assert(out@ =~= start + handles_along(edge, docked_at(floats@.take(0), edge), output_size, m));
    for i in 0..floats.len()
        invariant
            layout_fits(floats@.len(), output_size, m),
            n == docked_at(floats@.take(i as int), edge).len(),
            n <= i,
            out@ == start + handles_along(
                edge,
                docked_at(floats@.take(i as int), edge),
                output_size,
                m,
            ),
    {
        let ghost before = docked_at(floats@.take(i as int), edge);
        proof {
            let t = floats@.take(i + 1);
            assert(t.drop_last() =~= floats@.take(i as int));
            assert(t.last() == floats@[i as int]);
        }
        if is_docked_at(floats[i].dock, edge) {
            assert(handle_fits(edge, n as int, output_size, m.handle, m.gap, m.margin));
            let p = handle_position(edge, n as i32, output_size, m.handle, m.gap, m.margin);
            let h = Handle {
                surface: floats[i].window,
                rect: (p.0, p.1, m.handle.0, m.handle.1),
            };
            out.push(h);
            n = n + 1;
            proof {
                let after = before.push(floats@[i as int].window);
                assert(handles_along(edge, after, output_size, m) =~= handles_along(
                    edge,
                    before,
                    output_size,
                    m,
                ).push(h));
                assert(out@ =~= start + handles_along(edge, after, output_size, m));
            }
        }
    }
    assert(floats@.take(floats@.len() as int) =~= floats@);
}

/// The handles of the docked windows of the console's active tab: along the
/// left edge first, then right, top and bottom, each stacked in order. There
/// are none while the terminal is showing.
pub fn handle_layout(hut: &ConsoleHut, output_size: (i32, i32), m: HandleMetrics) -> (r: Vec<
    Handle,
>)
    requires
        hut_layout_fits(hut@, output_size, m),
    ensures
        r@ == hut_handles(hut@, output_size, m),
        hut@.showing_terminal ==> r@ == Seq::<Handle>::empty(),
{
    let mut out: Vec<Handle> = Vec::new();
    if hut.showing_terminal() {
        return out;
    }
    match hut.active_main_window_entry() {
        None => {},
        Some(entry) => {
            let floats = &entry.floating_windows;
            push_handles(&mut out, floats, Edge::Left, output_size, m);
            push_handles(&mut out, floats, Edge::Right, output_size, m);
            push_handles(&mut out, floats, Edge::Top, output_size, m);
            push_handles(&mut out, floats, Edge::Bottom, output_size, m);
            assert(out@ =~= tab_handles(floats@, output_size, m));
        },
    }
    out
}

/// Whether `rect` contains the point.
pub open spec fn rect_contains(rect: (i32, i32, i32, i32), point: (i32, i32)) -> bool {
    rect.0 <= point.0 < rect.0 + rect.2 && rect.1 <= point.1 < rect.1 + rect.3
}

/// The window of the first of these handles that contains the point.
pub open spec fn handle_hit(handles: Seq<Handle>, point: (i32, i32)) -> Option<u64>
    decreases handles.len(),
{
    if handles.len() == 0 {
        None
    } else if rect_contains(handles[0].rect, point) {
        Some(handles[0].surface)
    } else {
        handle_hit(handles.drop_first(), point)
    }
}

/// The window whose handle is at this point, if any.
pub fn hit_test(handles: &Vec<Handle>, point: (i32, i32)) -> (r: Option<u64>)
    ensures
        r == handle_hit(handles@, point),
{
    assert(handles@.skip(0) =~= handles@);
    for i in 0..handles.len()
        invariant
            handle_hit(handles@, point) == handle_hit(handles@.skip(i as int), point),
    {
        assert(handles@.skip(i as int).drop_first() =~= handles@.skip(i + 1));
        let r = handles[i].rect;
        if r.0 <= point.0 && (point.0 as i64) < r.0 as i64 + r.2 as i64 && r.1 <= point.1 && (
        point.1 as i64) < r.1 as i64 + r.3 as i64 {
            return Some(handles[i].surface);
        }
    }
    None
}

/// A title as a handle shows it: cut to the limit, with an ellipsis in the
/// last place where something was cut off.
pub open spec fn short_title(title: Seq<char>) -> Seq<char> {
    if title.len() > 18 {
        title.take(17).push('\u{2026}')
    } else {
        title
    }
}

/// The title cut to what a handle has room for.
pub fn truncate(title: &str) -> (r: String)
    ensures
        r@ == short_title(title@),
{
    truncate_with_ellipsis(title, MAX_TITLE_CHARS)
}

/// A shown title never has more characters than the limit, and a title
/// within the limit is shown as it is.
pub proof fn law_short_title_fits(title: Seq<char>)
    ensures
        short_title(title).len() <= MAX_TITLE_CHARS,
        title.len() <= MAX_TITLE_CHARS ==> short_title(title) == title,
{
}

/// How one handle is drawn: its label, where it has one, over its background.
pub struct HandleDraw {
    pub surface: u64,
    pub rect: (i32, i32, i32, i32),
    pub title: String,
    /// Whether the label has to be rendered anew.
    pub stale: bool,
    /// Where the label starts.
    pub text_at: (i32, i32),
}

/// Whether `d` is what to draw for a handle.
pub open spec fn draws_handle(
    d: HandleDraw,
    handle: Handle,
    title: Seq<char>,
    label: Option<String>,
    text_inset: i32,
) -> bool {
    &&& d.surface == handle.surface
    &&& d.rect == handle.rect
    &&& d.title@ == short_title(title)
    &&& d.stale == !(label is Some && label->0@ == short_title(title))
    &&& d.text_at.0 == handle.rect.0 + text_inset
    &&& d.text_at.1 == handle.rect.1 + text_inset
}

/// What to draw for each handle of the console's active tab. `titles` are the
/// windows' titles, in the order of [`handle_layout`]; `labels` the titles that
/// the cached labels were rendered for, where there are any.
pub fn build(
    hut: &ConsoleHut,
    output_size: (i32, i32),
    titles: &Vec<String>,
    labels: &Vec<Option<String>>,
    m: HandleMetrics,
    text_inset: i32,
) -> (r: Vec<HandleDraw>)
    requires
        hut_layout_fits(hut@, output_size, m),
        titles@.len() == hut_handles(hut@, output_size, m).len(),
        labels@.len() == hut_handles(hut@, output_size, m).len(),
        ({
            let handles = hut_handles(hut@, output_size, m);
            forall|i: int|
                0 <= i < handles.len() ==> i32::MIN <= (#[trigger] handles[i]).rect.0 + text_inset
                    <= i32::MAX && i32::MIN <= handles[i].rect.1 + text_inset <= i32::MAX
        }),
    ensures
        r@.len() == hut_handles(hut@, output_size, m).len(),
        forall|i: int|
            0 <= i < r@.len() ==> draws_handle(
                #[trigger] r@[i],
                hut_handles(hut@, output_size, m)[i],
                titles@[i]@,
                labels@[i],
                text_inset,
            ),
{
    let mut out: Vec<HandleDraw> = Vec::new();
    let handles = handle_layout(hut, output_size, m);
    for i in 0..handles.len()
        invariant
            handles@ == hut_handles(hut@, output_size, m),
            titles@.len() == handles@.len(),
            labels@.len() == handles@.len(),
            forall|j: int|
                0 <= j < handles@.len() ==> i32::MIN <= (#[trigger] handles@[j]).rect.0
                    + text_inset <= i32::MAX && i32::MIN <= handles@[j].rect.1 + text_inset
                    <= i32::MAX,
            out@.len() == i,
            forall|j: int|
                0 <= j < i ==> draws_handle(
                    #[trigger] out@[j],
                    handles@[j],
                    titles@[j]@,
                    labels@[j],
                    text_inset,
                ),
    {
        let title = truncate(titles[i].as_str());
        let stale = match &labels[i] {
            Some(label) => !(*label == title),
            None => true,
        };
        let rect = handles[i].rect;
        out.push(
            HandleDraw {
                surface: handles[i].surface,
                rect,
                title,
                stale,
                text_at: (rect.0 + text_inset, rect.1 + text_inset),
            },
        );
    }
    out
}

/// The pointer was pressed at `point`, exactly `pos`. If that is on a handle
/// of the focused console, its window starts being dragged. Returns whether
/// it does.
pub fn start_drag(
    drags: &mut Drags,
    stack: &GraphStack,
    point: (i32, i32),
    pos: (u64, u64),
    output_size: (i32, i32),
    m: HandleMetrics,
) -> (r: bool)
    requires
        acyclic(stack@.kids),
        stack@.focused < stack@.slots.len(),
        stack@.out().current < stack@.out().huts.len(),
        stack@.focus_lands(stack@.out().huts[stack@.out().current as int]),
        hut_layout_fits(
            stack@.focused_console(stack@.out().huts[stack@.out().current as int]),
            output_size,
            m,
        ),
    ensures
        ({
            let hut = stack@.focused_console(stack@.out().huts[stack@.out().current as int]);
            match handle_hit(hut_handles(hut, output_size, m), point) {
                None => !r && *final(drags) == *old(drags),
                Some(surface) => {
                    &&& r
                    &&& final(drags).dragging_hut_id == Some(hut.id)
                    &&& final(drags).dock_drag == Some(
                        DockDrag {
                            surface,
                            start: pos,
                            detached: false,
                            hut_id: hut.id,
                            output: stack@.out().output,
                        },
                    )
                },
            }
        }),
{
    let hut = stack.focused();
    let handles = handle_layout(hut, output_size, m);
    match hit_test(&handles, point) {
        None => false,
        Some(surface) => {
            let hut_id: u64 = hut.id();
            let output: u64 = stack.focused_output();
            drags.dragging_hut_id = Some(hut_id);
            drags.dock_drag = Some(
                DockDrag { surface, start: pos, detached: false, hut_id, output },
            );
            true
        },
    }
}

/// The slot of output `output`; the number of slots if it has none.
pub open spec fn slot_of(s: StackView, output: u64, i: int) -> int
    decreases s.slots.len() - i,
{
    if i >= s.slots.len() || s.slots[i].output == output {
        i
    } else {
        slot_of(s, output, i + 1)
    }
}

proof fn lemma_slot_of(s: StackView, output: u64, i: int, found: int)
    requires
        0 <= i <= found <= s.slots.len(),
        forall|j: int| i <= j < found ==> (#[trigger] s.slots[j]).output != output,
        found < s.slots.len() ==> s.slots[found].output == output,
    ensures
        slot_of(s, output, i) == found,
    decreases found - i,
{
    if i < found {
        assert(s.slots[i].output != output);
        lemma_slot_of(s, output, i + 1, found);
    }
}

/// The output that a drag is on: the one it was on, or else the one its
/// console is on now.
pub open spec fn drag_slot(s: StackView, drag: DockDrag) -> int {
    if slot_of(s, drag.output, 0) < s.slots.len() {
        slot_of(s, drag.output, 0)
    } else {
        s.output_of(drag.hut_id, 0)
    }
}

/// Which output the drag is on, if anything is being dragged and its output
/// or its console is still there. The drag follows its console to another
/// output.
pub fn drag_output(drags: &mut Drags, stack: &GraphStack) -> (r: Option<usize>)
    requires
        acyclic(stack@.kids),
    ensures
        final(drags).dragging_hut_id == old(drags).dragging_hut_id,
        match old(drags).dock_drag {
            None => r is None && *final(drags) == *old(drags),
            Some(drag) => {
                let i = drag_slot(stack@, drag);
                if i < stack@.slots.len() {
                    &&& r == Some(i as usize)
                    &&& final(drags).dock_drag == Some(
                        DockDrag { output: stack@.slots[i].output, ..drag },
                    )
                } else {
                    r is None && *final(drags) == *old(drags)
                }
            },
        },
{
    match drags.dock_drag {
        None => None,
        Some(drag) => {
            let by_output = stack.output_index_for(drag.output);
            proof {
                stack@.lemma_output_of_bounds(drag.hut_id, 0);
                match by_output {
                    Some(i) => lemma_slot_of(stack@, drag.output, 0, i as int),
                    None => lemma_slot_of(stack@, drag.output, 0, stack@.slots.len() as int),
                }
            }
            let index = match by_output {
                Some(i) => Some(i),
                None => stack.output_index_for_hut(drag.hut_id),
            };
            match index {
                None => None,
                Some(i) => {
                    let n: usize = stack.output_count();
                    assert(i < n);
                    drags.dock_drag = Some(DockDrag { output: stack.output_at(i), ..drag });
                    Some(i)
                },
            }
        },
    }
}

/// The node of console `hut`, looked for on output `i` first.
pub open spec fn hinted_node(s: StackView, i: usize, hut: u64) -> Option<crate::graph::NodeId> {
    let hinted = if i < s.slots.len() {
        first_console(s.nodes, s.ids_on(i as int), hut)
    } else {
        None
    };
    if hinted is Some {
        hinted
    } else {
        first_console(s.nodes, s.all_ids(), hut)
    }
}

/// The pointer moved while a window is being dragged off its handle.
///
/// `output_index` is where [`drag_output`] found the drag, `position` the
/// pointer's position there, `far` whether it has moved further than a click
/// would, and `area_origin` the start of that output's usable area.
///
/// The window comes off its handle once the pointer has moved far enough;
/// from then on it follows the pointer.
pub fn advance_drag(
    drags: &mut Drags,
    stack: &mut GraphStack,
    output_index: usize,
    position: (i32, i32),
    far: bool,
    area_origin: (i32, i32),
)
    requires
        acyclic(old(stack)@.kids),
    ensures
        final(stack).same_frame(*old(stack)),
        final(drags).dragging_hut_id == old(drags).dragging_hut_id,
        ({
            let before = old(stack)@;
            let unmoved = *final(drags) == *old(drags) && final(stack)@ == before;
            match old(drags).dock_drag {
                None => unmoved,
                Some(drag) => {
                    match hinted_node(before, output_index, drag.hut_id) {
                        None => unmoved,
                        Some(node) => {
                            let hut = before.nodes[node]->Console_0;
                            if !drag.detached && !far {
                                unmoved
                            } else if !drag.detached {
                                let off = hut.with_dock(drag.surface, Dock::Floating(position));
                                &&& final(stack)@ == before.with_console(
                                    node,
                                    HutView { space: off.arranged(area_origin), ..off },
                                )
                                &&& final(drags).dock_drag == Some(
                                    DockDrag { detached: true, ..drag },
                                )
                            } else if crate::console_hut::float_owner(hut.windows, drag.surface)
                                < hut.windows.len() {
                                &&& *final(drags) == *old(drags)
                                &&& final(stack)@ == before.with_console(
                                    node,
                                    HutView {
                                        space: mapped(hut.space, drag.surface, position),
                                        ..hut
                                    },
                                )
                            } else {
                                &&& *final(drags) == *old(drags)
                                &&& final(stack)@ == before.with_console(node, hut)
                            }
                        },
                    }
                },
            }
        }),
{
    let drag = match drags.dock_drag {
        None => {
            return ;
        },
        Some(drag) => drag,
    };
    if !drag.detached && !far {
        return ;
    }
    match stack.find_mut_for_hint(output_index, drag.hut_id) {
        None => {},
        Some(hut) => {
            if !drag.detached {
                hut.set_dock(drag.surface, Dock::Floating(position));
                hut.sync_main_window_space(area_origin);
                drags.dock_drag = Some(DockDrag { detached: true, ..drag });
            } else if hut.has_floating_window(drag.surface) {
                hut.map_live(drag.surface, position);
            }
        },
    }
}

/// The pointer was let go: whatever was being dragged off its handle stays
/// where it is, or docks again. Returns whether anything has to be drawn
/// anew.
///
/// `size` is the window's size, `None` if it is gone; `output_sizes` and
/// `area_origins` are each output's size and the start of its usable area.
pub fn finish_drag(
    drags: &mut Drags,
    stack: &mut GraphStack,
    size: Option<(i32, i32)>,
    output_sizes: &Vec<(i32, i32)>,
    area_origins: &Vec<(i32, i32)>,
) -> (r: bool)
    requires
        acyclic(old(stack)@.kids),
        output_sizes@.len() == old(stack)@.slots.len(),
        area_origins@.len() == old(stack)@.slots.len(),
    ensures
        final(stack).same_frame(*old(stack)),
        final(drags).dock_drag is None,
        old(drags).dock_drag is None ==> final(drags).dragging_hut_id == old(
            drags,
        ).dragging_hut_id,
        old(drags).dock_drag is Some ==> final(drags).dragging_hut_id is None,
        match old(drags).dock_drag {
            Some(drag) => if drag.detached && size is Some {
                settled_from(
                    old(stack)@,
                    final(stack)@,
                    r,
                    drag.hut_id,
                    drag.surface,
                    size->0,
                    output_sizes@,
                    area_origins@,
                )
            } else {
                !r && final(stack)@ == old(stack)@
            },
            None => !r && final(stack)@ == old(stack)@,
        },
{
    let drag = match drags.dock_drag {
        None => {
            return false;
        },
        Some(drag) => drag,
    };
    drags.dock_drag = None;
    drags.dragging_hut_id = None;
    if !drag.detached {
        return false;
    }
    match size {
        None => false,
        Some(size) => settle_floating(
            stack,
            drag.hut_id,
            drag.surface,
            size,
            output_sizes,
            area_origins,
        ),
    }
}

/// Handles sit flush against their edge, the first one a margin along it.
pub proof fn law_handles_sit_at_their_edge(
    edge: Edge,
    n: int,
    output_size: (i32, i32),
    handle_size: (i32, i32),
    gap: i32,
    margin: i32,
)
    ensures
        ({
            let p = handle_start(edge, n, output_size, handle_size, gap, margin);
            let first = handle_start(edge, 0, output_size, handle_size, gap, margin);
            let next = handle_start(edge, n + 1, output_size, handle_size, gap, margin);
            match edge {
                Edge::Left => p.0 == 0 && first.1 == margin && next.1 == p.1 + handle_size.1 + gap,
                Edge::Right => p.0 + handle_size.0 == output_size.0 && first.1 == margin && next.1
                    == p.1 + handle_size.1 + gap,
                Edge::Top => p.1 == 0 && first.0 == margin && next.0 == p.0 + handle_size.0 + gap,
                Edge::Bottom => p.1 + handle_size.1 == output_size.1 && first.0 == margin && next.0
                    == p.0 + handle_size.0 + gap,
            }
        }),
{
    let a = handle_size.0 + gap;
    let b = handle_size.1 + gap;
    assert((n + 1) * a == n * a + a && (n + 1) * b == n * b + b && 0 * a == 0 && 0 * b == 0)
        by (nonlinear_arith);
}

/// Every window that is docked at an edge is listed there, and no other one.
pub proof fn law_docked_windows_are_listed(floats: Seq<FloatingWindow>, edge: Edge, window: u64)
    ensures
        docked_at(floats, edge).contains(window) <==> exists|i: int|
            0 <= i < floats.len() && (#[trigger] floats[i]).window == window && floats[i].dock
                == Dock::Docked(edge),
        docked_at(floats, edge).len() <= floats.len(),
    decreases floats.len(),
{
    if floats.len() > 0 {
        let rest = floats.drop_last();
        let last = floats[floats.len() - 1];
        law_docked_windows_are_listed(rest, edge, window);
        let before = docked_at(rest, edge);
        let all = docked_at(floats, edge);
        if before.contains(window) {
            let k = choose|k: int| 0 <= k < before.len() && before[k] == window;
            assert(all[k] == window);
            let i = choose|i: int|
                0 <= i < rest.len() && (#[trigger] rest[i]).window == window && rest[i].dock
                    == Dock::Docked(edge);
            assert(floats[i] == rest[i]);
        }
        if last.dock == Dock::Docked(edge) {
            assert(all[before.len() as int] == last.window);
        }
        if exists|i: int|
            0 <= i < floats.len() && (#[trigger] floats[i]).window == window && floats[i].dock
                == Dock::Docked(edge) {
            let i = choose|i: int|
                0 <= i < floats.len() && (#[trigger] floats[i]).window == window && floats[i].dock
                    == Dock::Docked(edge);
            if i < rest.len() {
                assert(rest[i] == floats[i]);
            }
        }
        if all.contains(window) {
            let k = choose|k: int| 0 <= k < all.len() && all[k] == window;
            if k < before.len() {
                assert(before[k] == window);
            }
        }
    }
}

/// The windows docked at an edge keep their order: one more Floating Window
/// comes last, and just where it is docked there.
pub proof fn law_docked_windows_keep_their_order(
    floats: Seq<FloatingWindow>,
    edge: Edge,
    float: FloatingWindow,
)
    ensures
        float.dock == Dock::Docked(edge) ==> docked_at(floats.push(float), edge) == docked_at(
            floats,
            edge,
        ).push(float.window),
        float.dock != Dock::Docked(edge) ==> docked_at(floats.push(float), edge) == docked_at(
            floats,
            edge,
        ),
        docked_at(Seq::empty(), edge) == Seq::<u64>::empty(),
{
    assert(floats.push(float).drop_last() =~= floats);
}

/// The handles of a tab: for each edge in turn, left, right, top and bottom, one
/// for each window docked there, of the handles' size and at its place along
/// the edge.
pub proof fn law_handles_of_a_tab(
    floats: Seq<FloatingWindow>,
    output_size: (i32, i32),
    m: HandleMetrics,
    n: int,
)
    ensures
        ({
            let left = docked_at(floats, Edge::Left);
            let right = docked_at(floats, Edge::Right);
            let top = docked_at(floats, Edge::Top);
            let bottom = docked_at(floats, Edge::Bottom);
            let all = tab_handles(floats, output_size, m);
            let at = |edge: Edge|
                handle_start(edge, n, output_size, m.handle, m.gap, m.margin);
            &&& all.len() == left.len() + right.len() + top.len() + bottom.len()
            &&& 0 <= n < left.len() ==> all[n] == (Handle {
                surface: left[n],
                rect: (at(Edge::Left).0 as i32, at(Edge::Left).1 as i32, m.handle.0, m.handle.1),
            })
            &&& 0 <= n < right.len() ==> all[left.len() + n] == (Handle {
                surface: right[n],
                rect: (at(Edge::Right).0 as i32, at(Edge::Right).1 as i32, m.handle.0, m.handle.1),
            })
            &&& 0 <= n < top.len() ==> all[left.len() + right.len() + n] == (Handle {
                surface: top[n],
                rect: (at(Edge::Top).0 as i32, at(Edge::Top).1 as i32, m.handle.0, m.handle.1),
            })
            &&& 0 <= n < bottom.len() ==> all[left.len() + right.len() + top.len() + n] == (Handle {
                surface: bottom[n],
                rect: (at(Edge::Bottom).0 as i32, at(Edge::Bottom).1 as i32, m.handle.0, m.handle.1),
            })
        }),
{
}

/// A console shows the handles of its active Main Window, and none while its
/// terminal shows.
pub proof fn law_which_handles_show(hut: HutView, output_size: (i32, i32), m: HandleMetrics)
    ensures
        hut.showing_terminal ==> hut_handles(hut, output_size, m).len() == 0,
        hut.active >= hut.windows.len() ==> hut_handles(hut, output_size, m).len() == 0,
        !hut.showing_terminal && hut.active < hut.windows.len() ==> hut_handles(hut, output_size, m)
            == tab_handles(hut.windows[hut.active as int].floats, output_size, m),
{
}

/// A handle is hit exactly if the point lies in its rectangle, whose right and
/// lower sides do not count, and in that of none before it.
pub proof fn law_hit_handle_is_under_the_point(handles: Seq<Handle>, point: (i32, i32))
    ensures
        match handle_hit(handles, point) {
            Some(surface) => exists|i: int|
                0 <= i < handles.len() && (#[trigger] handles[i]).surface == surface
                    && handles[i].rect.0 <= point.0 && point.0 < handles[i].rect.0
                    + handles[i].rect.2 && handles[i].rect.1 <= point.1 && point.1
                    < handles[i].rect.1 + handles[i].rect.3 && forall|k: int|
                    0 <= k < i ==> !rect_contains((#[trigger] handles[k]).rect, point),
            None => forall|i: int|
                0 <= i < handles.len() ==> point.0 < (#[trigger] handles[i]).rect.0 || point.0
                    >= handles[i].rect.0 + handles[i].rect.2 || point.1 < handles[i].rect.1
                    || point.1 >= handles[i].rect.1 + handles[i].rect.3,
        },
    decreases handles.len(),
{
    if handles.len() > 0 {
        let t = handles.drop_first();
        if rect_contains(handles[0].rect, point) {
            assert(handles[0].surface == handle_hit(handles, point)->0);
        } else {
            law_hit_handle_is_under_the_point(t, point);
            match handle_hit(t, point) {
                Some(surface) => {
                    let i = choose|i: int|
                        0 <= i < t.len() && (#[trigger] t[i]).surface == surface && t[i].rect.0
                            <= point.0 && point.0 < t[i].rect.0 + t[i].rect.2 && t[i].rect.1
                            <= point.1 && point.1 < t[i].rect.1 + t[i].rect.3 && forall|k: int|
                            0 <= k < i ==> !rect_contains((#[trigger] t[k]).rect, point);
                    assert(handles[i + 1] == t[i]);
                    assert forall|k: int| 0 <= k < i + 1 implies !rect_contains(
                        (#[trigger] handles[k]).rect,
                        point,
                    ) by {
                        if k > 0 {
                            assert(t[k - 1] == handles[k]);
                        }
                    }
                },
                None => {
                    assert forall|i: int| 0 <= i < handles.len() implies point.0 < (
                    #[trigger] handles[i]).rect.0 || point.0 >= handles[i].rect.0
                        + handles[i].rect.2 || point.1 < handles[i].rect.1 || point.1
                        >= handles[i].rect.1 + handles[i].rect.3 by {
                        if i > 0 {
                            assert(t[i - 1] == handles[i]);
                        }
                    }
                },
            }
        }
    }
}

/// A title that is too long keeps its first seventeen characters, and an
/// ellipsis takes the eighteenth place.
pub proof fn law_short_title_keeps_the_beginning(title: Seq<char>, i: int)
    requires
        title.len() > 18,
        0 <= i < 17,
    ensures
        short_title(title).len() == 18,
        short_title(title)[i] == title[i],
        short_title(title)[17] == '\u{2026}',
        MAX_TITLE_CHARS == 18,
{
}

/// A handle is drawn at its place, its label a little in from its corner, and
/// the label is rendered anew exactly where the cached one has another text.
pub proof fn law_drawn_handle(
    d: HandleDraw,
    handle: Handle,
    title: Seq<char>,
    label: Option<String>,
    text_inset: i32,
)
    requires
        draws_handle(d, handle, title, label, text_inset),
    ensures
        d.surface == handle.surface,
        d.rect == handle.rect,
        d.text_at.0 == handle.rect.0 + text_inset,
        d.text_at.1 == handle.rect.1 + text_inset,
        title.len() <= 18 ==> d.title@ == title,
        !d.stale <==> label is Some && label->0@ == d.title@,
{
}

/// The slot found for an output is the first that has it.
pub proof fn law_slot_of_an_output(s: StackView, output: u64, i: int)
    requires
        0 <= i <= s.slots.len(),
    ensures
        i <= slot_of(s, output, i) <= s.slots.len(),
        slot_of(s, output, i) < s.slots.len() ==> s.slots[slot_of(s, output, i)].output == output,
        forall|j: int|
            i <= j < slot_of(s, output, i) ==> (#[trigger] s.slots[j]).output != output,
    decreases s.slots.len() - i,
{
    if i < s.slots.len() && s.slots[i].output != output {
        law_slot_of_an_output(s, output, i + 1);
    }
}

/// A drag stays on its output for as long as that is there; without it, it is
/// where its console is.
pub proof fn law_drag_follows_its_console(s: StackView, drag: DockDrag)
    ensures
        (exists|j: int| 0 <= j < s.slots.len() && (#[trigger] s.slots[j]).output == drag.output)
            ==> 0 <= drag_slot(s, drag) < s.slots.len() && s.slots[drag_slot(s, drag)].output
            == drag.output,
        (forall|j: int| 0 <= j < s.slots.len() ==> (#[trigger] s.slots[j]).output != drag.output)
            ==> drag_slot(s, drag) == s.output_of(drag.hut_id, 0),
{
    law_slot_of_an_output(s, drag.output, 0);
}

/// A console is looked for on the output given first, and only then on all.
pub proof fn law_hint_comes_first(s: StackView, i: usize, hut: u64)
    ensures
        ({
            let here = first_console(s.nodes, s.ids_on(i as int), hut);
            &&& i < s.slots.len() && here is Some ==> hinted_node(s, i, hut) == here
            &&& !(i < s.slots.len() && here is Some) ==> hinted_node(s, i, hut) == first_console(
                s.nodes,
                s.all_ids(),
                hut,
            )
        }),
{
}

} // verus!
