//! Dragging a Floating Window or an Alert across the screen.
use vstd::prelude::*;

use crate::console_hut::{mapped, placed_index, HutView};
use crate::graph::NodeId;
use crate::graph_stack::GraphStack;
use crate::main_window::{Dock, Edge};
use crate::stack_model::{first_console, StackView};
use crate::tree::acyclic;

verus! {

/// How close to an edge, in pixels, a window must be dropped to dock there.
pub const REDOCK_THRESHOLD: i32 = 40;

/// The distance of a window's side from the output's edge.
pub open spec fn edge_distance(
    edge: Edge,
    output_size: (i32, i32),
    location: (i32, i32),
    size: (i32, i32),
) -> int {
    match edge {
        Edge::Left => location.0 as int,
        Edge::Right => output_size.0 - (location.0 + size.0),
        Edge::Top => location.1 as int,
        Edge::Bottom => output_size.1 - (location.1 + size.1),
    }
}

/// The magnitude of `n`.
pub open spec fn magnitude(n: int) -> int {
    if n < 0 {
        -n
    } else {
        n
    }
}

/// The rank of an edge when two are equally close.
pub open spec fn edge_rank(edge: Edge) -> int {
    match edge {
        Edge::Left => 0,
        Edge::Right => 1,
        Edge::Top => 2,
        Edge::Bottom => 3,
    }
}

/// Whether `a` goes before `b`: it is closer, or as close and ranked first.
pub open spec fn goes_before(
    a: Edge,
    b: Edge,
    output_size: (i32, i32),
    location: (i32, i32),
    size: (i32, i32),
) -> bool {
    let da = magnitude(edge_distance(a, output_size, location, size));
    let db = magnitude(edge_distance(b, output_size, location, size));
    da < db || (da == db && edge_rank(a) <= edge_rank(b))
}

/// Whether a side is close enough to its edge.
pub open spec fn edge_close(
    edge: Edge,
    output_size: (i32, i32),
    location: (i32, i32),
    size: (i32, i32),
) -> bool {
    magnitude(edge_distance(edge, output_size, location, size)) <= 40
}

fn abs_of(n: i64) -> (r: i64)
    requires
        n > i64::MIN,
    ensures
        r == magnitude(n as int),
{
    if n < 0 {
        -n
    } else {
        n
    }
}

/// The edge that a window dropped at `location` docks to: the closest one
/// within reach, the first of Left, Right, Top and Bottom among equals.
pub fn nearest_edge_within_threshold(
    output_size: (i32, i32),
    location: (i32, i32),
    size: (i32, i32),
) -> (r: Option<Edge>)
    ensures
        match r {
            Some(edge) => {
                &&& edge_close(edge, output_size, location, size)
                &&& forall|other: Edge| #[trigger]
                    edge_close(other, output_size, location, size) ==> goes_before(
                        edge,
                        other,
                        output_size,
                        location,
                        size,
                    )
            },
            None => forall|edge: Edge| !#[trigger] edge_close(edge, output_size, location, size),
        },
{
    let left: i64 = abs_of(location.0 as i64);
    let right: i64 = abs_of(output_size.0 as i64 - (location.0 as i64 + size.0 as i64));
    let top: i64 = abs_of(location.1 as i64);
    let bottom: i64 = abs_of(output_size.1 as i64 - (location.1 as i64 + size.1 as i64));
    let reach: i64 = REDOCK_THRESHOLD as i64;
    let mut best: i64 = reach + 1;
    let mut found: Option<Edge> = None;
    if left < best {
        best = left;
        found = Some(Edge::Left);
    }
    if right < best {
        best = right;
        found = Some(Edge::Right);
    }
    if top < best {
        best = top;
        found = Some(Edge::Top);
    }
    if bottom < best {
        found = Some(Edge::Bottom);
    }
    found
}

/// Where a window dropped at `location` ends up.
pub open spec fn dropped_dock(edge: Option<Edge>, location: (i32, i32)) -> Dock {
    match edge {
        Some(edge) => Dock::Docked(edge),
        None => Dock::Floating(location),
    }
}

/// Puts a Floating Window of console `hut` where it was dropped: docked, if
/// it is within reach of an edge of the console's output, and arranges the
/// console anew. Returns whether it did: not, and without a change, if the
/// console is gone or the window is not on screen.
pub(crate) fn settle_floating(
    stack: &mut GraphStack,
    hut_id: u64,
    surface: u64,
    size: (i32, i32),
    output_sizes: &Vec<(i32, i32)>,
    area_origins: &Vec<(i32, i32)>,
) -> (r: bool)
    requires
        acyclic(old(stack)@.kids),
        output_sizes@.len() == old(stack)@.slots.len(),
        area_origins@.len() == old(stack)@.slots.len(),
    ensures
        final(stack).same_frame(*old(stack)),
        settled_from(
            old(stack)@,
            final(stack)@,
            r,
            hut_id,
            surface,
            size,
            output_sizes@,
            area_origins@,
        ),
{
    let location = match stack.find(hut_id) {
        None => {
            return false;
        },
        Some(hut) => hut.placed_at(surface),
    };
    proof {
        old(stack)@.lemma_output_of_bounds(hut_id, 0);
    }
    let at = match location {
        None => {
            return false;
        },
        Some(at) => at,
    };
    let index: usize = match stack.output_index_for_hut(hut_id) {
        None => {
            return false;
        },
        Some(i) => i,
    };
    assert(index == old(stack)@.output_of(hut_id, 0)) by {
        assert(output_sizes.len() == old(stack)@.slots.len());
    }
    let edge = nearest_edge_within_threshold(output_sizes[index], at, size);
    let dock = match edge {
        Some(edge) => Dock::Docked(edge),
        None => Dock::Floating(at),
    };
    match stack.find_mut(hut_id) {
        None => {
            return false;
        },
        Some(hut) => {
            hut.set_dock(surface, dock);
            hut.sync_main_window_space(area_origins[index]);
        },
    }
    assert(drop_edge(edge, output_sizes@[index as int], at, size));
    true
}

/// Whether `edge` is where a window dropped at `location` docks.
pub open spec fn drop_edge(
    edge: Option<Edge>,
    output_size: (i32, i32),
    location: (i32, i32),
    size: (i32, i32),
) -> bool {
    match edge {
        Some(e) => edge_close(e, output_size, location, size) && forall|other: Edge| #[trigger]
            edge_close(other, output_size, location, size) ==> goes_before(
                e,
                other,
                output_size,
                location,
                size,
            ),
        None => forall|e: Edge| !#[trigger] edge_close(e, output_size, location, size),
    }
}

/// The console, once the window is settled where it was dropped.
pub open spec fn settled_hut(
    hut: HutView,
    surface: u64,
    edge: Option<Edge>,
    origin: (i32, i32),
) -> HutView {
    let at = hut.space[placed_index(hut.space, surface)].position;
    let docked = hut.with_dock(surface, dropped_dock(edge, at));
    HutView { space: docked.arranged(origin), ..docked }
}

/// Whether the drop of a Floating Window took `before` to `after`. `done`
/// tells whether it was settled.
pub open spec fn settled_from(
    before: StackView,
    after: StackView,
    done: bool,
    hut_id: u64,
    surface: u64,
    size: (i32, i32),
    output_sizes: Seq<(i32, i32)>,
    area_origins: Seq<(i32, i32)>,
) -> bool {
    match first_console(before.nodes, before.all_ids(), hut_id) {
        None => !done && after == before,
        Some(node) => {
            let hut = before.nodes[node]->Console_0;
            let i = before.output_of(hut_id, 0);
            if placed_index(hut.space, surface) >= hut.space.len() || i >= before.slots.len() {
                !done && after == before
            } else {
                let at = hut.space[placed_index(hut.space, surface)].position;
                &&& done
                &&& exists|edge: Option<Edge>|
                    #[trigger] drop_edge(edge, output_sizes[i], at, size) && after
                        == before.with_console(
                        node,
                        settled_hut(hut, surface, edge, area_origins[i]),
                    )
            }
        },
    }
}

/// There is only one edge that a dropped window docks to.
pub proof fn law_drop_edge_is_unique(
    a: Option<Edge>,
    b: Option<Edge>,
    output_size: (i32, i32),
    location: (i32, i32),
    size: (i32, i32),
)
    requires
        drop_edge(a, output_size, location, size),
        drop_edge(b, output_size, location, size),
    ensures
        a == b,
{
}

/// A client's request to move one of its windows, while the pointer is held.
pub struct MoveSurfaceGrab {
    pub surface: u64,
    /// Whether it is a Floating Window rather than an Alert.
    pub floating_window: bool,
    pub hut_id: u64,
    /// The output the console was last seen on.
    pub output_index: usize,
}

impl MoveSurfaceGrab {
    /// Shows the window at its new place while it is being dragged.
    pub fn motion(&self, stack: &mut GraphStack, location: (i32, i32))
        requires
            acyclic(old(stack)@.kids),
        ensures
            final(stack).same_frame(*old(stack)),
            ({
                let before = old(stack)@;
                let hinted = if self.output_index < before.slots.len() {
                    first_console(before.nodes, before.ids_on(self.output_index as int), self.hut_id)
                } else {
                    None
                };
                let node = if hinted is Some {
                    hinted
                } else {
                    first_console(before.nodes, before.all_ids(), self.hut_id)
                };
                match node {
                    None => final(stack)@ == before,
                    Some(node) => {
                        let hut = before.nodes[node]->Console_0;
                        final(stack)@ == before.with_console(
                            node,
                            HutView {
                                space: mapped(hut.space, self.surface, location),
                                ..hut
                            },
                        )
                    },
                }
            }),
    {
        match stack.find_mut_for_hint(self.output_index, self.hut_id) {
            Some(hut) => hut.map_live(self.surface, location),
            None => {},
        }
    }

    /// Whether the grab ends: the left button is no longer held.
    pub fn ends_with(&self, pressed: &Vec<u32>) -> (r: bool)
        ensures
            r == !pressed@.contains(0x110),
    {
        for i in 0..pressed.len()
            invariant
                forall|j: int| 0 <= j < i ==> pressed@[j] != 0x110,
        {
            if pressed[i] == 0x110 {
                assert(pressed@.contains(pressed@[i as int]));
                return false;
            }
        }
        true
    }

    /// The window was let go. An Alert stays where it is; a Floating Window
    /// may dock. Returns whether anything has to be drawn anew: always, but
    /// for a console that is still there and does not show the window.
    pub fn unset(
        &self,
        stack: &mut GraphStack,
        size: (i32, i32),
        output_sizes: &Vec<(i32, i32)>,
        area_origins: &Vec<(i32, i32)>,
    ) -> (r: bool)
        requires
            acyclic(old(stack)@.kids),
            output_sizes@.len() == old(stack)@.slots.len(),
            area_origins@.len() == old(stack)@.slots.len(),
        ensures
            final(stack).same_frame(*old(stack)),
            ({
                let before = old(stack)@;
                match first_console(before.nodes, before.all_ids(), self.hut_id) {
                    None => r && final(stack)@ == before,
                    Some(node) => {
                        let hut = before.nodes[node]->Console_0;
                        let k = placed_index(hut.space, self.surface);
                        if k >= hut.space.len() {
                            !r && final(stack)@ == before
                        } else if !self.floating_window {
                            r && final(stack)@ == before.with_console(
                                node,
                                hut.with_alert_at(self.surface, hut.space[k].position),
                            )
                        } else {
                            r && exists|done: bool| #[trigger]
                                settled_from(
                                    before,
                                    final(stack)@,
                                    done,
                                    self.hut_id,
                                    self.surface,
                                    size,
                                    output_sizes@,
                                    area_origins@,
                                )
                        }
                    },
                }
            }),
    {
        let location = match stack.find(self.hut_id) {
            None => {
                return true;
            },
            Some(hut) => hut.placed_at(self.surface),
        };
        let at = match location {
            None => {
                return false;
            },
            Some(at) => at,
        };
        if !self.floating_window {
            match stack.find_mut(self.hut_id) {
                Some(hut) => hut.set_alert_position(self.surface, at),
                None => {},
            }
            return true;
        }
        let done = settle_floating(
            stack,
            self.hut_id,
            self.surface,
            size,
            output_sizes,
            area_origins,
        );
        assert(settled_from(
            old(stack)@,
            stack@,
            done,
            self.hut_id,
            self.surface,
            size,
            output_sizes@,
            area_origins@,
        ));
        true
    }
}

/// A window is within reach of an edge if the side that faces it is no further
/// than forty pixels from it, on this side of it or beyond. Where it is in
/// reach of several it docks at the closest, the first of left, right, top and
/// bottom where two are equally close; where it is in reach of none it does not
/// dock.
pub proof fn law_where_a_dropped_window_docks(
    output_size: (i32, i32),
    location: (i32, i32),
    size: (i32, i32),
)
    ensures
        ({
            let gap = |n: int|
                if n < 0 {
                    -n
                } else {
                    n
                };
            let left = gap(location.0 as int);
            let right = gap(output_size.0 - location.0 - size.0);
            let top = gap(location.1 as int);
            let bottom = gap(output_size.1 - location.1 - size.1);
            &&& left <= 40 && left <= right && left <= top && left <= bottom <==> drop_edge(
                Some(Edge::Left),
                output_size,
                location,
                size,
            )
            &&& right <= 40 && right < left && right <= top && right <= bottom <==> drop_edge(
                Some(Edge::Right),
                output_size,
                location,
                size,
            )
            &&& top <= 40 && top < left && top < right && top <= bottom <==> drop_edge(
                Some(Edge::Top),
                output_size,
                location,
                size,
            )
            &&& bottom <= 40 && bottom < left && bottom < right && bottom < top <==> drop_edge(
                Some(Edge::Bottom),
                output_size,
                location,
                size,
            )
            &&& left > 40 && right > 40 && top > 40 && bottom > 40 <==> drop_edge(
                None,
                output_size,
                location,
                size,
            )
        }),
{
    let left = edge_close(Edge::Left, output_size, location, size);
    let right = edge_close(Edge::Right, output_size, location, size);
    let top = edge_close(Edge::Top, output_size, location, size);
    let bottom = edge_close(Edge::Bottom, output_size, location, size);
}

/// A window that docks is off screen at its edge; one that does not stays where
/// it was let go.
pub proof fn law_dropped_window_docks_or_stays(edge: Option<Edge>, location: (i32, i32))
    ensures
        edge is Some ==> dropped_dock(edge, location) == Dock::Docked(edge->0),
        edge is None ==> dropped_dock(edge, location) == Dock::Floating(location),
{
}

/// The console of a dropped window has it docked, or floating where it was on
/// screen, and shows what belongs on screen then. Nothing else about it
/// changes.
pub proof fn law_settled_console(hut: HutView, surface: u64, edge: Option<Edge>, origin: (i32, i32))
    ensures
        ({
            let at = hut.space[placed_index(hut.space, surface)].position;
            let dock = match edge {
                Some(e) => Dock::Docked(e),
                None => Dock::Floating(at),
            };
            let after = settled_hut(hut, surface, edge, origin);
            &&& after.windows == hut.with_dock(surface, dock).windows
            &&& after.space == after.arranged(origin)
            &&& after.id == hut.id
            &&& after.touched == hut.touched
            &&& after.pixel_size == hut.pixel_size
            &&& after.active == hut.active
            &&& after.showing_terminal == hut.showing_terminal
        }),
{
}

/// Dropping a window that is on screen settles it in its own console, on the
/// output that the console is on, and changes no other node. One that is not on
/// screen, or whose console is gone, is left alone.
pub proof fn law_drop_settles_in_its_console(
    before: StackView,
    after: StackView,
    done: bool,
    hut_id: u64,
    surface: u64,
    size: (i32, i32),
    output_sizes: Seq<(i32, i32)>,
    area_origins: Seq<(i32, i32)>,
    x: NodeId,
)
    requires
        settled_from(before, after, done, hut_id, surface, size, output_sizes, area_origins),
    ensures
        ({
            let node = first_console(before.nodes, before.all_ids(), hut_id);
            &&& node is None ==> !done
            &&& !done ==> after == before
            &&& after.slots == before.slots && after.kids == before.kids && after.focused
                == before.focused
            &&& Some(x) != node && before.nodes.contains_key(x) ==> after.nodes[x]
                == before.nodes[x]
            &&& node is Some ==> {
                let hut = before.nodes[node->0]->Console_0;
                let i = before.output_of(hut_id, 0);
                &&& done <==> placed_index(hut.space, surface) < hut.space.len() && i
                    < before.slots.len()
                &&& done ==> after.nodes[node->0] is Console && exists|edge: Option<Edge>| #[trigger]
                    drop_edge(
                        edge,
                        output_sizes[i],
                        hut.space[placed_index(hut.space, surface)].position,
                        size,
                    ) && after.nodes[node->0]->Console_0 == settled_hut(
                        hut,
                        surface,
                        edge,
                        area_origins[i],
                    )
            }
        }),
{
}

} // verus!
