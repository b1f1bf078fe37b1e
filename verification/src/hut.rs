//! Index and rectangle arithmetic shared by every container-shaped node.
use vstd::prelude::*;

verus! {

/// Which way a cycling step moves.
#[derive(Debug, Clone, Copy, PartialEq, Eq, Structural)]
pub enum Direction {
    Next,
    Prev,
}

/// The axis along which a tiled container splits its area.
#[derive(Debug, Clone, Copy, PartialEq, Eq, Structural)]
pub enum Axis {
    Horizontal,
    Vertical,
}

/// One step forwards or backwards around a ring of `len` positions.
pub open spec fn stepped(len: int, active: int, dir: Direction) -> int {
    match dir {
        Direction::Next => (active + 1) % len,
        Direction::Prev => (active - 1) % len,
    }
}

/// The position one step from `active` around a ring of `len` positions.
pub fn wrapping_step(len: usize, active: usize, dir: Direction) -> (r: usize)
    requires
        0 < len,
        dir is Next ==> active < usize::MAX,
        dir is Prev ==> active + len - 1 <= usize::MAX,
    ensures
        r == stepped(len as int, active as int, dir),
        r < len,
{
    match dir {
        Direction::Next => (active + 1) % len,
        Direction::Prev => {
            proof {
                vstd::arithmetic::div_mod::lemma_mod_add_multiples_vanish(active - 1, len as int);
            }
            (active + (len - 1)) % len
        },
    }
}

/// Stepping forwards and then backwards, or the other way round, comes back
/// to where it started.
pub proof fn law_step_and_back(len: int, active: int)
    requires
        0 <= active < len,
    ensures
        stepped(len, stepped(len, active, Direction::Next), Direction::Prev) == active,
        stepped(len, stepped(len, active, Direction::Prev), Direction::Next) == active,
{
    assert((active + 1) % len == if active + 1 == len { 0 } else { active + 1 }) by (nonlinear_arith)
        requires
            0 <= active < len,
    ;
    assert((active - 1) % len == if active == 0 { len - 1 } else { active - 1 }) by (nonlinear_arith)
        requires
            0 <= active < len,
    ;
    assert((-1int) % len == len - 1) by (nonlinear_arith)
        requires
            0 < len,
    ;
    assert(len % len == 0) by (nonlinear_arith)
        requires
            0 < len,
    ;
    assert(active % len == active) by (nonlinear_arith)
        requires
            0 <= active < len,
    ;
}

/// Where an index that pointed into a list points once the entry at
/// `removed` is gone and `new_len` entries are left: it follows the entry it
/// pointed at, and stays within the list.
pub open spec fn shifted(active: int, removed: int, new_len: int) -> int {
    let moved = if removed < active {
        active - 1
    } else {
        active
    };
    let last = if new_len > 0 {
        new_len - 1
    } else {
        0
    };
    if moved <= last {
        moved
    } else {
        last
    }
}

/// Keeps `active` pointing at the same surviving entry after the entry at
/// `removed` was taken out of a list that now has `new_len` entries.
pub fn shift_active_index_on_removal(active: usize, removed: usize, new_len: usize) -> (r: usize)
    ensures
        r == shifted(active as int, removed as int, new_len as int),
{
    let moved: usize = if removed < active {
        active - 1
    } else {
        active
    };
    let last: usize = if new_len > 0 {
        new_len - 1
    } else {
        0
    };
    if moved <= last {
        moved
    } else {
        last
    }
}

/// An entry that survives a removal is still the one the shifted index points
/// at.
pub proof fn law_shift_follows_the_survivor<T>(s: Seq<T>, active: int, removed: int)
    requires
        0 <= active < s.len(),
        0 <= removed < s.len(),
        removed != active,
    ensures
        0 <= shifted(active, removed, s.len() - 1) < s.len() - 1,
        s.remove(removed)[shifted(active, removed, s.len() - 1)] == s[active],
{
}

/// The sum of the first `n` of these extents.
pub open spec fn extent_sum(shares: Seq<i32>, n: int) -> int
    decreases n,
{
    if n <= 0 {
        0
    } else {
        extent_sum(shares, n - 1) + shares[n - 1]
    }
}

/// The length along the axis of pane `i`: its own share, except that the
/// last pane takes whatever the others left over.
pub open spec fn pane_extent(shares: Seq<i32>, extent: int, i: int) -> int {
    if i + 1 == shares.len() {
        extent - extent_sum(shares, i)
    } else {
        shares[i] as int
    }
}

/// Pane `i` of an area of `size` split along `axis`.
pub open spec fn pane_rect(axis: Axis, shares: Seq<i32>, size: (i32, i32), i: int) -> (
    int,
    int,
    int,
    int,
) {
    match axis {
        Axis::Horizontal => (
            extent_sum(shares, i),
            0,
            pane_extent(shares, size.0 as int, i),
            size.1 as int,
        ),
        Axis::Vertical => (
            0,
            extent_sum(shares, i),
            size.0 as int,
            pane_extent(shares, size.1 as int, i),
        ),
    }
}

/// The extent of `size` along `axis`.
pub open spec fn axis_extent(axis: Axis, size: (i32, i32)) -> int {
    match axis {
        Axis::Horizontal => size.0 as int,
        Axis::Vertical => size.1 as int,
    }
}

/// Whether every partial sum of the shares, and what is left for the last
/// pane, can be represented.
pub open spec fn shares_fit(shares: Seq<i32>, extent: int) -> bool {
    &&& forall|i: int|
        0 <= i < shares.len() ==> i32::MIN <= #[trigger] extent_sum(shares, i) <= i32::MAX
    &&& shares.len() > 0 ==> i32::MIN <= extent - extent_sum(shares, shares.len() - 1) <= i32::MAX
}

/// Whether every partial sum of the shares, and what is left for the last
/// pane, can be represented.
pub fn shares_are_fitting(shares: &Vec<i32>, extent: i32) -> (r: bool)
    ensures
        r == shares_fit(shares@, extent as int),
{
    let n: usize = shares.len();
    if n == 0 {
        return true;
    }
    let mut sum: i64 = 0;
    for i in 0..n - 1
        invariant
            n == shares@.len(),
            n >= 1,
            sum == extent_sum(shares@, i as int),
            i32::MIN <= sum <= i32::MAX,
            forall|k: int|
                0 <= k <= i ==> i32::MIN <= #[trigger] extent_sum(shares@, k) <= i32::MAX,
    {
        sum = sum + shares[i] as i64;
        assert(extent_sum(shares@, i + 1) == sum);
        if sum < i32::MIN as i64 || sum > i32::MAX as i64 {
            return false;
        }
    }
    let rest: i64 = extent as i64 - sum;
    i32::MIN as i64 <= rest && rest <= i32::MAX as i64
}

/// The rectangles (`x, y, width, height`) of a tiled container's panes.
///
/// `shares[i]` is the proportional extent of pane `i` along `axis`, already
/// rounded to whole pixels. The last pane absorbs any pixel lost or gained by
/// rounding, so its own share is not consulted.
pub fn pane_rects(axis: Axis, shares: &Vec<i32>, size: (i32, i32)) -> (r: Vec<(i32, i32, i32, i32)>)
    requires
        shares_fit(shares@, axis_extent(axis, size)),
    ensures
        r@.len() == shares@.len(),
        forall|i: int|
            0 <= i < shares@.len() ==> {
                let p = pane_rect(axis, shares@, size, i);
                (#[trigger] r@[i]) == (p.0 as i32, p.1 as i32, p.2 as i32, p.3 as i32)
                    && i32::MIN <= p.2 <= i32::MAX && i32::MIN <= p.3 <= i32::MAX
                    && i32::MIN <= p.0 <= i32::MAX && i32::MIN <= p.1 <= i32::MAX
            },
{
    let extent: i32 = match axis {
        Axis::Horizontal => size.0,
        Axis::Vertical => size.1,
    };
    let mut rects: Vec<(i32, i32, i32, i32)> = Vec::new();
    let mut offset: i32 = 0;
    let n: usize = shares.len();
    for i in 0..n
        invariant
            n == shares@.len(),
            extent == axis_extent(axis, size),
            shares_fit(shares@, extent as int),
            rects@.len() == i,
            i < n ==> offset == extent_sum(shares@, i as int),
            forall|j: int|
                0 <= j < i ==> {
                    let p = pane_rect(axis, shares@, size, j);
                    (#[trigger] rects@[j]) == (p.0 as i32, p.1 as i32, p.2 as i32, p.3 as i32)
                        && i32::MIN <= p.2 <= i32::MAX && i32::MIN <= p.3 <= i32::MAX
                        && i32::MIN <= p.0 <= i32::MAX && i32::MIN <= p.1 <= i32::MAX
                },
    {
        let this_extent: i32 = if i + 1 == n {
            extent - offset
        } else {
            shares[i]
        };
        assert(this_extent == pane_extent(shares@, extent as int, i as int));
        let rect = match axis {
            Axis::Horizontal => (offset, 0i32, this_extent, size.1),
            Axis::Vertical => (0i32, offset, size.0, this_extent),
        };
        rects.push(rect);
        if i + 1 < n {
            assert(extent_sum(shares@, i + 1) == extent_sum(shares@, i as int) + shares@[i as int]);
            offset = offset + this_extent;
        }
    }
    rects
}

/// The panes of a container follow one another along the axis with no gap and
/// no overlap, and together cover exactly the whole extent.
pub proof fn law_panes_tile_the_extent(axis: Axis, shares: Seq<i32>, size: (i32, i32), i: int)
    requires
        0 <= i < shares.len(),
    ensures
        extent_sum(shares, 0) == 0,
        i + 1 < shares.len() ==> extent_sum(shares, i) + pane_extent(
            shares,
            axis_extent(axis, size),
            i,
        ) == extent_sum(shares, i + 1),
        i + 1 == shares.len() ==> extent_sum(shares, i) + pane_extent(
            shares,
            axis_extent(axis, size),
            i,
        ) == axis_extent(axis, size),
{
}

/// Where the entry that an index points at is taken out itself, the index points
/// at the one that followed it, or at the last one if none did.
pub proof fn law_shift_past_the_removed<T>(s: Seq<T>, active: int)
    requires
        0 <= active < s.len(),
    ensures
        active + 1 < s.len() ==> s.remove(active)[shifted(active, active, s.len() - 1)] == s[active
            + 1],
        0 < active && active + 1 == s.len() ==> s.remove(active)[shifted(
            active,
            active,
            s.len() - 1,
        )] == s[active - 1],
        s.len() == 1 ==> shifted(active, active, 0) == 0,
{
}

/// A pane takes up its share along the axis, and the whole area across it; it
/// starts where the panes before it end.
pub proof fn law_where_a_pane_is(shares: Seq<i32>, size: (i32, i32), i: int)
    requires
        0 <= i < shares.len(),
    ensures
        ({
            let across = pane_rect(Axis::Horizontal, shares, size, i);
            let down = pane_rect(Axis::Vertical, shares, size, i);
            &&& i == 0 ==> across.0 == 0 && down.1 == 0
            &&& across.1 == 0 && across.3 == size.1
            &&& down.0 == 0 && down.2 == size.0
            &&& i + 1 < shares.len() ==> across.2 == shares[i] && down.3 == shares[i]
            &&& i + 1 < shares.len() ==> pane_rect(Axis::Horizontal, shares, size, i + 1).0
                == across.0 + across.2
            &&& i + 1 < shares.len() ==> pane_rect(Axis::Vertical, shares, size, i + 1).1 == down.1
                + down.3
            &&& i + 1 == shares.len() ==> across.0 + across.2 == size.0 && down.1 + down.3
                == size.1
        }),
{
}

} // verus!
