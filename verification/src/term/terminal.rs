//! A terminal's size and state, the events it reacts to, and what it has to
//! redraw.
use vstd::prelude::*;

use crate::term::keys::Mods;
use crate::term::mouse::{
    button_code, button_text, encode_button, encode_drag, wants_reports, GridPoint, MOUSE_MODE,
    SGR_MOUSE,
};
use crate::term::render::{
    bounds, damage_bounds, resolve_cell, shown, CellInfo, CellView, Content, Damage, LineDamage,
};
use vstd::utf8::*;

verus! {

/// Something changed in the terminal that the compositor should react to.
#[derive(Debug, Clone)]
pub enum TermEvent {
    /// New content is available.
    Wakeup,
    /// The window title changed.
    Title(String),
    /// The shell exited.
    Exited,
}

/// What the emulator reports.
#[derive(Debug, Clone)]
pub enum EmulatorEvent {
    Wakeup,
    Title(String),
    Exit,
    ChildExit(i32),
    Other,
}

/// What the compositor is told about an event of the emulator: new content, a
/// new title, or that the shell is gone, however that came about. The rest it
/// does not hear of.
pub fn map_event(event: EmulatorEvent) -> (r: Option<TermEvent>)
    ensures
        r == match event {
            EmulatorEvent::Wakeup => Some(TermEvent::Wakeup),
            EmulatorEvent::Title(title) => Some(TermEvent::Title(title)),
            EmulatorEvent::Exit => Some(TermEvent::Exited),
            EmulatorEvent::ChildExit(_) => Some(TermEvent::Exited),
            EmulatorEvent::Other => None,
        },
{
    match event {
        EmulatorEvent::Wakeup => Some(TermEvent::Wakeup),
        EmulatorEvent::Title(title) => Some(TermEvent::Title(title)),
        EmulatorEvent::Exit => Some(TermEvent::Exited),
        EmulatorEvent::ChildExit(_) => Some(TermEvent::Exited),
        EmulatorEvent::Other => None,
    }
}

/// The size of a grid in cells.
#[derive(Debug, Clone, Copy, PartialEq, Eq, Structural)]
pub struct GridSize {
    pub cols: usize,
    pub lines: usize,
}

impl GridSize {
    /// A grid without history has as many lines as it shows.
    pub fn total_lines(&self) -> (r: usize)
        ensures
            r == self.lines,
    {
        self.lines
    }

    pub fn screen_lines(&self) -> (r: usize)
        ensures
            r == self.lines,
    {
        self.lines
    }

    pub fn columns(&self) -> (r: usize)
        ensures
            r == self.cols,
    {
        self.cols
    }
}

/// The size of a terminal as the shell is told of it.
#[derive(Debug, Clone, Copy, PartialEq, Eq, Structural)]
pub struct WindowSize {
    pub num_lines: u16,
    pub num_cols: u16,
    pub cell_width: u16,
    pub cell_height: u16,
}

/// The size of a terminal as the shell is told of it, of which the numbers of
/// lines and columns keep their low sixteen bits.
pub open spec fn told_size(size: GridSize, cell_width: u16, cell_height: u16) -> WindowSize {
    WindowSize {
        num_lines: size.lines as u16,
        num_cols: size.cols as u16,
        cell_width,
        cell_height,
    }
}

pub fn window_size(size: GridSize, cell_size: (u16, u16)) -> (r: WindowSize)
    ensures
        r == told_size(size, cell_size.0, cell_size.1),
{
    WindowSize {
        num_lines: size.lines as u16,
        num_cols: size.cols as u16,
        cell_width: cell_size.0,
        cell_height: cell_size.1,
    }
}

/// One terminal: its size, the process it runs, and whether that has exited.
#[derive(Debug, Clone, Copy)]
pub struct Terminal {
    pub size: GridSize,
    pub cell_size: (u16, u16),
    pub shell_pid: u32,
    pub exited: bool,
}

impl Terminal {
    /// A terminal whose shell has just been started.
    pub fn spawned(cols: usize, lines: usize, cell_size: (u16, u16), shell_pid: u32) -> (r: Self)
        ensures
            r.size == (GridSize { cols, lines }),
            r.cell_size == cell_size,
            r.shell_pid == shell_pid,
            !r.exited,
    {
        Terminal { size: GridSize { cols, lines }, cell_size, shell_pid, exited: false }
    }

    pub fn cols(&self) -> (r: usize)
        ensures
            r == self.size.cols,
    {
        self.size.cols
    }

    pub fn lines(&self) -> (r: usize)
        ensures
            r == self.size.lines,
    {
        self.size.lines
    }

    /// Takes a new size and returns what the shell is to be told of it.
    pub fn resize(&mut self, cols: usize, lines: usize, cell_size: (u16, u16)) -> (r: WindowSize)
        ensures
            final(self).size == (GridSize { cols, lines }),
            final(self).cell_size == cell_size,
            final(self).shell_pid == old(self).shell_pid,
            final(self).exited == old(self).exited,
            r == told_size(GridSize { cols, lines }, cell_size.0, cell_size.1),
    {
        self.size = GridSize { cols, lines };
        self.cell_size = cell_size;
        window_size(self.size, cell_size)
    }

    /// The bytes that report a button press or release to a program in `mode`;
    /// none if it does not want them.
    pub fn report_mouse_button(
        mode: u32,
        button: u32,
        mods: Mods,
        pressed: bool,
        col: usize,
        row: usize,
    ) -> (r: Option<Vec<u8>>)
        requires
            button_code(button as int, mods) <= u32::MAX,
        ensures
            r is Some <==> mode & SGR_MOUSE == SGR_MOUSE && mode & MOUSE_MODE != 0,
            r matches Some(bytes) ==> bytes@ == encode_utf8(
                button_text(button as int, mods, pressed, col as nat, row as nat),
            ),
    {
        if wants_reports(mode) {
            Some(encode_button(button, mods, pressed, col, row))
        } else {
            None
        }
    }

    /// The bytes that report motion with a button held. Whether the program
    /// wants them is for the caller to ask first.
    pub fn report_mouse_drag(button: u32, mods: Mods, col: usize, row: usize) -> (r: Vec<u8>)
        requires
            button_code(button as int, mods) + 32 <= u32::MAX,
        ensures
            r@ == encode_utf8(button_text(button + 32, mods, true, col as nat, row as nat)),
    {
        encode_drag(button, mods, col, row)
    }
}

/// What to redraw: everything while something is selected, since a changing
/// selection is no change of the cells.
pub open spec fn effective_damage(damage: Damage, has_selection: bool) -> Damage {
    if has_selection {
        Damage::Full
    } else {
        damage
    }
}

/// What to redraw, given what changed and whether something is selected.
pub fn frame_damage(damage: Damage, has_selection: bool) -> (r: Damage)
    ensures
        r == effective_damage(damage, has_selection),
{
    if has_selection {
        Damage::Full
    } else {
        damage
    }
}

/// Whether a changed stretch is the cursor's cell alone.
pub open spec fn cursor_only(l: LineDamage, cursor: GridPoint) -> bool {
    l.line == cursor.line && l.left == cursor.column && l.right == cursor.column
}

/// Whether anything changed besides the cursor's cell, which counts as changed
/// at all times.
pub open spec fn content_changed(damage: Damage, cursor: GridPoint) -> bool {
    match damage {
        Damage::Full => true,
        Damage::Lines(lines) => exists|i: int|
            0 <= i < lines@.len() && !cursor_only(#[trigger] lines@[i], cursor),
    }
}

fn has_content_damage(damage: &Damage, cursor: GridPoint) -> (r: bool)
    requires
        0 <= cursor.line,
    ensures
        r == content_changed(*damage, cursor),
{
    match damage {
        Damage::Full => true,
        Damage::Lines(lines) => {
            assert(damage->Lines_0 == *lines);
            for i in 0..lines.len()
                invariant
                    0 <= cursor.line,
                    damage->Lines_0 == *lines,
                    *damage is Lines,
                    forall|k: int| 0 <= k < i ==> cursor_only(#[trigger] lines@[k], cursor),
            {
                let l = lines[i];
                let only = l.line == cursor.line as usize && l.left == cursor.column && l.right
                    == cursor.column;
                if !only {
                    assert(!cursor_only(lines@[i as int], cursor));
                    return true;
                }
            }
            false
        },
    }
}

/// Whether a cell lies in a rectangle of rows and columns; every cell lies in
/// none.
pub open spec fn within(cell: CellView, area: Option<(int, int, int, int)>) -> bool {
    match area {
        None => true,
        Some((top, bottom, left, right)) => top <= cell.row <= bottom && left <= cell.col <= right,
    }
}

/// Those of the first `n` cells, as they are shown, that lie in a rectangle.
pub open spec fn shown_within(
    content: &Content,
    area: Option<(int, int, int, int)>,
    n: int,
) -> Seq<CellView>
    decreases n,
{
    if n <= 0 {
        Seq::empty()
    } else {
        let before = shown_within(content, area, n - 1);
        let cell = shown(content, content.cells@[n - 1]);
        if within(cell, area) {
            before.push(cell)
        } else {
            before
        }
    }
}

/// What a list of cells holds.
pub open spec fn cell_views(cells: Seq<CellInfo>) -> Seq<CellView> {
    Seq::new(cells.len(), |i: int| cells[i]@)
}

/// The cells that have to be redrawn: those in the smallest rectangle that
/// holds everything that changed.
pub fn collect_damaged(content: &Content, damage: &Damage) -> (r: Vec<CellInfo>)
    requires
        content.valid(),
    ensures
        cell_views(r@) == shown_within(content, bounds(*damage), content.cells@.len() as int),
{
    let area = damage_bounds(damage);
    let ghost wanted = bounds(*damage);
    let mut cells: Vec<CellInfo> = Vec::new();
    assert(cell_views(cells@) =~= Seq::empty());
    for i in 0..content.cells.len()
        invariant
            content.valid(),
            wanted is None <==> area is None,
            area matches Some((top, bottom, left, right)) ==> wanted == Some(
                (top as int, bottom as int, left as int, right as int),
            ),
            cell_views(cells@) == shown_within(content, wanted, i as int),
    {
        let cell = resolve_cell(content, i);
        let inside = match area {
            None => true,
            Some((top, bottom, left, right)) => top <= cell.row && cell.row <= bottom && left
                <= cell.col && cell.col <= right,
        };
        let ghost before = cells@;
        if inside {
            cells.push(cell);
            assert(cell_views(cells@) =~= cell_views(before).push(cell@));
        }
        assert(cell_views(cells@) =~= shown_within(content, wanted, i + 1));
    }
    cells
}

/// The cells to redraw and the damage they come from, or `None` if nothing
/// changed and nothing is selected. `cursor` is where the cursor is in the
/// grid.
pub fn take_dirty_cells(
    content: &Content,
    damage: Damage,
    cursor: GridPoint,
    has_selection: bool,
) -> (r: Option<(Vec<CellInfo>, Damage)>)
    requires
        content.valid(),
        0 <= cursor.line,
    ensures
        r is Some <==> content_changed(damage, cursor) || has_selection,
        r matches Some((cells, d)) ==> d == effective_damage(damage, has_selection) && cell_views(
            cells@,
        ) == shown_within(
            content,
            bounds(effective_damage(damage, has_selection)),
            content.cells@.len() as int,
        ),
{
    if !(has_content_damage(&damage, cursor) || has_selection) {
        return None;
    }
    let damage = frame_damage(damage, has_selection);
    let cells = collect_damaged(content, &damage);
    Some((cells, damage))
}

/// A selection makes every redraw a full one; without one just what changed is
/// redrawn.
pub proof fn law_selection_redraws_everything(damage: Damage)
    ensures
        effective_damage(damage, true) is Full,
        effective_damage(damage, false) == damage,
{
}

/// A stretch that is more than the cursor's own cell is a change, and so is a
/// full redraw. The cursor's own cell alone is none.
pub proof fn law_cursor_alone_is_no_change(damage: Damage, cursor: GridPoint)
    ensures
        damage is Full ==> content_changed(damage, cursor),
        damage matches Damage::Lines(lines) ==> (content_changed(damage, cursor) <==> !(forall|i: int|
            0 <= i < lines@.len() ==> (#[trigger] lines@[i]).line == cursor.line && lines@[i].left
                == cursor.column && lines@[i].right == cursor.column)),
{
    if damage is Lines {
        let lines = damage->Lines_0;
        assert forall|i: int| 0 <= i < lines@.len() implies cursor_only(
            #[trigger] lines@[i],
            cursor,
        ) == (lines@[i].line == cursor.line && lines@[i].left == cursor.column && lines@[i].right
            == cursor.column) by {}
    }
}

/// The cells that are listed for a rectangle are those whose row and column lie
/// in it, and all of them.
pub proof fn law_listed_cells_lie_in_the_rectangle(
    content: &Content,
    area: Option<(int, int, int, int)>,
    n: int,
    k: int,
)
    requires
        0 <= k < n <= content.cells@.len(),
    ensures
        ({
            let cell = shown(content, content.cells@[k]);
            let inside = match area {
                None => true,
                Some((top, bottom, left, right)) => top <= cell.row && cell.row <= bottom && left
                    <= cell.col && cell.col <= right,
            };
            &&& inside ==> shown_within(content, area, n).contains(cell)
            &&& forall|i: int|
                0 <= i < shown_within(content, area, n).len() ==> match area {
                    None => true,
                    Some((top, bottom, left, right)) => {
                        let c = #[trigger] shown_within(content, area, n)[i];
                        top <= c.row && c.row <= bottom && left <= c.col && c.col <= right
                    },
                }
            &&& area is None ==> shown_within(content, area, n).len() == n && shown_within(
                content,
                area,
                n,
            )[k] == cell
            &&& shown_within(content, area, n).len() <= n
        }),
    decreases n,
{
    let cell = shown(content, content.cells@[k]);
    let before = shown_within(content, area, n - 1);
    let all = shown_within(content, area, n);
    if k < n - 1 {
        law_listed_cells_lie_in_the_rectangle(content, area, n - 1, k);
        if before.contains(cell) {
            let j = choose|j: int| 0 <= j < before.len() && before[j] == cell;
            assert(all[j] == cell);
        }
    } else {
        if n > 1 {
            law_listed_cells_lie_in_the_rectangle(content, area, n - 1, n - 2);
        } else {
            assert(before =~= Seq::empty());
        }
        if within(cell, area) {
            assert(all[before.len() as int] == cell);
        }
    }
}

/// The shell is told the grid's own size and that of its cells, as far as
/// sixteen bits hold it.
pub proof fn law_shell_is_told_the_size(size: GridSize, cell_width: u16, cell_height: u16)
    requires
        size.lines <= u16::MAX,
        size.cols <= u16::MAX,
    ensures
        ({
            let told = told_size(size, cell_width, cell_height);
            &&& told.num_lines == size.lines
            &&& told.num_cols == size.cols
            &&& told.cell_width == cell_width
            &&& told.cell_height == cell_height
        }),
{
}

} // verus!
