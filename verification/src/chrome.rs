//! The tab strip at the top of a Hut: one tab for its terminal and one for
//! each of its main windows.
use vstd::prelude::*;
use vstd::string::*;

use crate::console_hut::{ConsoleHut, HutView};
use crate::term::palette::Rgb;
use crate::text::{chars_of, copied, str_eq, string_of};

verus! {

/// Base sizes, before the output's scale is applied.
pub const TAB_PADDING: i32 = 12;

pub const TAB_GAP: i32 = 4;

pub const LEFT_MARGIN: i32 = 16;

pub const MAX_TITLE_CHARS: usize = 24;

/// A text cut to `max` characters, with an ellipsis in the last place where
/// something was cut off; nothing where there is no place at all.
pub open spec fn shortened(s: Seq<char>, max: int) -> Seq<char> {
    if s.len() <= max {
        s
    } else if max <= 0 {
        Seq::empty()
    } else {
        s.take(max - 1).push('\u{2026}')
    }
}

/// The text cut to `max_chars` characters.
pub fn truncate_with_ellipsis(s: &str, max_chars: usize) -> (r: String)
    ensures
        r@ == shortened(s@, max_chars as int),
{
    let mut chars = chars_of(s);
    if chars.len() > max_chars {
        if max_chars == 0 {
            chars.clear();
        } else {
            chars.truncate(max_chars - 1);
            chars.push('\u{2026}');
        }
        assert(chars@ =~= shortened(s@, max_chars as int));
    }
    string_of(&chars)
}

/// A shortened text has no more characters than allowed, a text within the
/// limit stays as it is, and shortening again changes nothing.
pub proof fn law_shortened_fits(s: Seq<char>, max: int)
    requires
        0 <= max,
    ensures
        shortened(s, max).len() <= max,
        s.len() <= max ==> shortened(s, max) == s,
        shortened(shortened(s, max), max) == shortened(s, max),
{
}

/// What a tab calls a window: its title, else its application's name, else a
/// placeholder.
pub open spec fn label_source(title: Option<String>, app_id: Option<String>) -> Seq<char> {
    match title {
        Some(t) => t@,
        None => match app_id {
            Some(a) => a@,
            None => "(window)"@,
        },
    }
}

/// A window's title as a tab shows it. `title` and `app_id` are what the
/// client has set; neither, for a window that is no toplevel.
pub fn window_title(title: &Option<String>, app_id: &Option<String>) -> (r: String)
    ensures
        r@ == shortened(label_source(*title, *app_id), MAX_TITLE_CHARS as int),
{
    match title {
        Some(t) => truncate_with_ellipsis(t.as_str(), MAX_TITLE_CHARS),
        None => match app_id {
            Some(a) => truncate_with_ellipsis(a.as_str(), MAX_TITLE_CHARS),
            None => truncate_with_ellipsis("(window)", MAX_TITLE_CHARS),
        },
    }
}

/// A window's application name: empty if its client set none.
pub fn window_app_id(app_id: &Option<String>) -> (r: String)
    ensures
        r@ == match *app_id {
            Some(a) => a@,
            None => Seq::empty(),
        },
{
    match app_id {
        Some(a) => copied(a.as_str()),
        None => String::new(),
    }
}

/// The sizes of a strip in physical pixels: a cell of its text, and the base
/// sizes with the output's scale applied.
#[derive(Debug, Clone, Copy, PartialEq, Eq, Structural)]
pub struct StripMetrics {
    pub cell_w: usize,
    pub cell_h: i32,
    pub padding: i32,
    pub gap: i32,
    pub left_margin: i32,
}

/// A rectangle in physical pixels.
#[derive(Debug, Clone, Copy, PartialEq, Eq, Structural)]
pub struct Rect {
    pub x: i32,
    pub y: i32,
    pub w: i32,
    pub h: i32,
}

/// One tab: the terminal's is tab 0, the main windows' follow in their order.
#[derive(Debug, Clone, Copy, PartialEq, Eq, Structural)]
pub struct TabRect {
    pub index: usize,
    pub rect: Rect,
}

/// The height of a strip: a cell, with padding above and below.
pub fn tab_h(cell_h: i32, padding: i32) -> (r: i32)
    requires
        i32::MIN <= padding * 2 <= i32::MAX,
        i32::MIN <= cell_h + padding * 2 <= i32::MAX,
    ensures
        r == cell_h + padding * 2,
{
    cell_h + padding * 2
}

/// The width of a tab whose label has `count` characters: at least one
/// character, with padding on both sides.
pub open spec fn tab_w(count: usize, m: StripMetrics) -> int {
    (if count == 0 {
        1
    } else {
        count as int
    }) * m.cell_w + m.padding * 2
}

/// Where tab `i` begins.
pub open spec fn tab_x(counts: Seq<usize>, m: StripMetrics, i: int) -> int
    decreases i,
{
    if i <= 0 {
        m.left_margin as int
    } else {
        tab_x(counts, m, i - 1) + tab_w(counts[i - 1], m) + m.gap
    }
}

/// Tab `i` of a row that begins at `y`.
pub open spec fn tab_at(counts: Seq<usize>, y: i32, m: StripMetrics, i: int) -> TabRect {
    TabRect {
        index: i as usize,
        rect: Rect {
            x: tab_x(counts, m, i) as i32,
            y,
            w: tab_w(counts[i], m) as i32,
            h: (m.cell_h + m.padding * 2) as i32,
        },
    }
}

/// Whether every position of a row stays in the machine's range.
pub open spec fn row_fits(counts: Seq<usize>, m: StripMetrics) -> bool {
    &&& i32::MIN <= m.padding * 2 <= i32::MAX
    &&& i32::MIN <= m.cell_h + m.padding * 2 <= i32::MAX
    &&& forall|i: int|
        0 <= i < counts.len() ==> {
            let count = #[trigger] counts[i];
            &&& (if count == 0 {
                1
            } else {
                count as int
            }) * m.cell_w <= i32::MAX
            &&& i32::MIN <= tab_w(count, m) <= i32::MAX
            &&& i32::MIN <= tab_w(count, m) + m.gap <= i32::MAX
        }
    &&& forall|i: int| 0 <= i <= counts.len() ==> i32::MIN <= #[trigger] tab_x(counts, m, i) <= i32::MAX
}

/// Lays out a row of tabs from left to right, each as wide as its label needs.
/// `char_counts` holds the labels' lengths.
pub fn tab_row_layout(char_counts: &Vec<usize>, y: i32, m: StripMetrics) -> (r: Vec<TabRect>)
    requires
        row_fits(char_counts@, m),
    ensures
        r@ == Seq::new(char_counts@.len(), |i: int| tab_at(char_counts@, y, m, i)),
{
    let h: i32 = tab_h(m.cell_h, m.padding);
    let mut rects: Vec<TabRect> = Vec::new();
    let mut x: i32 = m.left_margin;
    for i in 0..char_counts.len()
        invariant
            row_fits(char_counts@, m),
            h == m.cell_h + m.padding * 2,
            x == tab_x(char_counts@, m, i as int),
            rects@ == Seq::new(i as nat, |k: int| tab_at(char_counts@, y, m, k)),
    {
        let count: usize = char_counts[i];
        let n: usize = if count == 0 {
            1
        } else {
            count
        };
        proof {
            assert(count == char_counts@[i as int]);
            assert(0 <= n * m.cell_w) by (nonlinear_arith)
                requires
                    0 <= n,
                    0 <= m.cell_w,
            ;
            assert(tab_x(char_counts@, m, i + 1) == tab_x(char_counts@, m, i as int) + tab_w(
                count,
                m,
            ) + m.gap);
        }
        let label_w: i32 = (n * m.cell_w) as i32;
        let w: i32 = label_w + m.padding * 2;
        rects.push(TabRect { index: i, rect: Rect { x, y, w, h } });
        x = x + (w + m.gap);
        assert(rects@ =~= Seq::new((i + 1) as nat, |k: int| tab_at(char_counts@, y, m, k)));
    }
    rects
}

/// Tabs never overlap: with no negative padding and gap, each begins at or
/// beyond the end of every one before it.
pub proof fn law_tabs_do_not_overlap(counts: Seq<usize>, m: StripMetrics, i: int, j: int)
    requires
        0 <= i < j <= counts.len(),
        0 <= m.padding,
        0 <= m.gap,
    ensures
        tab_x(counts, m, i) + tab_w(counts[i], m) + m.gap <= tab_x(counts, m, j),
    decreases j,
{
    if i < j - 1 {
        law_tabs_do_not_overlap(counts, m, i, j - 1);
        let count = counts[j - 1];
        let n = if count == 0 {
            1
        } else {
            count as int
        };
        assert(0 <= n * m.cell_w) by (nonlinear_arith)
            requires
                0 <= n,
                0 <= m.cell_w,
        ;
    }
}

/// The height of a Hut's strip: none without main windows.
pub fn strip_height(hut: &ConsoleHut, m: StripMetrics) -> (r: i32)
    requires
        i32::MIN <= m.padding * 2 <= i32::MAX,
        i32::MIN <= m.cell_h + m.padding * 2 <= i32::MAX,
    ensures
        r == if hut@.windows.len() == 0 {
            0
        } else {
            m.cell_h + m.padding * 2
        },
{
    if hut.main_window_count() == 0 {
        return 0;
    }
    tab_h(m.cell_h, m.padding)
}

/// The label of each tab: the terminal's, then the main windows'.
pub open spec fn tab_labels(titles: Seq<String>) -> Seq<Seq<char>> {
    seq!["Terminal"@] + Seq::new(titles.len(), |i: int| titles[i]@)
}

/// The lengths of the tabs' labels.
pub open spec fn label_lengths(titles: Seq<String>) -> Seq<usize> {
    Seq::new(titles.len() + 1, |i: int| tab_labels(titles)[i].len() as usize)
}

fn label_counts(titles: &Vec<String>) -> (r: Vec<usize>)
    ensures
        r@ == label_lengths(titles@),
{
    let mut counts: Vec<usize> = Vec::new();
    let first = chars_of("Terminal");
    assert(first.len() == first@.len());
    counts.push(first.len());
    for i in 0..titles.len()
        invariant
            counts@.len() == i + 1,
            counts@[0] == "Terminal"@.len() as usize,
            forall|k: int|
                1 <= k <= i ==> #[trigger] counts@[k] == titles@[k - 1]@.len() as usize,
    {
        let chars = chars_of(titles[i].as_str());
        assert(chars.len() == chars@.len());
        counts.push(chars.len());
    }
    assert(counts@ =~= label_lengths(titles@));
    counts
}

/// The layout of a Hut's strip, which begins at row `y`; empty without main
/// windows. `titles` holds the main windows' titles as tabs show them.
pub fn tab_layout(hut: &ConsoleHut, y: i32, titles: &Vec<String>, m: StripMetrics) -> (r: Vec<
    TabRect,
>)
    requires
        titles@.len() == hut@.windows.len(),
        row_fits(label_lengths(titles@), m),
    ensures
        r@ == if hut@.windows.len() == 0 {
            Seq::empty()
        } else {
            Seq::new(
                label_lengths(titles@).len(),
                |i: int| tab_at(label_lengths(titles@), y, m, i),
            )
        },
{
    if hut.main_window_count() == 0 {
        return Vec::new();
    }
    tab_row_layout(&label_counts(titles), y, m)
}

/// The colors of tabs: of text and background, for the active tab and for the
/// others.
#[derive(Debug, Clone, Copy)]
pub struct TabTheme {
    pub tab_active_fg: Rgb,
    pub tab_active_bg: Rgb,
    pub tab_inactive_fg: Rgb,
    pub tab_inactive_bg: Rgb,
}

/// A tab to draw: its rectangle, its label and where that begins, whether it
/// is the active one, its colors, whether its label has to be rendered anew,
/// and whether its background is another than in the frame before.
pub struct TabDraw {
    pub tab: TabRect,
    pub label: String,
    pub active: bool,
    pub fg: Rgb,
    pub bg: Rgb,
    pub text_at: (i32, i32),
    pub stale: bool,
    pub bg_changed: bool,
}

/// The label and state that a cached label was rendered for.
pub struct LabelKey {
    pub label: String,
    pub active: bool,
}

/// The active tab of a Hut.
pub open spec fn active_tab(hut: HutView) -> int {
    if hut.showing_terminal {
        0
    } else {
        1 + hut.active
    }
}

/// Whether a cached label no longer fits.
pub open spec fn label_stale(cached: Option<LabelKey>, label: Seq<char>, active: bool) -> bool {
    match cached {
        Some(key) => !(key.label@ == label && key.active == active),
        None => true,
    }
}

/// Whether `d` is what to draw for tab `i`.
pub open spec fn draws_tab(
    d: TabDraw,
    hut: HutView,
    y: i32,
    titles: Seq<String>,
    cached: Seq<Option<LabelKey>>,
    last: Seq<Option<bool>>,
    m: StripMetrics,
    theme: TabTheme,
    i: int,
) -> bool {
    let label = tab_labels(titles)[i];
    let active = i == active_tab(hut);
    &&& d.tab == tab_at(label_lengths(titles), y, m, i)
    &&& d.label@ == label
    &&& d.active == active
    &&& d.fg == (if active {
        theme.tab_active_fg
    } else {
        theme.tab_inactive_fg
    })
    &&& d.bg == (if active {
        theme.tab_active_bg
    } else {
        theme.tab_inactive_bg
    })
    &&& d.text_at.0 == tab_x(label_lengths(titles), m, i) + m.padding
    &&& d.text_at.1 == y + m.padding
    &&& d.stale == label_stale(cached[i], label, active)
    &&& d.bg_changed == (last[i] != Some(active))
}

/// What to draw for each tab of a Hut's strip, which begins at row `y`. `cached`
/// says what each tab's label was last rendered for, `last` whether its
/// background was last drawn as the active tab's.
pub fn build(
    hut: &ConsoleHut,
    y: i32,
    titles: &Vec<String>,
    cached: &Vec<Option<LabelKey>>,
    last: &Vec<Option<bool>>,
    m: StripMetrics,
    theme: TabTheme,
) -> (r: Vec<TabDraw>)
    requires
        titles@.len() == hut@.windows.len(),
        cached@.len() == titles@.len() + 1,
        last@.len() == titles@.len() + 1,
        row_fits(label_lengths(titles@), m),
        i32::MIN <= y + m.padding <= i32::MAX,
        forall|i: int|
            0 <= i <= titles@.len() ==> i32::MIN <= #[trigger] tab_x(label_lengths(titles@), m, i)
                + m.padding <= i32::MAX,
    ensures
        hut@.windows.len() == 0 ==> r@.len() == 0,
        hut@.windows.len() > 0 ==> r@.len() == titles@.len() + 1,
        forall|i: int|
            0 <= i < r@.len() ==> draws_tab(
                #[trigger] r@[i],
                hut@,
                y,
                titles@,
                cached@,
                last@,
                m,
                theme,
                i,
            ),
{
    let mut draws: Vec<TabDraw> = Vec::new();
    if hut.main_window_count() == 0 {
        return draws;
    }
    let rects = tab_row_layout(&label_counts(titles), y, m);
    let showing = hut.showing_terminal();
    let current: usize = hut.active_main_window_index();
    for i in 0..rects.len()
        invariant
            rects@.len() == titles@.len() + 1,
            cached@.len() == titles@.len() + 1,
            last@.len() == titles@.len() + 1,
            row_fits(label_lengths(titles@), m),
            i32::MIN <= y + m.padding <= i32::MAX,
            forall|i: int|
                0 <= i <= titles@.len() ==> i32::MIN <= #[trigger] tab_x(
                    label_lengths(titles@),
                    m,
                    i,
                ) + m.padding <= i32::MAX,
            showing == hut@.showing_terminal,
            current == hut@.active,
            rects@ == Seq::new(
                label_lengths(titles@).len(),
                |k: int| tab_at(label_lengths(titles@), y, m, k),
            ),
            draws@.len() == i,
            forall|k: int|
                0 <= k < draws@.len() ==> draws_tab(
                    #[trigger] draws@[k],
                    hut@,
                    y,
                    titles@,
                    cached@,
                    last@,
                    m,
                    theme,
                    k,
                ),
    {
        let tab = rects[i];
        assert(tab == tab_at(label_lengths(titles@), y, m, i as int));
        assert(label_lengths(titles@).len() == titles@.len() + 1);
        assert(i32::MIN <= tab_x(label_lengths(titles@), m, i as int) <= i32::MAX);
        let label = if i == 0 {
            copied("Terminal")
        } else {
            copied(titles[i - 1].as_str())
        };
        assert(label@ == tab_labels(titles@)[i as int]);
        let active = if showing {
            i == 0
        } else {
            i > 0 && i - 1 == current
        };
        let stale = match &cached[i] {
            Some(key) => !(str_eq(key.label.as_str(), label.as_str()) && key.active == active),
            None => true,
        };
        let text_at = (tab.rect.x + m.padding, tab.rect.y + m.padding);
        let (fg, bg) = if active {
            (theme.tab_active_fg, theme.tab_active_bg)
        } else {
            (theme.tab_inactive_fg, theme.tab_inactive_bg)
        };
        let bg_changed = match last[i] {
            Some(was) => was != active,
            None => true,
        };
        draws.push(TabDraw { tab, label, active, fg, bg, text_at, stale, bg_changed });
    }
    draws
}

/// A text that is too long keeps its beginning, up to the last place, which an
/// ellipsis takes.
pub proof fn law_shortened_keeps_the_beginning(s: Seq<char>, max: int, i: int)
    requires
        0 < max < s.len(),
        0 <= i < max - 1,
    ensures
        shortened(s, max).len() == max,
        shortened(s, max)[i] == s[i],
        shortened(s, max).last() == '\u{2026}',
        MAX_TITLE_CHARS == 24,
{
}

/// A window goes by its title; by its application's name where it has no
/// title; and by a placeholder where it has neither.
pub proof fn law_what_a_window_is_called(title: Option<String>, app_id: Option<String>)
    ensures
        title is Some ==> label_source(title, app_id) == title->0@,
        title is None && app_id is Some ==> label_source(title, app_id) == app_id->0@,
        title is None && app_id is None ==> label_source(title, app_id) == seq![
            '(',
            'w',
            'i',
            'n',
            'd',
            'o',
            'w',
            ')',
        ],
{
    reveal_strlit("(window)");
    assert("(window)"@ =~= seq!['(', 'w', 'i', 'n', 'd', 'o', 'w', ')']);
}

/// The first tab begins at the margin, and each other one a gap behind the one
/// before it. A tab is as wide as the characters of its label, at least one,
/// with the padding on both sides, and every tab is a cell high with the
/// padding above and below.
pub proof fn law_tabs_follow_one_another(counts: Seq<usize>, y: i32, m: StripMetrics, i: int)
    requires
        row_fits(counts, m),
        0 <= i < counts.len() <= usize::MAX,
    ensures
        ({
            let tab = tab_at(counts, y, m, i);
            &&& tab.index == i
            &&& tab.rect.y == y
            &&& tab.rect.h == m.padding + m.cell_h + m.padding
            &&& counts[i] > 0 ==> tab.rect.w == m.padding + counts[i] * m.cell_w + m.padding
            &&& counts[i] == 0 ==> tab.rect.w == m.padding + m.cell_w + m.padding
            &&& i == 0 ==> tab.rect.x == m.left_margin
            &&& i > 0 ==> {
                let before = tab_at(counts, y, m, i - 1).rect;
                tab.rect.x == before.x + before.w + m.gap
            }
        }),
{
    assert(counts[i] * m.cell_w == counts[i] as int * m.cell_w as int);
    if i > 0 {
        let before = counts[i - 1];
        assert(i32::MIN <= tab_w(before, m) <= i32::MAX);
        assert(i32::MIN <= tab_x(counts, m, i - 1) <= i32::MAX);
    }
    assert(i32::MIN <= tab_x(counts, m, i) <= i32::MAX);
}

/// The terminal's tab comes first, under its own name, then those of the main
/// windows in order, each under its title.
pub proof fn law_terminal_tab_comes_first(titles: Seq<String>, i: int)
    requires
        0 <= i < titles.len(),
    ensures
        tab_labels(titles).len() == titles.len() + 1,
        tab_labels(titles)[0] == seq!['T', 'e', 'r', 'm', 'i', 'n', 'a', 'l'],
        tab_labels(titles)[i + 1] == titles[i]@,
        label_lengths(titles).len() == titles.len() + 1,
        label_lengths(titles)[0] == 8,
        titles[i]@.len() <= usize::MAX ==> label_lengths(titles)[i + 1] == titles[i]@.len(),
{
    reveal_strlit("Terminal");
    assert("Terminal"@ =~= seq!['T', 'e', 'r', 'm', 'i', 'n', 'a', 'l']);
}

/// The active tab is the terminal's while the terminal shows, and else that of
/// the active main window.
pub proof fn law_which_tab_is_active(hut: HutView)
    ensures
        hut.showing_terminal ==> active_tab(hut) == 0,
        !hut.showing_terminal ==> active_tab(hut) == hut.active + 1,
{
}

/// A cached label is kept exactly if it was rendered for the same text in the
/// same state.
pub proof fn law_when_a_label_is_kept(cached: Option<LabelKey>, label: Seq<char>, active: bool)
    ensures
        cached is None ==> label_stale(cached, label, active),
        cached is Some ==> (!label_stale(cached, label, active) <==> cached->0.label@ == label
            && cached->0.active == active),
{
}

/// A tab is drawn where it is laid out, under its own label, which begins the
/// padding in from its corner. Just the active one takes the active colors, and
/// its background counts as changed where it was not drawn so in the frame
/// before.
pub proof fn law_drawn_tab(
    d: TabDraw,
    hut: HutView,
    y: i32,
    titles: Seq<String>,
    cached: Seq<Option<LabelKey>>,
    last: Seq<Option<bool>>,
    m: StripMetrics,
    theme: TabTheme,
    i: int,
)
    requires
        draws_tab(d, hut, y, titles, cached, last, m, theme, i),
        row_fits(label_lengths(titles), m),
        0 <= i <= titles.len() < usize::MAX,
    ensures
        ({
            let shown = if hut.showing_terminal {
                0
            } else {
                hut.active + 1
            };
            &&& d.tab.index == i
            &&& d.tab.rect == tab_at(label_lengths(titles), y, m, i).rect
            &&& i == 0 ==> d.label@ == "Terminal"@
            &&& i > 0 ==> d.label@ == titles[i - 1]@
            &&& d.active <==> i == shown
            &&& i == shown ==> d.fg == theme.tab_active_fg && d.bg == theme.tab_active_bg
            &&& i != shown ==> d.fg == theme.tab_inactive_fg && d.bg == theme.tab_inactive_bg
            &&& d.text_at.0 == d.tab.rect.x + m.padding
            &&& d.text_at.1 == d.tab.rect.y + m.padding
            &&& !d.stale <==> cached[i] is Some && cached[i]->0.label@ == d.label@
                && cached[i]->0.active == d.active
            &&& !d.bg_changed <==> last[i] is Some && last[i]->0 == d.active
        }),
{
    assert(i32::MIN <= tab_x(label_lengths(titles), m, i) <= i32::MAX);
}

} // verus!
