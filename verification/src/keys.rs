use vstd::prelude::*;

verus! {

/// Step by which `[` and `]` scroll sideways.
pub const HORIZONTAL_SCROLL_STEP: usize = 8;

/// The views of the interactive viewer.
#[derive(Clone, Copy, Debug, PartialEq, Eq, Structural)]
pub enum ViewType {
    Summary,
    Containment,
    Dominators,
    Retainers,
    Diff,
    Contexts,
    History,
    Statistics,
    Timeline,
    Help,
}

/// A key, without its modifiers.
#[derive(Clone, Copy, Debug, PartialEq, Eq, Structural)]
pub enum KeyCode {
    Char(char),
    Up,
    Down,
    Left,
    Right,
    Home,
    End,
    PageUp,
    PageDown,
    Tab,
    BackTab,
    Enter,
    Other,
}

/// A key press: the key and whether Control was held.
#[derive(Clone, Copy, Debug, PartialEq, Eq, Structural)]
pub struct KeyInput {
    pub code: KeyCode,
    pub ctrl: bool,
}

/// Where the current view stands: its cursor row (tree views), its first
/// shown row, the rows a page holds, and its sideways scroll.
#[derive(Clone, Copy, Debug, PartialEq, Eq, Structural)]
pub struct ViewState {
    pub view: ViewType,
    pub cursor: usize,
    pub scroll_offset: usize,
    pub page_height: usize,
    pub horizontal_scroll: usize,
}

/// The row under the cursor: whether it has children, is expanded, has a
/// key to list its children by, names a node, and the row of its parent.
#[derive(Clone, Copy, Debug)]
pub struct RowInfo {
    pub has_children: bool,
    pub is_expanded: bool,
    pub has_children_key: bool,
    pub has_node: bool,
    pub parent_row: Option<usize>,
}

/// What else the viewer knows when a key comes: how many rows the view
/// has, whether a diff is loaded, how many diffs there are and which one
/// is shown, and the row under the cursor.
#[derive(Clone, Copy, Debug)]
pub struct KeyContext {
    pub row_count: usize,
    pub has_diff: bool,
    pub diff_count: usize,
    pub diff_index: usize,
    pub row: Option<RowInfo>,
}

/// What the viewer does besides moving within the view.
#[derive(Clone, Copy, Debug, PartialEq, Eq, Structural)]
pub enum KeyAction {
    Nothing,
    Quit,
    SetView(ViewType),
    StartSearch,
    Expand,
    Collapse,
    ShowAll,
    ShowUnfiltered,
    ShowRetainers,
    ShowInSummary,
    ShowInDominators,
    ShowInContainment,
    PushHistory,
    MoreEdges,
    FewerEdges,
    NextSummaryFilter,
    PrevSummaryFilter,
    NextEdgePage,
    PrevEdgePage,
    EditEdgeFilter,
    /// Expand the row first (when the flag says so), then queue a retainer
    /// plan for its children (when the second flag says so).
    RetainerPlan(bool, bool),
    QueueReachable,
    QueueReachableWithChildren,
    SwitchDiff(usize),
}

/// Help, Statistics and Timeline scroll as a whole; the other views move a
/// cursor over rows.
pub open spec fn is_scroll_view(v: ViewType) -> bool {
    v == ViewType::Help || v == ViewType::Statistics || v == ViewType::Timeline
}

/// The view after `v` in Tab order; Diff is skipped without a diff.
pub open spec fn tab_view(v: ViewType, has_diff: bool) -> ViewType {
    match v {
        ViewType::Summary => ViewType::Containment,
        ViewType::Containment => ViewType::Dominators,
        ViewType::Dominators => ViewType::Retainers,
        ViewType::Retainers => if has_diff { ViewType::Diff } else { ViewType::Contexts },
        ViewType::Diff => ViewType::Contexts,
        ViewType::Contexts => ViewType::History,
        ViewType::History => ViewType::Statistics,
        ViewType::Statistics => ViewType::Timeline,
        ViewType::Timeline => ViewType::Help,
        ViewType::Help => ViewType::Summary,
    }
}

/// The view before `v` in Tab order; Diff is skipped without a diff.
pub open spec fn back_tab_view(v: ViewType, has_diff: bool) -> ViewType {
    match v {
        ViewType::Summary => ViewType::Help,
        ViewType::Help => ViewType::Timeline,
        ViewType::Timeline => ViewType::Statistics,
        ViewType::Statistics => ViewType::History,
        ViewType::History => ViewType::Contexts,
        ViewType::Contexts => if has_diff { ViewType::Diff } else { ViewType::Retainers },
        ViewType::Containment => ViewType::Summary,
        ViewType::Dominators => ViewType::Containment,
        ViewType::Retainers => ViewType::Dominators,
        ViewType::Diff => ViewType::Retainers,
    }
}

/// The view a digit or `?` selects, if any.
pub open spec fn digit_view(c: char, has_diff: bool) -> Option<ViewType> {
    if c == '1' {
        Some(ViewType::Summary)
    } else if c == '2' {
        Some(ViewType::Containment)
    } else if c == '3' {
        Some(ViewType::Dominators)
    } else if c == '4' {
        Some(ViewType::Retainers)
    } else if c == '5' && has_diff {
        Some(ViewType::Diff)
    } else if c == '6' {
        Some(ViewType::Contexts)
    } else if c == '7' {
        Some(ViewType::History)
    } else if c == '8' {
        Some(ViewType::Statistics)
    } else if c == '9' {
        Some(ViewType::Timeline)
    } else if c == '?' {
        Some(ViewType::Help)
    } else {
        None
    }
}

/// The key pages: PageUp, PageDown, Control-b (up) or Control-f (down);
/// `Some(true)` pages down.
pub open spec fn page_direction(key: KeyInput) -> Option<bool> {
    match key.code {
        KeyCode::PageUp => Some(false),
        KeyCode::PageDown => Some(true),
        KeyCode::Char(c) => if key.ctrl && c == 'b' {
            Some(false)
        } else if key.ctrl && c == 'f' {
            Some(true)
        } else {
            None
        },
        _ => None,
    }
}

/// Rows one page moves: the page height less one, at least one.
pub open spec fn page_step(s: ViewState) -> int {
    if s.page_height <= 2 {
        1
    } else {
        s.page_height - 1
    }
}

/// Paging: a scroll view moves its first shown row by a page (down
/// saturating at `usize::MAX`, up at 0); a tree view with rows moves its
/// first shown row by a page, no further down than the last full page,
/// and keeps the cursor at the same place in the page, below the row
/// count.
pub open spec fn paged(s: ViewState, down: bool, row_count: nat) -> ViewState {
    let step = page_step(s);
    if is_scroll_view(s.view) {
        let off = if down {
            if s.scroll_offset + step > usize::MAX { usize::MAX as int } else { s.scroll_offset + step }
        } else {
            if s.scroll_offset < step { 0 } else { s.scroll_offset - step }
        };
        ViewState { scroll_offset: off as usize, ..s }
    } else if row_count == 0 {
        s
    } else {
        let ph: int = if s.page_height == 0 { 1 } else { s.page_height as int };
        let rel0: int = if s.cursor < s.scroll_offset { 0 } else { s.cursor - s.scroll_offset };
        let rel: int = if rel0 < ph - 1 { rel0 } else { ph - 1 };
        let max_scroll: int = if row_count < ph { 0 } else { row_count - ph };
        let new_scroll: int = if down {
            if s.scroll_offset + step < max_scroll { s.scroll_offset + step } else { max_scroll }
        } else {
            if s.scroll_offset < step { 0 } else { s.scroll_offset - step }
        };
        let c: int = if new_scroll + rel < row_count - 1 { new_scroll + rel } else { row_count - 1 };
        ViewState { scroll_offset: new_scroll as usize, cursor: c as usize, ..s }
    }
}

/// The action a key takes on the row under the cursor, when there is one
/// and it names a node.
pub open spec fn node_action(ctx: KeyContext, a: KeyAction) -> KeyAction {
    match ctx.row {
        Some(row) => if row.has_node { a } else { KeyAction::Nothing },
        None => KeyAction::Nothing,
    }
}

/// What a key does in normal mode: the new view state and the action.
pub open spec fn key_outcome(s: ViewState, key: KeyInput, ctx: KeyContext) -> (ViewState, KeyAction) {
    let rc = ctx.row_count as nat;
    let scroll = is_scroll_view(s.view);
    if page_direction(key) is Some {
        (paged(s, page_direction(key)->0, rc), KeyAction::Nothing)
    } else {
        match key.code {
            KeyCode::Char(c) => if c == 'q' {
                (s, KeyAction::Quit)
            } else if digit_view(c, ctx.has_diff) is Some {
                let v = digit_view(c, ctx.has_diff)->0;
                (ViewState { view: v, ..s }, KeyAction::SetView(v))
            } else if c == '/' {
                (s, KeyAction::StartSearch)
            } else if c == 'g' {
                if scroll { (ViewState { scroll_offset: 0, ..s }, KeyAction::Nothing) } else { (ViewState { cursor: 0, ..s }, KeyAction::Nothing) }
            } else if c == 'G' {
                if scroll {
                    (ViewState { scroll_offset: usize::MAX, ..s }, KeyAction::Nothing)
                } else {
                    (ViewState { cursor: if rc == 0 { 0 } else { (rc - 1) as usize }, ..s }, KeyAction::Nothing)
                }
            } else if c == 'a' {
                (s, KeyAction::ShowAll)
            } else if c == 'v' {
                (s, KeyAction::ShowUnfiltered)
            } else if c == 'r' {
                (s, node_action(ctx, KeyAction::ShowRetainers))
            } else if c == 's' {
                (s, node_action(ctx, KeyAction::ShowInSummary))
            } else if c == 'd' {
                (s, node_action(ctx, KeyAction::ShowInDominators))
            } else if c == 'c' {
                (s, node_action(ctx, KeyAction::ShowInContainment))
            } else if c == 'm' {
                (s, node_action(ctx, KeyAction::PushHistory))
            } else if c == '+' || c == '=' {
                (s, KeyAction::MoreEdges)
            } else if c == '-' {
                (s, KeyAction::FewerEdges)
            } else if c == 'u' {
                (s, if s.view == ViewType::Summary { KeyAction::NextSummaryFilter } else { KeyAction::Nothing })
            } else if c == 'U' {
                (s, if s.view == ViewType::Summary { KeyAction::PrevSummaryFilter } else { KeyAction::Nothing })
            } else if c == 'n' {
                (s, KeyAction::NextEdgePage)
            } else if c == 'p' {
                (s, KeyAction::PrevEdgePage)
            } else if c == 'f' {
                (s, KeyAction::EditEdgeFilter)
            } else if c == 'k' {
                (s, match ctx.row {
                    Some(row) => if s.view == ViewType::Retainers && row.has_node {
                        KeyAction::RetainerPlan(!row.is_expanded && row.has_children, row.has_children_key)
                    } else {
                        KeyAction::Nothing
                    },
                    None => KeyAction::Nothing,
                })
            } else if c == 'R' {
                (s, node_action(ctx, KeyAction::QueueReachable))
            } else if c == 'A' {
                (s, node_action(ctx, KeyAction::QueueReachableWithChildren))
            } else if c == '[' {
                (ViewState {
                    horizontal_scroll: if s.horizontal_scroll < HORIZONTAL_SCROLL_STEP { 0 } else { (s.horizontal_scroll - HORIZONTAL_SCROLL_STEP) as usize },
                    ..s
                }, KeyAction::Nothing)
            } else if c == ']' {
                (ViewState {
                    horizontal_scroll: if s.horizontal_scroll + HORIZONTAL_SCROLL_STEP > usize::MAX { usize::MAX } else { (s.horizontal_scroll + HORIZONTAL_SCROLL_STEP) as usize },
                    ..s
                }, KeyAction::Nothing)
            } else if c == '{' {
                (s, if s.view == ViewType::Diff && ctx.diff_count > 1 {
                    KeyAction::SwitchDiff(if ctx.diff_index == 0 { (ctx.diff_count - 1) as usize } else { (ctx.diff_index - 1) as usize })
                } else {
                    KeyAction::Nothing
                })
            } else if c == '}' {
                (s, if s.view == ViewType::Diff && ctx.diff_count > 1 {
                    KeyAction::SwitchDiff(((ctx.diff_index + 1) % (ctx.diff_count as int)) as usize)
                } else {
                    KeyAction::Nothing
                })
            } else {
                (s, KeyAction::Nothing)
            },
            KeyCode::Tab => {
                let v = tab_view(s.view, ctx.has_diff);
                (ViewState { view: v, ..s }, KeyAction::SetView(v))
            },
            KeyCode::BackTab => {
                let v = back_tab_view(s.view, ctx.has_diff);
                (ViewState { view: v, ..s }, KeyAction::SetView(v))
            },
            KeyCode::Up => if scroll {
                (ViewState { scroll_offset: if s.scroll_offset == 0 { 0 } else { (s.scroll_offset - 1) as usize }, ..s }, KeyAction::Nothing)
            } else {
                (ViewState { cursor: if s.cursor == 0 { 0 } else { (s.cursor - 1) as usize }, ..s }, KeyAction::Nothing)
            },
            KeyCode::Down => if scroll {
                (ViewState { scroll_offset: if s.scroll_offset == usize::MAX { usize::MAX } else { (s.scroll_offset + 1) as usize }, ..s }, KeyAction::Nothing)
            } else {
                (ViewState { cursor: if s.cursor + 1 < rc { (s.cursor + 1) as usize } else { s.cursor }, ..s }, KeyAction::Nothing)
            },
            KeyCode::Home => if scroll { (ViewState { scroll_offset: 0, ..s }, KeyAction::Nothing) } else { (ViewState { cursor: 0, ..s }, KeyAction::Nothing) },
            KeyCode::End => if scroll {
                (ViewState { scroll_offset: usize::MAX, ..s }, KeyAction::Nothing)
            } else {
                (ViewState { cursor: if rc == 0 { 0 } else { (rc - 1) as usize }, ..s }, KeyAction::Nothing)
            },
            KeyCode::Enter => (s, match ctx.row {
                Some(row) => if row.has_children {
                    if row.is_expanded { KeyAction::Collapse } else { KeyAction::Expand }
                } else {
                    KeyAction::Nothing
                },
                None => KeyAction::Nothing,
            }),
            KeyCode::Right => (s, match ctx.row {
                Some(row) => if row.has_children && !row.is_expanded { KeyAction::Expand } else { KeyAction::Nothing },
                None => KeyAction::Nothing,
            }),
            KeyCode::Left => match ctx.row {
                Some(row) => if row.is_expanded {
                    (s, KeyAction::Collapse)
                } else {
                    match row.parent_row {
                        Some(p) => (ViewState { cursor: p, ..s }, KeyAction::Nothing),
                        None => (s, KeyAction::Nothing),
                    }
                },
                None => (s, KeyAction::Nothing),
            },
            _ => (s, KeyAction::Nothing),
        }
    }
}

/// The view after `v` in Tab order.
pub fn next_tab_view(v: ViewType, has_diff: bool) -> (r: ViewType)
    ensures
        r == tab_view(v, has_diff),
{
    match v {
        ViewType::Summary => ViewType::Containment,
        ViewType::Containment => ViewType::Dominators,
        ViewType::Dominators => ViewType::Retainers,
        ViewType::Retainers => if has_diff { ViewType::Diff } else { ViewType::Contexts },
        ViewType::Diff => ViewType::Contexts,
        ViewType::Contexts => ViewType::History,
        ViewType::History => ViewType::Statistics,
        ViewType::Statistics => ViewType::Timeline,
        ViewType::Timeline => ViewType::Help,
        ViewType::Help => ViewType::Summary,
    }
}

/// The view before `v` in Tab order.
pub fn prev_tab_view(v: ViewType, has_diff: bool) -> (r: ViewType)
    ensures
        r == back_tab_view(v, has_diff),
{
    match v {
        ViewType::Summary => ViewType::Help,
        ViewType::Help => ViewType::Timeline,
        ViewType::Timeline => ViewType::Statistics,
        ViewType::Statistics => ViewType::History,
        ViewType::History => ViewType::Contexts,
        ViewType::Contexts => if has_diff { ViewType::Diff } else { ViewType::Retainers },
        ViewType::Containment => ViewType::Summary,
        ViewType::Dominators => ViewType::Containment,
        ViewType::Retainers => ViewType::Dominators,
        ViewType::Diff => ViewType::Retainers,
    }
}

fn scroll_view(v: ViewType) -> (r: bool)
    ensures
        r == is_scroll_view(v),
{
    match v {
        ViewType::Help | ViewType::Statistics | ViewType::Timeline => true,
        _ => false,
    }
}

/// Moves a view by a page (see `paged`).
pub fn page(s: &ViewState, down: bool, row_count: usize) -> (r: ViewState)
    requires
        s.scroll_offset + 2 * s.page_height + 2 <= usize::MAX,
    ensures
        r == paged(*s, down, row_count as nat),
{
    let step: usize = if s.page_height <= 2 { 1 } else { s.page_height - 1 };
    if scroll_view(s.view) {
        let off = if down { s.scroll_offset.saturating_add(step) } else { s.scroll_offset.saturating_sub(step) };
        ViewState { scroll_offset: off, ..*s }
    } else if row_count == 0 {
        *s
    } else {
        let ph: usize = if s.page_height == 0 { 1 } else { s.page_height };
        let rel0: usize = s.cursor.saturating_sub(s.scroll_offset);
        let rel: usize = if rel0 < ph - 1 { rel0 } else { ph - 1 };
        let max_scroll: usize = row_count.saturating_sub(ph);
        let new_scroll: usize = if down {
            if s.scroll_offset + step < max_scroll { s.scroll_offset + step } else { max_scroll }
        } else {
            s.scroll_offset.saturating_sub(step)
        };
        let c: usize = if new_scroll + rel < row_count - 1 { new_scroll + rel } else { row_count - 1 };
        ViewState { scroll_offset: new_scroll, cursor: c, ..*s }
    }
}

fn on_node(ctx: &KeyContext, a: KeyAction) -> (r: KeyAction)
    ensures
        r == node_action(*ctx, a),
{
    match ctx.row {
        Some(row) => if row.has_node { a } else { KeyAction::Nothing },
        None => KeyAction::Nothing,
    }
}

/// What a key does in normal mode: the new state of the current view and
/// the action the viewer takes (see `key_outcome`).
pub fn next_view_state(s: &ViewState, key: KeyInput, ctx: &KeyContext) -> (r: (ViewState, KeyAction))
    requires
        s.scroll_offset + 2 * s.page_height + 2 <= usize::MAX,
        ctx.diff_count == 0 || ctx.diff_index < ctx.diff_count,
    ensures
        r == key_outcome(*s, key, *ctx),
{
    let rc = ctx.row_count;
    let scroll = scroll_view(s.view);
    let down = match key.code {
        KeyCode::PageUp => Some(false),
        KeyCode::PageDown => Some(true),
        KeyCode::Char(c) => if key.ctrl && c == 'b' {
            Some(false)
        } else if key.ctrl && c == 'f' {
            Some(true)
        } else {
            None
        },
        _ => None,
    };
    if let Some(d) = down {
        return (page(s, d, rc), KeyAction::Nothing);
    }
    let st = *s;
    match key.code {
        KeyCode::Char(c) => {
            if c == 'q' {
                (st, KeyAction::Quit)
            } else if c == '1' || c == '2' || c == '3' || c == '4' || (c == '5' && ctx.has_diff) || c == '6' || c == '7' || c == '8'
                || c == '9' || c == '?' {
                let v = if c == '1' {
                    ViewType::Summary
                } else if c == '2' {
                    ViewType::Containment
                } else if c == '3' {
                    ViewType::Dominators
                } else if c == '4' {
                    ViewType::Retainers
                } else if c == '5' {
                    ViewType::Diff
                } else if c == '6' {
                    ViewType::Contexts
                } else if c == '7' {
                    ViewType::History
                } else if c == '8' {
                    ViewType::Statistics
                } else if c == '9' {
                    ViewType::Timeline
                } else {
                    ViewType::Help
                };
                (ViewState { view: v, ..st }, KeyAction::SetView(v))
            } else if c == '/' {
                (st, KeyAction::StartSearch)
            } else if c == 'g' {
                if scroll { (ViewState { scroll_offset: 0, ..st }, KeyAction::Nothing) } else { (ViewState { cursor: 0, ..st }, KeyAction::Nothing) }
            } else if c == 'G' {
                if scroll {
                    (ViewState { scroll_offset: usize::MAX, ..st }, KeyAction::Nothing)
                } else {
                    (ViewState { cursor: rc.saturating_sub(1), ..st }, KeyAction::Nothing)
                }
            } else if c == 'a' {
                (st, KeyAction::ShowAll)
            } else if c == 'v' {
                (st, KeyAction::ShowUnfiltered)
            } else if c == 'r' {
                (st, on_node(ctx, KeyAction::ShowRetainers))
            } else if c == 's' {
                (st, on_node(ctx, KeyAction::ShowInSummary))
            } else if c == 'd' {
                (st, on_node(ctx, KeyAction::ShowInDominators))
            } else if c == 'c' {
                (st, on_node(ctx, KeyAction::ShowInContainment))
            } else if c == 'm' {
                (st, on_node(ctx, KeyAction::PushHistory))
            } else if c == '+' || c == '=' {
                (st, KeyAction::MoreEdges)
            } else if c == '-' {
                (st, KeyAction::FewerEdges)
            } else if c == 'u' {
                (st, if st.view == ViewType::Summary { KeyAction::NextSummaryFilter } else { KeyAction::Nothing })
            } else if c == 'U' {
                (st, if st.view == ViewType::Summary { KeyAction::PrevSummaryFilter } else { KeyAction::Nothing })
            } else if c == 'n' {
                (st, KeyAction::NextEdgePage)
            } else if c == 'p' {
                (st, KeyAction::PrevEdgePage)
            } else if c == 'f' {
                (st, KeyAction::EditEdgeFilter)
            } else if c == 'k' {
                (st, match ctx.row {
                    Some(row) => if st.view == ViewType::Retainers && row.has_node {
                        KeyAction::RetainerPlan(!row.is_expanded && row.has_children, row.has_children_key)
                    } else {
                        KeyAction::Nothing
                    },
                    None => KeyAction::Nothing,
                })
            } else if c == 'R' {
                (st, on_node(ctx, KeyAction::QueueReachable))
            } else if c == 'A' {
                (st, on_node(ctx, KeyAction::QueueReachableWithChildren))
            } else if c == '[' {
                (ViewState { horizontal_scroll: st.horizontal_scroll.saturating_sub(HORIZONTAL_SCROLL_STEP), ..st }, KeyAction::Nothing)
            } else if c == ']' {
                (ViewState { horizontal_scroll: st.horizontal_scroll.saturating_add(HORIZONTAL_SCROLL_STEP), ..st }, KeyAction::Nothing)
            } else if c == '{' {
                (st, if st.view == ViewType::Diff && ctx.diff_count > 1 {
                    KeyAction::SwitchDiff(if ctx.diff_index == 0 { ctx.diff_count - 1 } else { ctx.diff_index - 1 })
                } else {
                    KeyAction::Nothing
                })
            } else if c == '}' {
                (st, if st.view == ViewType::Diff && ctx.diff_count > 1 {
                    KeyAction::SwitchDiff((ctx.diff_index + 1) % ctx.diff_count)
                } else {
                    KeyAction::Nothing
                })
            } else {
                (st, KeyAction::Nothing)
            }
        },
        KeyCode::Tab => {
            let v = next_tab_view(st.view, ctx.has_diff);
            (ViewState { view: v, ..st }, KeyAction::SetView(v))
        },
        KeyCode::BackTab => {
            let v = prev_tab_view(st.view, ctx.has_diff);
            (ViewState { view: v, ..st }, KeyAction::SetView(v))
        },
        KeyCode::Up => if scroll {
            (ViewState { scroll_offset: st.scroll_offset.saturating_sub(1), ..st }, KeyAction::Nothing)
        } else {
            (ViewState { cursor: st.cursor.saturating_sub(1), ..st }, KeyAction::Nothing)
        },
        KeyCode::Down => if scroll {
            (ViewState { scroll_offset: st.scroll_offset.saturating_add(1), ..st }, KeyAction::Nothing)
        } else {
            let c = if st.cursor < rc && st.cursor + 1 < rc { st.cursor + 1 } else { st.cursor };
            (ViewState { cursor: c, ..st }, KeyAction::Nothing)
        },
        KeyCode::Home => if scroll { (ViewState { scroll_offset: 0, ..st }, KeyAction::Nothing) } else { (ViewState { cursor: 0, ..st }, KeyAction::Nothing) },
        KeyCode::End => if scroll {
            (ViewState { scroll_offset: usize::MAX, ..st }, KeyAction::Nothing)
        } else {
            (ViewState { cursor: rc.saturating_sub(1), ..st }, KeyAction::Nothing)
        },
        KeyCode::Enter => (st, match ctx.row {
            Some(row) => if row.has_children {
                if row.is_expanded { KeyAction::Collapse } else { KeyAction::Expand }
            } else {
                KeyAction::Nothing
            },
            None => KeyAction::Nothing,
        }),
        KeyCode::Right => (st, match ctx.row {
            Some(row) => if row.has_children && !row.is_expanded { KeyAction::Expand } else { KeyAction::Nothing },
            None => KeyAction::Nothing,
        }),
        KeyCode::Left => match ctx.row {
            Some(row) => if row.is_expanded {
                (st, KeyAction::Collapse)
            } else {
                match row.parent_row {
                    Some(p) => (ViewState { cursor: p, ..st }, KeyAction::Nothing),
                    None => (st, KeyAction::Nothing),
                }
            },
            None => (st, KeyAction::Nothing),
        },
        _ => (st, KeyAction::Nothing),
    }
}

/// Tab and BackTab undo each other, on every view that can be shown (Diff
/// only with a diff).
pub proof fn lemma_tab_round_trip(v: ViewType, has_diff: bool)
    requires
        v != ViewType::Diff || has_diff,
    ensures
        back_tab_view(tab_view(v, has_diff), has_diff) == v,
        tab_view(back_tab_view(v, has_diff), has_diff) == v,
        tab_view(v, has_diff) != ViewType::Diff || has_diff,
{
}

/// Only `q` quits, and it leaves the view as it was.
pub proof fn lemma_quit_only_on_q(s: ViewState, key: KeyInput, ctx: KeyContext)
    ensures
        key_outcome(s, key, ctx).1 == KeyAction::Quit <==> key.code == KeyCode::Char('q'),
        key_outcome(s, key, ctx).1 == KeyAction::Quit ==> key_outcome(s, key, ctx).0 == s,
{
}

/// In a view with rows, the cursor stays on a row: below the row count, or
/// at 0 when there are none, as long as it was there before and the row
/// under it names a parent row that is there.
pub proof fn lemma_cursor_stays_on_rows(s: ViewState, key: KeyInput, ctx: KeyContext)
    requires
        !is_scroll_view(s.view),
        s.cursor < ctx.row_count || s.cursor == 0,
        ctx.row matches Some(row) ==> (row.parent_row matches Some(p) ==> p < ctx.row_count),
    ensures
        key_outcome(s, key, ctx).0.cursor < ctx.row_count || key_outcome(s, key, ctx).0.cursor == 0,
{
}

/// A key press of character `c` without Control.
pub open spec fn plain(c: char) -> KeyInput {
    KeyInput { code: KeyCode::Char(c), ctrl: false }
}

/// The row keys act on the node the row names, whatever the view and the
/// rest of the state, and leave the state as it was: `r` shows its
/// retainers, `s` shows it in the summary, `d` in the dominators view, `c`
/// in the containment view, `m` keeps it in the history, `R` queues its
/// reachable size and `A` that of it and its children. On a row that names
/// no node, or with no row, they do nothing.
pub proof fn lemma_row_keys(s: ViewState, ctx: KeyContext)
    ensures
        ({
            let on_node = ctx.row matches Some(row) && row.has_node;
            let act = |a: KeyAction| if on_node { a } else { KeyAction::Nothing };
            &&& key_outcome(s, plain('r'), ctx) == (s, act(KeyAction::ShowRetainers))
            &&& key_outcome(s, plain('s'), ctx) == (s, act(KeyAction::ShowInSummary))
            &&& key_outcome(s, plain('d'), ctx) == (s, act(KeyAction::ShowInDominators))
            &&& key_outcome(s, plain('c'), ctx) == (s, act(KeyAction::ShowInContainment))
            &&& key_outcome(s, plain('m'), ctx) == (s, act(KeyAction::PushHistory))
            &&& key_outcome(s, plain('R'), ctx) == (s, act(KeyAction::QueueReachable))
            &&& key_outcome(s, plain('A'), ctx) == (s, act(KeyAction::QueueReachableWithChildren))
        }),
{
}

/// The list keys act whatever the row and leave the state as it was: `/`
/// starts a search, `a` shows all of a paged list, `v` shows retainers
/// unfiltered, `+` and `=` show more edges, `-` fewer, `n` and `p` page
/// forward and back, `f` edits the edge filter.
pub proof fn lemma_list_keys(s: ViewState, ctx: KeyContext)
    ensures
        key_outcome(s, plain('/'), ctx) == (s, KeyAction::StartSearch),
        key_outcome(s, plain('a'), ctx) == (s, KeyAction::ShowAll),
        key_outcome(s, plain('v'), ctx) == (s, KeyAction::ShowUnfiltered),
        key_outcome(s, plain('+'), ctx) == (s, KeyAction::MoreEdges),
        key_outcome(s, plain('='), ctx) == (s, KeyAction::MoreEdges),
        key_outcome(s, plain('-'), ctx) == (s, KeyAction::FewerEdges),
        key_outcome(s, plain('n'), ctx) == (s, KeyAction::NextEdgePage),
        key_outcome(s, plain('p'), ctx) == (s, KeyAction::PrevEdgePage),
        key_outcome(s, plain('f'), ctx) == (s, KeyAction::EditEdgeFilter),
{
}

/// The digit keys and `?` switch to their view, and change nothing else:
/// 1 Summary, 2 Containment, 3 Dominators, 4 Retainers, 5 Diff (only with a
/// diff; without, nothing), 6 Contexts, 7 History, 8 Statistics, 9
/// Timeline, `?` Help.
pub proof fn lemma_view_keys(s: ViewState, ctx: KeyContext)
    ensures
        ({
            let to = |v: ViewType| (ViewState { view: v, ..s }, KeyAction::SetView(v));
            &&& key_outcome(s, plain('1'), ctx) == to(ViewType::Summary)
            &&& key_outcome(s, plain('2'), ctx) == to(ViewType::Containment)
            &&& key_outcome(s, plain('3'), ctx) == to(ViewType::Dominators)
            &&& key_outcome(s, plain('4'), ctx) == to(ViewType::Retainers)
            &&& key_outcome(s, plain('5'), ctx) == if ctx.has_diff { to(ViewType::Diff) } else { (s, KeyAction::Nothing) }
            &&& key_outcome(s, plain('6'), ctx) == to(ViewType::Contexts)
            &&& key_outcome(s, plain('7'), ctx) == to(ViewType::History)
            &&& key_outcome(s, plain('8'), ctx) == to(ViewType::Statistics)
            &&& key_outcome(s, plain('9'), ctx) == to(ViewType::Timeline)
            &&& key_outcome(s, plain('?'), ctx) == to(ViewType::Help)
        }),
{
}

} // verus!
