//! Decisions of the interactive viewer: what a key does, how selections
//! cycle through a list, and which list entry a click lands on.
use vstd::prelude::*;

verus! {

/// A key press, as far as the viewer tells keys apart.
#[derive(Clone, Copy, PartialEq, Eq, Structural, Debug)]
pub enum Key {
    Char(char),
    Up,
    Down,
    Left,
    Right,
    Tab,
    BackTab,
    Esc,
    Other,
}

/// What the viewer does in answer to a key.
#[derive(Clone, Copy, PartialEq, Eq, Structural, Debug)]
pub enum ViewerAction {
    Quit,
    PreviousPattern,
    NextPattern,
    NextSetting,
    PreviousSetting,
    /// Change the focused setting by this many steps.
    Adjust(i32),
    ZoomIn,
    ZoomOut,
    ResetView,
    ToggleSolidFill,
    /// Pan by this many steps across and down.
    Pan(i32, i32),
    Screenshot,
}

/// The key bindings of the viewer.
pub open spec fn key_binding(key: Key) -> Option<ViewerAction> {
    match key {
        Key::Esc => Some(ViewerAction::Quit),
        Key::Up => Some(ViewerAction::PreviousPattern),
        Key::Down => Some(ViewerAction::NextPattern),
        Key::Tab => Some(ViewerAction::NextSetting),
        Key::BackTab => Some(ViewerAction::PreviousSetting),
        Key::Left => Some(ViewerAction::Adjust(-1i32)),
        Key::Right => Some(ViewerAction::Adjust(1i32)),
        Key::Other => None,
        Key::Char(c) => {
            if c == 'q' {
                Some(ViewerAction::Quit)
            } else if c == 'k' {
                Some(ViewerAction::PreviousPattern)
            } else if c == 'j' {
                Some(ViewerAction::NextPattern)
            } else if c == 'h' {
                Some(ViewerAction::Adjust(-1i32))
            } else if c == 'l' {
                Some(ViewerAction::Adjust(1i32))
            } else if c == '[' {
                Some(ViewerAction::Adjust(-10i32))
            } else if c == ']' {
                Some(ViewerAction::Adjust(10i32))
            } else if c == '+' || c == '=' {
                Some(ViewerAction::ZoomIn)
            } else if c == '-' || c == '_' {
                Some(ViewerAction::ZoomOut)
            } else if c == '0' {
                Some(ViewerAction::ResetView)
            } else if c == 'f' {
                Some(ViewerAction::ToggleSolidFill)
            } else if c == 'w' {
                Some(ViewerAction::Pan(0i32, -1i32))
            } else if c == 's' {
                Some(ViewerAction::Pan(0i32, 1i32))
            } else if c == 'a' {
                Some(ViewerAction::Pan(-1i32, 0i32))
            } else if c == 'd' {
                Some(ViewerAction::Pan(1i32, 0i32))
            } else if c == 'S' {
                Some(ViewerAction::Screenshot)
            } else {
                None
            }
        },
    }
}

/// The action bound to a key, if any.
pub fn key_action(key: Key) -> (action: Option<ViewerAction>)
    ensures
        action == key_binding(key),
{
    match key {
        Key::Esc => Some(ViewerAction::Quit),
        Key::Up => Some(ViewerAction::PreviousPattern),
        Key::Down => Some(ViewerAction::NextPattern),
        Key::Tab => Some(ViewerAction::NextSetting),
        Key::BackTab => Some(ViewerAction::PreviousSetting),
        Key::Left => Some(ViewerAction::Adjust(-1)),
        Key::Right => Some(ViewerAction::Adjust(1)),
        Key::Other => None,
        Key::Char(c) => match c {
            'q' => Some(ViewerAction::Quit),
            'k' => Some(ViewerAction::PreviousPattern),
            'j' => Some(ViewerAction::NextPattern),
            'h' => Some(ViewerAction::Adjust(-1)),
            'l' => Some(ViewerAction::Adjust(1)),
            '[' => Some(ViewerAction::Adjust(-10)),
            ']' => Some(ViewerAction::Adjust(10)),
            '+' | '=' => Some(ViewerAction::ZoomIn),
            '-' | '_' => Some(ViewerAction::ZoomOut),
            '0' => Some(ViewerAction::ResetView),
            'f' => Some(ViewerAction::ToggleSolidFill),
            'w' => Some(ViewerAction::Pan(0, -1)),
            's' => Some(ViewerAction::Pan(0, 1)),
            'a' => Some(ViewerAction::Pan(-1, 0)),
            'd' => Some(ViewerAction::Pan(1, 0)),
            'S' => Some(ViewerAction::Screenshot),
            _ => None,
        },
    }
}

/// The entry after `selected` in a list of `len`, wrapping round.
pub open spec fn next_entry(selected: Option<usize>, len: usize) -> usize {
    match selected {
        Some(i) => ((i + 1) % (len as int)) as usize,
        None => 0usize,
    }
}

/// The entry before `selected` in a list of `len`, wrapping round.
pub open spec fn previous_entry(selected: Option<usize>, len: usize) -> usize {
    match selected {
        Some(i) => if i == 0 { (len - 1) as usize } else { (i - 1) as usize },
        None => 0usize,
    }
}

/// Stepping forward and then back (or back and then forward) from an entry
/// of the list returns to it, and both steps stay in the list.
pub proof fn lemma_cycle_round_trip(i: usize, len: usize)
    requires
        i < len,
    ensures
        next_entry(Some(i), len) < len,
        previous_entry(Some(i), len) < len,
        previous_entry(Some(next_entry(Some(i), len)), len) == i,
        next_entry(Some(previous_entry(Some(i), len)), len) == i,
{
    let l = len as int;
    if i + 1 < l {
        assert((i + 1) % l == i + 1) by (nonlinear_arith)
            requires
                0 <= i + 1 < l,
        ;
    } else {
        assert((i + 1) % l == 0) by (nonlinear_arith)
            requires
                i + 1 == l,
                l > 0,
        ;
    }
    if i == 0 {
        assert(((l - 1) + 1) % l == 0) by (nonlinear_arith)
            requires
                l > 0,
        ;
    } else {
        assert(((i - 1) + 1) % l == i) by (nonlinear_arith)
            requires
                0 <= i < l,
        ;
    }
}

/// The entry after the selected one in a list of `len`, wrapping round to
/// the first; the first when nothing is selected.
pub fn cycle_next(selected: Option<usize>, len: usize) -> (next: usize)
    requires
        len > 0,
        selected matches Some(i) ==> i < usize::MAX,
    ensures
        next == next_entry(selected, len),
{
    match selected {
        Some(i) => (i + 1) % len,
        None => 0,
    }
}

/// The entry before the selected one in a list of `len`, wrapping round to
/// the last; the first when nothing is selected.
pub fn cycle_previous(selected: Option<usize>, len: usize) -> (previous: usize)
    requires
        len > 0,
    ensures
        previous == previous_entry(selected, len),
{
    match selected {
        Some(i) => {
            if i == 0 {
                len - 1
            } else {
                i - 1
            }
        },
        None => 0,
    }
}

/// A rectangle of terminal cells.
#[derive(Clone, Copy, PartialEq, Eq, Structural, Debug)]
pub struct CellRect {
    pub x: u16,
    pub y: u16,
    pub width: u16,
    pub height: u16,
}

/// The cell `(x, y)` lies in `r`.
pub open spec fn in_rect(r: CellRect, x: int, y: int) -> bool {
    r.x <= x < r.x + r.width && r.y <= y < r.y + r.height
}

/// Whether the cell `(x, y)` lies in the rectangle.
pub fn contains_cell(r: CellRect, x: u16, y: u16) -> (inside: bool)
    ensures
        inside == in_rect(r, x as int, y as int),
{
    (x as u32) >= (r.x as u32) && (x as u32) < (r.x as u32) + (r.width as u32)
        && (y as u32) >= (r.y as u32) && (y as u32) < (r.y as u32) + (r.height as u32)
}

/// The inside of a bordered box: one cell in from each side.
pub open spec fn inner_rect(r: CellRect) -> CellRect {
    CellRect {
        x: (r.x + 1) as u16,
        y: (r.y + 1) as u16,
        width: (if r.width >= 2 { r.width - 2 } else { 0 }) as u16,
        height: (if r.height >= 2 { r.height - 2 } else { 0 }) as u16,
    }
}

/// The list entry under a click at `(x, y)` in a bordered list box whose
/// first visible entry is `offset`: the row within the box's inside,
/// counted from `offset`, or `None` when the click is not inside.
pub fn list_entry_at(area: CellRect, offset: usize, x: u16, y: u16) -> (entry: Option<usize>)
    requires
        area.x < u16::MAX,
        area.y < u16::MAX,
        offset + area.height <= usize::MAX,
    ensures
        entry == (if in_rect(inner_rect(area), x as int, y as int) {
            Some((offset + (y - (area.y + 1))) as usize)
        } else {
            None::<usize>
        }),
{
    let inner = CellRect {
        x: area.x + 1,
        y: area.y + 1,
        width: if area.width >= 2 { area.width - 2 } else { 0 },
        height: if area.height >= 2 { area.height - 2 } else { 0 },
    };
    if contains_cell(inner, x, y) {
        let row = (y - inner.y) as usize;
        Some(offset + row)
    } else {
        None
    }
}

/// The size in pixels of the preview for a panel of the given size in
/// cells: ten pixels per column and twenty per row, and at least 400 by 300.
pub fn render_size(width_cells: u16, height_cells: u16) -> (size: (u32, u32))
    ensures
        size.0 == (if width_cells * 10 > 400 { width_cells * 10 } else { 400 }),
        size.1 == (if height_cells * 20 > 300 { height_cells * 20 } else { 300 }),
{
    let w = width_cells as u32 * 10;
    let h = height_cells as u32 * 20;
    (if w > 400 { w } else { 400 }, if h > 300 { h } else { 300 })
}

} // verus!
