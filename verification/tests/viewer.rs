use rat_king::viewer::{
    contains_cell, cycle_next, cycle_previous, key_action, list_entry_at, render_size, CellRect, Key,
    ViewerAction,
};

#[test]
fn key_bindings() {
    assert_eq!(key_action(Key::Char('q')), Some(ViewerAction::Quit));
    assert_eq!(key_action(Key::Esc), Some(ViewerAction::Quit));
    assert_eq!(key_action(Key::Up), Some(ViewerAction::PreviousPattern));
    assert_eq!(key_action(Key::Char('k')), Some(ViewerAction::PreviousPattern));
    assert_eq!(key_action(Key::Down), Some(ViewerAction::NextPattern));
    assert_eq!(key_action(Key::Char('j')), Some(ViewerAction::NextPattern));
    assert_eq!(key_action(Key::Tab), Some(ViewerAction::NextSetting));
    assert_eq!(key_action(Key::BackTab), Some(ViewerAction::PreviousSetting));
    assert_eq!(key_action(Key::Left), Some(ViewerAction::Adjust(-1)));
    assert_eq!(key_action(Key::Char('l')), Some(ViewerAction::Adjust(1)));
    assert_eq!(key_action(Key::Char('[')), Some(ViewerAction::Adjust(-10)));
    assert_eq!(key_action(Key::Char(']')), Some(ViewerAction::Adjust(10)));
    assert_eq!(key_action(Key::Char('=')), Some(ViewerAction::ZoomIn));
    assert_eq!(key_action(Key::Char('_')), Some(ViewerAction::ZoomOut));
    assert_eq!(key_action(Key::Char('0')), Some(ViewerAction::ResetView));
    assert_eq!(key_action(Key::Char('f')), Some(ViewerAction::ToggleSolidFill));
    assert_eq!(key_action(Key::Char('w')), Some(ViewerAction::Pan(0, -1)));
    assert_eq!(key_action(Key::Char('d')), Some(ViewerAction::Pan(1, 0)));
    assert_eq!(key_action(Key::Char('S')), Some(ViewerAction::Screenshot));
    assert_eq!(key_action(Key::Char('x')), None);
    assert_eq!(key_action(Key::Other), None);
}

#[test]
fn cycling_wraps_both_ways() {
    assert_eq!(cycle_next(Some(3), 5), 4);
    assert_eq!(cycle_next(Some(4), 5), 0);
    assert_eq!(cycle_next(None, 5), 0);
    assert_eq!(cycle_next(Some(7), 5), 3);
    assert_eq!(cycle_previous(Some(0), 5), 4);
    assert_eq!(cycle_previous(Some(3), 5), 2);
    assert_eq!(cycle_previous(None, 5), 0);
}

#[test]
fn clicks_in_a_bordered_list() {
    let area = CellRect { x: 2, y: 3, width: 10, height: 6 };
    // The first row inside the border is entry `offset`.
    assert_eq!(list_entry_at(area, 0, 3, 4), Some(0));
    assert_eq!(list_entry_at(area, 7, 5, 6), Some(9));
    // Border cells and cells outside are not entries.
    assert_eq!(list_entry_at(area, 0, 2, 4), None);
    assert_eq!(list_entry_at(area, 0, 3, 3), None);
    assert_eq!(list_entry_at(area, 0, 11, 4), None);
    assert_eq!(list_entry_at(area, 0, 3, 8), None);
    assert_eq!(list_entry_at(CellRect { x: 0, y: 0, width: 1, height: 1 }, 0, 0, 0), None);
}

#[test]
fn cell_containment() {
    let area = CellRect { x: 2, y: 3, width: 10, height: 6 };
    assert!(contains_cell(area, 2, 3));
    assert!(contains_cell(area, 11, 8));
    assert!(!contains_cell(area, 12, 8));
    assert!(!contains_cell(area, 11, 9));
    assert!(!contains_cell(area, 1, 3));
}

#[test]
fn preview_size_from_cells() {
    assert_eq!(render_size(100, 50), (1000, 1000));
    assert_eq!(render_size(10, 5), (400, 300));
    assert_eq!(render_size(40, 15), (400, 300));
    assert_eq!(render_size(41, 16), (410, 320));
    assert_eq!(render_size(u16::MAX, u16::MAX), (655350, 1310700));
}
