use walk_and_talk::inputs::menu_nav::{
    button_highlights, focused_entity, handle_menu_clicks, handle_menu_hover,
    handle_menu_navigation, locate_button, move_horizontal, move_vertical, take_pending_button,
    unique_sorted_dedup, ButtonInteraction, MenuFocus,
};
use walk_and_talk::inputs::{Action, ActionEvent, ActionValue, ActiveInputDevice, InputContext, MenuAction, PlayerAction};
use walk_and_talk::menu::id::{menu_startup, CHOICE_MENU, DIALOGUE, INGAME_UI, MAIN_MENU, NO_MENU, PAUSE};
use walk_and_talk::menu::layout::{MenuLayout, PendingButtonPress};
use walk_and_talk::menu::{
    apply_menu_change, load_menu, releases_cursor, resolve_menu_startup, ChangeMenu, CurrentMenu,
    GameState, Menu, MenuData, MenuId, MenuRegistry, MenuStartup,
};

fn ev(a: MenuAction) -> ActionEvent {
    ActionEvent { action: Action::Menu(a), value: ActionValue::Full }
}

fn f(row: usize, col: usize) -> MenuFocus {
    MenuFocus { row, col }
}

/// Row 0: a, b, c; row 1: d; row 2: e, f.
fn ragged() -> MenuLayout<&'static str> {
    MenuLayout::new()
        .add_row(vec![(100, "a"), (101, "b"), (102, "c")])
        .add_row(vec![(103, "d")])
        .add_row(vec![(104, "e"), (105, "f")])
}

#[test]
fn dedup_sorts_and_removes_repeats() {
    assert_eq!(unique_sorted_dedup(vec![3, 1, 3, 2, 1]), vec![1, 2, 3]);
    assert_eq!(unique_sorted_dedup(vec![]), Vec::<usize>::new());
}

#[test]
fn layout_building_and_lookup() {
    let l = MenuLayout::new().add_column(vec![(1, 'x'), (2, 'y')]).add_row(vec![(3, 'z'), (4, 'w')]);
    assert_eq!(l.rows.len(), 3);
    assert_eq!(l.coords(), vec![(0, 0), (1, 0), (2, 0), (2, 1)]);
    assert_eq!(l.get(2, 1).map(|e| e.entity), Some(4));
    assert_eq!(l.get(1, 1).map(|e| e.entity), None);
    assert_eq!(l.get(3, 0).map(|e| e.entity), None);
    let mut l = l;
    l.clear();
    assert!(l.coords().is_empty());
    let d: MenuLayout<char> = MenuLayout::default();
    assert!(d.rows.is_empty());
}

#[test]
fn vertical_moves_wrap_and_keep_column() {
    let coords = ragged().coords();
    assert_eq!(move_vertical(f(0, 0), 1, &coords), f(1, 0));
    // Row 1 has no column 2: leftmost column instead.
    assert_eq!(move_vertical(f(0, 2), 1, &coords), f(1, 0));
    // Wraps from the last row to the first.
    assert_eq!(move_vertical(f(2, 1), 1, &coords), f(0, 1));
    assert_eq!(move_vertical(f(0, 1), -1, &coords), f(2, 1));
    // A focus on no row counts from the first row.
    assert_eq!(move_vertical(f(9, 0), 1, &coords), f(1, 0));
    // Empty layout: nothing moves.
    assert_eq!(move_vertical(f(4, 4), 1, &vec![]), f(4, 4));
}

#[test]
fn vertical_down_then_up_returns_to_row() {
    let coords = ragged().coords();
    let start = f(2, 1);
    let there = move_vertical(start, 1, &coords);
    assert_eq!(move_vertical(there, -1, &coords).row, start.row);
}

#[test]
fn horizontal_moves_within_row_and_wrap() {
    let coords = ragged().coords();
    assert_eq!(move_horizontal(f(0, 0), 1, &coords), f(0, 1));
    assert_eq!(move_horizontal(f(0, 2), 1, &coords), f(0, 0));
    assert_eq!(move_horizontal(f(0, 0), -1, &coords), f(0, 2));
    // Row 1 has one column: move over all columns, to the topmost row holding it.
    assert_eq!(move_horizontal(f(1, 0), 1, &coords), f(0, 1));
}

#[test]
fn horizontal_single_column_does_not_move() {
    let coords = MenuLayout::new().add_column(vec![(1, ()), (2, ())]).coords();
    assert_eq!(move_horizontal(f(1, 0), 1, &coords), f(1, 0));
}

#[test]
fn navigation_applies_actions_in_order() {
    let l = ragged();
    let mut focus = f(0, 0);
    let mut pending = PendingButtonPress::default();
    let events = vec![
        ev(MenuAction::Right),
        ev(MenuAction::Down),
        ev(MenuAction::Back),
        ActionEvent { action: Action::Player(PlayerAction::Jump), value: ActionValue::Full },
        ev(MenuAction::Select),
        ev(MenuAction::Up),
    ];
    handle_menu_navigation(&events, &mut focus, &l, &mut pending);
    // Right -> (0,1); Down -> (1,0); Select marks (1,0); Up -> (0,0).
    assert_eq!(pending.0, Some((1, 0)));
    assert_eq!(focus, f(0, 0));
}

#[test]
fn navigation_on_empty_layout_changes_nothing() {
    let l: MenuLayout<()> = MenuLayout::new();
    let mut focus = f(2, 3);
    let mut pending = PendingButtonPress::default();
    handle_menu_navigation(&vec![ev(MenuAction::Down), ev(MenuAction::Select)], &mut focus, &l, &mut pending);
    assert_eq!(focus, f(2, 3));
    assert_eq!(pending.0, None);
}

#[test]
fn pending_button_is_taken_once() {
    let l = ragged();
    let mut pending = PendingButtonPress(Some((2, 1)));
    assert_eq!(take_pending_button(&mut pending, &l), Some(&"f"));
    assert_eq!(pending.0, None);
    assert_eq!(take_pending_button(&mut pending, &l), None);
    let mut pending = PendingButtonPress(Some((1, 1)));
    assert_eq!(take_pending_button(&mut pending, &l), None);
    assert_eq!(pending.0, None);
}

#[test]
fn locate_finds_last_match() {
    let l = MenuLayout::new().add_row(vec![(7, ()), (8, ())]).add_row(vec![(7, ())]);
    assert_eq!(locate_button(&l, 7), Some((1, 0)));
    assert_eq!(locate_button(&l, 8), Some((0, 1)));
    assert_eq!(locate_button(&l, 9), None);
}

#[test]
fn clicks_focus_and_queue() {
    let l = ragged();
    let mut focus = f(0, 0);
    let mut pending = PendingButtonPress::default();
    let reports = vec![
        (104, ButtonInteraction::Hovered),
        (105, ButtonInteraction::Pressed),
        (999, ButtonInteraction::Pressed),
        (101, ButtonInteraction::Untouched),
    ];
    handle_menu_clicks(&reports, &l, &mut focus, &mut pending);
    assert_eq!(focus, f(2, 1));
    assert_eq!(pending.0, Some((2, 1)));
}

#[test]
fn hover_moves_focus_only() {
    let l = ragged();
    let mut focus = f(0, 0);
    handle_menu_hover(&vec![(103, ButtonInteraction::Hovered), (102, ButtonInteraction::Pressed)], &l, &mut focus);
    assert_eq!(focus, f(1, 0));
}

#[test]
fn highlight_follows_focus() {
    let l = ragged();
    assert_eq!(focused_entity(&l, f(0, 2)), Some(102));
    assert_eq!(focused_entity(&l, f(1, 2)), None);
    assert_eq!(button_highlights(&l, f(0, 2), &vec![100, 102, 7]), vec![false, true, false]);
    assert_eq!(button_highlights(&l, f(5, 5), &vec![100, 102]), vec![false, false]);
}

#[test]
fn registry_finds_registered_menus() {
    let reg = MenuRegistry::new()
        .register(MenuId(PAUSE), MenuData { spawn: "pause", startup: vec![MenuStartup::SetGameState(GameState::Paused)] })
        .register(MenuId(DIALOGUE), MenuData { spawn: "dialogue", startup: vec![] });
    assert_eq!(reg.get(MenuId(PAUSE)).map(|d| d.spawn), Some("pause"));
    assert!(reg.get(MenuId(MAIN_MENU)).is_none());
    let reg = reg.register(MenuId(PAUSE), MenuData { spawn: "pause2", startup: vec![] });
    assert_eq!(reg.get(MenuId(PAUSE)).map(|d| d.spawn), Some("pause2"));
    assert_eq!(reg.get(MenuId(DIALOGUE)).map(|d| d.spawn), Some("dialogue"));
}

#[test]
fn startup_last_setting_wins() {
    let e = resolve_menu_startup(&vec![
        MenuStartup::SetGameState(GameState::Paused),
        MenuStartup::SetInputContext(InputContext::Menu),
        MenuStartup::SetGameState(GameState::Dialogue),
    ]);
    assert_eq!(e.game_state, Some(GameState::Dialogue));
    assert_eq!(e.input_context, Some(InputContext::Menu));
    let e = resolve_menu_startup(&vec![MenuStartup::SetInputContext(InputContext::Game)]);
    assert_eq!(e.game_state, None);
    assert_eq!(e.input_context, Some(InputContext::Game));
}

#[test]
fn loading_a_menu() {
    let reg = MenuRegistry::new().register(
        MenuId(CHOICE_MENU),
        MenuData {
            spawn: 5u8,
            startup: vec![
                MenuStartup::SetGameState(GameState::Paused),
                MenuStartup::SetInputContext(InputContext::Menu),
            ],
        },
    );
    let l = load_menu(&reg, MenuId(CHOICE_MENU)).unwrap();
    assert_eq!(*l.spawn, 5);
    assert_eq!(l.effects.game_state, Some(GameState::Paused));
    assert_eq!(l.effects.input_context, Some(InputContext::Menu));
    assert!(load_menu(&reg, MenuId(NO_MENU)).is_none());
}

#[test]
fn last_menu_request_wins() {
    let mut current = CurrentMenu(MenuId(MAIN_MENU));
    assert_eq!(apply_menu_change(&mut current, &vec![]), None);
    assert_eq!(current.0, MenuId(MAIN_MENU));
    let r = apply_menu_change(&mut current, &vec![ChangeMenu(MenuId(PAUSE)), ChangeMenu(MenuId(INGAME_UI))]);
    assert_eq!(r, Some(MenuId(INGAME_UI)));
    assert_eq!(current.0, MenuId(INGAME_UI));
}

#[test]
fn cursor_released_only_for_keyboard() {
    assert!(releases_cursor(ActiveInputDevice::Keyboard));
    assert!(!releases_cursor(ActiveInputDevice::Gamepad));
    assert_eq!(GameState::default(), GameState::Playing);
}

struct PauseScreen;

impl Menu<&'static str> for PauseScreen {
    fn id() -> MenuId {
        MenuId(PAUSE)
    }

    fn data() -> MenuData<&'static str> {
        MenuData { spawn: "pause screen", startup: menu_startup(PAUSE) }
    }
}

#[test]
fn register_menu_uses_the_menus_own_id() {
    let reg = MenuRegistry::new()
        .register(MenuId(MAIN_MENU), MenuData { spawn: "title", startup: vec![] })
        .register_menu::<PauseScreen>();
    assert_eq!(reg.get(MenuId(PAUSE)).map(|d| d.spawn), Some("pause screen"));
    assert_eq!(reg.get(MenuId(MAIN_MENU)).map(|d| d.spawn), Some("title"));
    assert!(reg.get(MenuId(DIALOGUE)).is_none());
}

#[test]
fn menus_that_stop_play_take_menu_input() {
    let e = resolve_menu_startup(&menu_startup(PAUSE));
    assert_eq!((e.game_state, e.input_context), (Some(GameState::Paused), Some(InputContext::Menu)));
    let e = resolve_menu_startup(&menu_startup(CHOICE_MENU));
    assert_eq!((e.game_state, e.input_context), (Some(GameState::Paused), Some(InputContext::Menu)));
    let e = resolve_menu_startup(&menu_startup(DIALOGUE));
    assert_eq!((e.game_state, e.input_context), (Some(GameState::Dialogue), Some(InputContext::Menu)));
    let e = resolve_menu_startup(&menu_startup(INGAME_UI));
    assert_eq!((e.game_state, e.input_context), (Some(GameState::Playing), Some(InputContext::Game)));
    let e = resolve_menu_startup(&menu_startup(MAIN_MENU));
    assert_eq!((e.game_state, e.input_context), (None, Some(InputContext::Menu)));
    let e = resolve_menu_startup(&menu_startup(NO_MENU));
    assert_eq!((e.game_state, e.input_context), (None, Some(InputContext::Game)));
    assert!(menu_startup(99).is_empty());
}
