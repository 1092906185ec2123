use std::collections::HashMap;

use walk_and_talk::inputs::bindings::{
    axis_key, binding_allowed, contains_code, filter_digital_bindings, process_axis_bindings,
    process_digital_bindings, process_held_timed, process_repeat_on_hold, translate_gamepad,
    translate_keyboard, ButtonSnapshot, InputMode,
};
use walk_and_talk::inputs::detect::{detect_active_device, GamepadSignal};
use walk_and_talk::inputs::loader::pick_bindings;
use walk_and_talk::inputs::{
    Action, ActionEvent, ActionValue, ActiveGamepad, ActiveInputDevice, AxisDirection,
    InputBindings, InputContext, InputHoldState, MenuAction, PlayerAction,
};

const KEY_W: u64 = 10;
const KEY_SPACE: u64 = 11;
const KEY_UP: u64 = 12;
const KEY_ENTER: u64 = 13;

fn snap(jp: &[u64], p: &[u64], jr: &[u64]) -> ButtonSnapshot {
    ButtonSnapshot { just_pressed: jp.to_vec(), pressed: p.to_vec(), just_released: jr.to_vec() }
}

fn full(action: Action) -> ActionEvent {
    ActionEvent { action, value: ActionValue::Full }
}

fn jump_held(since: u64, now: u64, max_duration: u64) -> ActionEvent {
    ActionEvent {
        action: Action::Player(PlayerAction::JumpHeld),
        value: ActionValue::HoldRemaining { since, now, max_duration },
    }
}

fn sample_bindings() -> InputBindings {
    InputBindings {
        keyboard: vec![
            (KEY_W, Action::Player(PlayerAction::MoveForward), InputMode::Held),
            (KEY_SPACE, Action::Player(PlayerAction::Jump), InputMode::HeldTimed { max_duration: 500_000 }),
            (KEY_UP, Action::Menu(MenuAction::Up), InputMode::RepeatOnHold { initial_delay: 400_000, repeat_interval: 100_000 }),
            (KEY_ENTER, Action::Menu(MenuAction::Select), InputMode::JustPressed),
        ],
        gamepad_buttons: vec![
            (1, Action::Player(PlayerAction::Jump), InputMode::JustPressed),
            (2, Action::Menu(MenuAction::Select), InputMode::JustPressed),
        ],
        gamepad_axes: vec![
            (0, AxisDirection::Positive, Action::Player(PlayerAction::MoveRight)),
            (1, AxisDirection::Negative, Action::Menu(MenuAction::Down)),
        ],
    }
}

#[test]
fn context_allows_only_its_family() {
    assert!(binding_allowed(InputContext::Game, Action::Player(PlayerAction::Jump)));
    assert!(!binding_allowed(InputContext::Game, Action::Menu(MenuAction::Select)));
    assert!(binding_allowed(InputContext::Menu, Action::Menu(MenuAction::Select)));
    assert!(!binding_allowed(InputContext::Menu, Action::Player(PlayerAction::Jump)));
}

#[test]
fn filter_keeps_order_and_drops_other_family() {
    let b = sample_bindings();
    let game = filter_digital_bindings(InputContext::Game, &b.keyboard);
    assert_eq!(game.iter().map(|x| x.0).collect::<Vec<_>>(), vec![KEY_W, KEY_SPACE]);
    let menu = filter_digital_bindings(InputContext::Menu, &b.keyboard);
    assert_eq!(menu.iter().map(|x| x.0).collect::<Vec<_>>(), vec![KEY_UP, KEY_ENTER]);
}

#[test]
fn contains_code_finds_members() {
    assert!(contains_code(&vec![3, 5, 7], 5));
    assert!(!contains_code(&vec![3, 5, 7], 4));
    assert!(!contains_code(&vec![], 4));
}

#[test]
fn held_and_just_pressed_modes() {
    let bindings = vec![
        (KEY_W, Action::Player(PlayerAction::MoveForward), InputMode::Held),
        (KEY_ENTER, Action::Menu(MenuAction::Select), InputMode::JustPressed),
    ];
    let mut hold = HashMap::new();
    let mut events = Vec::new();
    process_digital_bindings(InputContext::Game, &bindings, &snap(&[], &[KEY_W, KEY_ENTER], &[]), &mut hold, 7, &mut events);
    assert_eq!(events, vec![full(Action::Player(PlayerAction::MoveForward))]);
    let mut events = Vec::new();
    process_digital_bindings(InputContext::Game, &bindings, &snap(&[KEY_ENTER], &[KEY_ENTER], &[]), &mut hold, 8, &mut events);
    assert_eq!(events, vec![full(Action::Menu(MenuAction::Select))]);
    assert!(hold.is_empty());
}

#[test]
fn held_timed_reports_remaining_hold() {
    let mut hold = HashMap::new();
    let mut events = Vec::new();
    let jump = Action::Player(PlayerAction::Jump);
    // Press at 1 s: the action fires and the hold clock starts.
    process_held_timed(InputContext::Game, KEY_SPACE, 500_000, true, true, false, &mut hold, jump, 1_000_000, &mut events);
    assert_eq!(events, vec![full(jump), jump_held(1_000_000, 1_000_000, 500_000)]);
    assert_eq!(hold.get(&KEY_SPACE), Some(&1_000_000));
    // Still held 0.2 s later: within the limit.
    let mut events = Vec::new();
    process_held_timed(InputContext::Game, KEY_SPACE, 500_000, false, true, false, &mut hold, jump, 1_200_000, &mut events);
    assert_eq!(events, vec![jump_held(1_000_000, 1_200_000, 500_000)]);
    // Held exactly to the limit: nothing more.
    let mut events = Vec::new();
    process_held_timed(InputContext::Game, KEY_SPACE, 500_000, false, true, false, &mut hold, jump, 1_500_000, &mut events);
    assert!(events.is_empty());
    // Released: the clock is cleared.
    let mut events = Vec::new();
    process_held_timed(InputContext::Game, KEY_SPACE, 500_000, false, false, true, &mut hold, jump, 1_600_000, &mut events);
    assert!(events.is_empty());
    assert!(hold.get(&KEY_SPACE).is_none());
}

#[test]
fn held_timed_without_clock_reports_nothing() {
    let mut hold = HashMap::new();
    let mut events = Vec::new();
    process_held_timed(InputContext::Game, KEY_SPACE, 500_000, false, true, false, &mut hold, Action::Player(PlayerAction::Jump), 5, &mut events);
    assert!(events.is_empty());
}

#[test]
fn repeat_on_hold_fires_at_interval_ends() {
    let up = Action::Menu(MenuAction::Up);
    let mut hold = HashMap::new();
    let mut events = Vec::new();
    process_repeat_on_hold(KEY_UP, 400_000, 100_000, true, true, false, &mut hold, up, 0, &mut events);
    assert_eq!(events, vec![full(up)]);
    // Before the initial delay: nothing.
    let mut events = Vec::new();
    process_repeat_on_hold(KEY_UP, 400_000, 100_000, false, true, false, &mut hold, up, 300_000, &mut events);
    assert!(events.is_empty());
    // 0.45 s after the delay started counting: half an interval in, nothing.
    let mut events = Vec::new();
    process_repeat_on_hold(KEY_UP, 400_000, 100_000, false, true, false, &mut hold, up, 450_000, &mut events);
    assert!(events.is_empty());
    // Within 1 ms of the end of an interval: a repeat.
    let mut events = Vec::new();
    process_repeat_on_hold(KEY_UP, 400_000, 100_000, false, true, false, &mut hold, up, 599_500, &mut events);
    assert_eq!(events, vec![full(up)]);
    // Released: clock cleared.
    let mut events = Vec::new();
    process_repeat_on_hold(KEY_UP, 400_000, 100_000, false, false, true, &mut hold, up, 700_000, &mut events);
    assert!(events.is_empty());
    assert!(hold.is_empty());
}

#[test]
fn repeat_with_zero_interval_fires_every_frame_after_delay() {
    let up = Action::Menu(MenuAction::Up);
    let mut hold = HashMap::new();
    hold.insert(KEY_UP, 0u64);
    let mut events = Vec::new();
    process_repeat_on_hold(KEY_UP, 400_000, 0, false, true, false, &mut hold, up, 400_001, &mut events);
    assert_eq!(events, vec![full(up)]);
    let mut events = Vec::new();
    process_repeat_on_hold(KEY_UP, 400_000, 0, false, true, false, &mut hold, up, 400_000, &mut events);
    assert!(events.is_empty());
}

#[test]
fn timed_binding_in_menu_reports_no_jump_hold() {
    let select = Action::Menu(MenuAction::Select);
    let bindings = vec![(KEY_ENTER, select, InputMode::HeldTimed { max_duration: 100 })];
    let mut hold = HashMap::new();
    let mut events = Vec::new();
    process_digital_bindings(InputContext::Menu, &bindings, &snap(&[KEY_ENTER], &[KEY_ENTER], &[]), &mut hold, 50, &mut events);
    assert_eq!(events, vec![full(select)]);
    assert_eq!(hold.get(&KEY_ENTER), Some(&50));
}

#[test]
fn held_timed_in_menu_keeps_clock_but_reports_no_hold() {
    let mut hold = HashMap::new();
    let mut events = Vec::new();
    let jump = Action::Player(PlayerAction::Jump);
    process_held_timed(InputContext::Menu, KEY_SPACE, 500_000, true, true, false, &mut hold, jump, 1_000, &mut events);
    assert_eq!(events, vec![full(jump)]);
    assert_eq!(hold.get(&KEY_SPACE), Some(&1_000));
    let mut events = Vec::new();
    process_held_timed(InputContext::Game, KEY_SPACE, 500_000, false, true, false, &mut hold, jump, 2_000, &mut events);
    assert_eq!(events, vec![jump_held(1_000, 2_000, 500_000)]);
}

#[test]
fn press_starts_and_release_clears_clock_in_one_frame() {
    let bindings = vec![(KEY_SPACE, Action::Player(PlayerAction::Jump), InputMode::HeldTimed { max_duration: 100 })];
    let mut hold = HashMap::new();
    let mut events = Vec::new();
    process_digital_bindings(InputContext::Game, &bindings, &snap(&[KEY_SPACE], &[], &[KEY_SPACE]), &mut hold, 9, &mut events);
    assert!(hold.is_empty());
    assert_eq!(events, vec![full(Action::Player(PlayerAction::Jump))]);
}

#[test]
fn keyboard_translation_in_game_and_menu() {
    let b = sample_bindings();
    let mut state = InputHoldState::default();
    let keys = snap(&[KEY_SPACE, KEY_ENTER], &[KEY_W, KEY_SPACE, KEY_ENTER], &[]);
    let events = translate_keyboard(InputContext::Game, &b, &keys, &mut state, 2_000_000);
    assert_eq!(
        events,
        vec![
            full(Action::Player(PlayerAction::MoveForward)),
            full(Action::Player(PlayerAction::Jump)),
            jump_held(2_000_000, 2_000_000, 500_000),
        ]
    );
    assert_eq!(state.hold_start.get(&KEY_SPACE), Some(&2_000_000));
    let mut state = InputHoldState::default();
    let events = translate_keyboard(InputContext::Menu, &b, &keys, &mut state, 2_000_000);
    assert_eq!(events, vec![full(Action::Menu(MenuAction::Select))]);
}

#[test]
fn gamepad_axes_in_game_fire_every_frame() {
    let b = sample_bindings();
    let mut state = InputHoldState::default();
    let buttons = snap(&[], &[], &[]);
    for _ in 0..2 {
        let events = translate_gamepad(InputContext::Game, &b, &buttons, &vec![Some(700_000), Some(-900_000)], &mut state, 0);
        assert_eq!(events, vec![ActionEvent { action: Action::Player(PlayerAction::MoveRight), value: ActionValue::Magnitude(700_000) }]);
    }
    let events = translate_gamepad(InputContext::Game, &b, &buttons, &vec![Some(200_000), None], &mut state, 0);
    assert!(events.is_empty());
}

#[test]
fn gamepad_axes_in_menu_fire_once_per_push() {
    let b = sample_bindings();
    let mut state = InputHoldState::default();
    let buttons = snap(&[], &[], &[]);
    let down = ActionEvent { action: Action::Menu(MenuAction::Down), value: ActionValue::Magnitude(900_000) };
    let events = translate_gamepad(InputContext::Menu, &b, &buttons, &vec![Some(900_000), Some(-900_000)], &mut state, 0);
    assert_eq!(events, vec![down]);
    assert_eq!(state.axis_triggered.get(&axis_key(1, AxisDirection::Negative)), Some(&true));
    // Held: no repeat.
    let events = translate_gamepad(InputContext::Menu, &b, &buttons, &vec![None, Some(-900_000)], &mut state, 0);
    assert!(events.is_empty());
    // Eased off but outside the dead zone: still no repeat.
    let events = translate_gamepad(InputContext::Menu, &b, &buttons, &vec![None, Some(-100_000)], &mut state, 0);
    assert!(events.is_empty());
    // Back in the dead zone: re-armed.
    let events = translate_gamepad(InputContext::Menu, &b, &buttons, &vec![None, Some(-10_000)], &mut state, 0);
    assert!(events.is_empty());
    assert!(state.axis_triggered.is_empty());
    let events = translate_gamepad(InputContext::Menu, &b, &buttons, &vec![None, Some(-900_000)], &mut state, 0);
    assert_eq!(events, vec![down]);
}

#[test]
fn gamepad_buttons_then_axes() {
    let b = sample_bindings();
    let mut state = InputHoldState::default();
    let buttons = snap(&[1, 2], &[1, 2], &[]);
    let events = translate_gamepad(InputContext::Game, &b, &buttons, &vec![Some(300_000), None], &mut state, 0);
    assert_eq!(
        events,
        vec![
            full(Action::Player(PlayerAction::Jump)),
            ActionEvent { action: Action::Player(PlayerAction::MoveRight), value: ActionValue::Magnitude(300_000) },
        ]
    );
}

#[test]
fn axis_processing_skips_other_family() {
    let bindings = vec![(4, AxisDirection::Positive, Action::Menu(MenuAction::Right))];
    let mut trig = HashMap::new();
    let mut events = Vec::new();
    process_axis_bindings(InputContext::Game, &bindings, &vec![Some(1_000_000)], &mut trig, &mut events);
    assert!(events.is_empty());
    assert!(trig.is_empty());
}

#[test]
fn axis_keys_are_distinct_per_direction() {
    assert_eq!(axis_key(3, AxisDirection::Positive), 6);
    assert_eq!(axis_key(3, AxisDirection::Negative), 7);
}

#[test]
fn keyboard_activity_selects_keyboard() {
    let mut active = ActiveGamepad(Some(42));
    let next = detect_active_device(true, &vec![], &mut active);
    assert_eq!(next, Some(ActiveInputDevice::Keyboard));
    assert_eq!(active.0, None);
}

#[test]
fn gamepad_activity_selects_gamepad() {
    let mut active = ActiveGamepad(None);
    let signals = vec![
        GamepadSignal::Axis { entity: 5, value: 50_000 },
        GamepadSignal::Button { entity: 7 },
        GamepadSignal::Other,
    ];
    let next = detect_active_device(true, &signals, &mut active);
    assert_eq!(next, Some(ActiveInputDevice::Gamepad));
    assert_eq!(active.0, Some(7));
}

#[test]
fn small_axis_motion_changes_nothing() {
    let mut active = ActiveGamepad(Some(3));
    let next = detect_active_device(false, &vec![GamepadSignal::Axis { entity: 9, value: -100_000 }], &mut active);
    assert_eq!(next, None);
    assert_eq!(active.0, Some(3));
    let next = detect_active_device(false, &vec![GamepadSignal::Axis { entity: 9, value: -100_001 }], &mut active);
    assert_eq!(next, Some(ActiveInputDevice::Gamepad));
    assert_eq!(active.0, Some(9));
}

#[test]
fn saved_bindings_win_over_shipped() {
    let mut saved = InputBindings::default();
    saved.keyboard.push((1, Action::Player(PlayerAction::Jump), InputMode::Held));
    let shipped = sample_bindings();
    let (b, codes) = pick_bindings(Some((saved, "saved")), Some((shipped, "shipped")), "none");
    assert_eq!(b.keyboard.len(), 1);
    assert_eq!(codes, "saved");
    let (b, codes) = pick_bindings(None, Some((sample_bindings(), "shipped")), "none");
    assert_eq!(b.keyboard.len(), 4);
    assert_eq!(codes, "shipped");
    let (b, codes) = pick_bindings::<&str>(None, None, "none");
    assert!(b.keyboard.is_empty() && b.gamepad_buttons.is_empty() && b.gamepad_axes.is_empty());
    assert_eq!(codes, "none");
}

#[test]
fn defaults() {
    assert_eq!(ActiveInputDevice::default(), ActiveInputDevice::Keyboard);
    assert_eq!(InputContext::default(), InputContext::Game);
    let s = InputHoldState::default();
    assert!(s.hold_start.is_empty() && s.gamepad_hold_start.is_empty() && s.axis_triggered.is_empty());
}

#[test]
fn refused_and_game_axes_leave_latches_alone() {
    let b = sample_bindings();
    let buttons = snap(&[], &[], &[]);
    let mut state = InputHoldState::default();
    // In a menu the player's axis is refused; the menu's axis latches.
    let events = translate_gamepad(InputContext::Menu, &b, &buttons, &vec![Some(900_000), Some(-900_000)], &mut state, 0);
    assert_eq!(events.len(), 1);
    assert_eq!(state.axis_triggered.get(&axis_key(0, AxisDirection::Positive)), None);
    assert_eq!(state.axis_triggered.get(&axis_key(1, AxisDirection::Negative)), Some(&true));
    // In the game no latch is set or cleared.
    let before = state.axis_triggered.clone();
    let events = translate_gamepad(InputContext::Game, &b, &buttons, &vec![Some(900_000), Some(0)], &mut state, 0);
    assert_eq!(events.len(), 1);
    assert_eq!(state.axis_triggered, before);
}
