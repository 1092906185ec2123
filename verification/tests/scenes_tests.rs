use std::collections::HashMap;

use walk_and_talk::inputs::{Action, ActionEvent, ActionValue, MenuAction, PlayerAction};
use walk_and_talk::menu::id::{INGAME_UI, MAIN_MENU, PAUSE};
use walk_and_talk::menu::{GameState, MenuId};
use walk_and_talk::scenes::id::{level_startup, BLANK, LEVEL1};
use walk_and_talk::scenes::prefabs::button_light::{last_activation_for, listener_states};
use walk_and_talk::scenes::prefabs::floor_button::{on_button_collision, ButtonTriggered};
use walk_and_talk::scenes::prefabs::npc::{on_npc_collision, NpcRecolor};
use walk_and_talk::scenes::prefabs::player::{
    handle_player_actions, take_pending_interaction, ActiveInteractible, PendingInteraction,
    LAYER_DEFAULT, LAYER_NPC, LAYER_PLAYER, LAYER_SENSOR,
};
use walk_and_talk::scenes::{
    apply_level_change, load_level, resolve_level_startup, ChangeLevel, CurrentLevel, Level,
    LevelData, LevelId, LevelRegistry, LevelStartup,
};

fn act(a: PlayerAction) -> ActionEvent {
    ActionEvent { action: Action::Player(a), value: ActionValue::Full }
}

#[test]
fn level_registry_and_loading() {
    let reg = LevelRegistry::new()
        .register(
            LevelId(BLANK),
            LevelData {
                spawn: "blank",
                startup: vec![
                    LevelStartup::SetGameState(GameState::Paused),
                    LevelStartup::ShowMenu(MenuId(MAIN_MENU)),
                ],
            },
        )
        .register(
            LevelId(LEVEL1),
            LevelData {
                spawn: "level1",
                startup: vec![
                    LevelStartup::SetGameState(GameState::Playing),
                    LevelStartup::ShowMenu(MenuId(INGAME_UI)),
                ],
            },
        );
    let l = load_level(&reg, LevelId(LEVEL1)).unwrap();
    assert_eq!(*l.spawn, "level1");
    assert_eq!(l.effects.game_state, Some(GameState::Playing));
    assert_eq!(l.effects.menus, vec![MenuId(INGAME_UI)]);
    assert!(load_level(&reg, LevelId(7)).is_none());
    assert_eq!(reg.get(LevelId(BLANK)).map(|d| d.spawn), Some("blank"));
}

#[test]
fn level_startup_collects_menus_in_order() {
    let e = resolve_level_startup(&vec![
        LevelStartup::ShowMenu(MenuId(1)),
        LevelStartup::SetGameState(GameState::Paused),
        LevelStartup::ShowMenu(MenuId(2)),
        LevelStartup::SetGameState(GameState::Dialogue),
    ]);
    assert_eq!(e.game_state, Some(GameState::Dialogue));
    assert_eq!(e.menus, vec![MenuId(1), MenuId(2)]);
    let e = resolve_level_startup(&vec![]);
    assert_eq!(e.game_state, None);
    assert!(e.menus.is_empty());
}

#[test]
fn last_level_request_wins() {
    let mut current = CurrentLevel(LevelId(BLANK));
    assert_eq!(apply_level_change(&mut current, &vec![]), None);
    assert_eq!(current.0, LevelId(BLANK));
    assert_eq!(
        apply_level_change(&mut current, &vec![ChangeLevel(LevelId(3)), ChangeLevel(LevelId(LEVEL1))]),
        Some(LevelId(LEVEL1))
    );
    assert_eq!(current.0, LevelId(LEVEL1));
}

#[test]
fn floor_buttons_report_changes_only() {
    let mut state = HashMap::new();
    let ev = on_button_collision(&vec![(0, false), (1, true)], &mut state);
    assert_eq!(ev, vec![ButtonTriggered { id: 1, activated: true }]);
    let ev = on_button_collision(&vec![(0, false), (1, true)], &mut state);
    assert!(ev.is_empty());
    let ev = on_button_collision(&vec![(1, false), (0, true)], &mut state);
    assert_eq!(
        ev,
        vec![ButtonTriggered { id: 1, activated: false }, ButtonTriggered { id: 0, activated: true }]
    );
    assert_eq!(state.get(&1), Some(&false));
    assert_eq!(state.get(&0), Some(&true));
}

#[test]
fn lights_follow_last_event() {
    let events = vec![
        ButtonTriggered { id: 0, activated: true },
        ButtonTriggered { id: 1, activated: true },
        ButtonTriggered { id: 0, activated: false },
    ];
    assert_eq!(last_activation_for(&events, 0), Some(false));
    assert_eq!(last_activation_for(&events, 1), Some(true));
    assert_eq!(last_activation_for(&events, 2), None);
    assert_eq!(listener_states(&vec![1, 0, 2], &events), vec![Some(true), Some(false), None]);
}

#[test]
fn npc_focus_changes() {
    let mut active = ActiveInteractible(None);
    let r = on_npc_collision(&vec![(10, false), (11, true), (12, true)], &mut active);
    assert_eq!(active.0, Some(11));
    assert_eq!(r, NpcRecolor { sleep: None, wake: Some(11) });
    // Same NPC: nothing recolored.
    let r = on_npc_collision(&vec![(10, false), (11, true)], &mut active);
    assert_eq!(r, NpcRecolor { sleep: None, wake: None });
    // Walked away.
    let r = on_npc_collision(&vec![(10, false), (11, false)], &mut active);
    assert_eq!(active.0, None);
    assert_eq!(r, NpcRecolor { sleep: Some(11), wake: None });
    // Previous interactible is no longer a sensor: it is not recolored.
    let mut active = ActiveInteractible(Some(99));
    let r = on_npc_collision(&vec![(10, true)], &mut active);
    assert_eq!(r, NpcRecolor { sleep: None, wake: Some(10) });
}

#[test]
fn player_pause_and_interact() {
    let mut pending = PendingInteraction(None);
    let menus = handle_player_actions(
        &vec![act(PlayerAction::Pause), act(PlayerAction::Interact), act(PlayerAction::Pause)],
        &ActiveInteractible(Some(4)),
        &mut pending,
    );
    assert_eq!(menus, vec![MenuId(PAUSE), MenuId(PAUSE)]);
    assert_eq!(pending.0, Some(4));
    let mut pending = PendingInteraction(Some(8));
    let menus = handle_player_actions(
        &vec![act(PlayerAction::Interact), ActionEvent { action: Action::Menu(MenuAction::Back), value: ActionValue::Full }],
        &ActiveInteractible(None),
        &mut pending,
    );
    assert!(menus.is_empty());
    assert_eq!(pending.0, Some(8));
}

#[test]
fn collision_layers_are_distinct_bits() {
    assert_eq!(LAYER_DEFAULT, 1);
    assert_eq!(LAYER_PLAYER, 2);
    assert_eq!(LAYER_NPC, 4);
    assert_eq!(LAYER_SENSOR, 8);
}

struct FirstLevel;

impl Level<u8> for FirstLevel {
    fn id() -> LevelId {
        LevelId(LEVEL1)
    }

    fn data() -> LevelData<u8> {
        LevelData { spawn: 7, startup: level_startup(LEVEL1) }
    }
}

#[test]
fn register_level_uses_the_levels_own_id() {
    let reg = LevelRegistry::new().register_level::<FirstLevel>();
    assert_eq!(reg.get(LevelId(LEVEL1)).map(|d| d.spawn), Some(7));
    assert!(reg.get(LevelId(BLANK)).is_none());
}

#[test]
fn level_startups_show_matching_menus() {
    let e = resolve_level_startup(&level_startup(BLANK));
    assert_eq!(e.game_state, Some(GameState::Paused));
    assert_eq!(e.menus, vec![MenuId(MAIN_MENU)]);
    let e = resolve_level_startup(&level_startup(LEVEL1));
    assert_eq!(e.game_state, Some(GameState::Playing));
    assert_eq!(e.menus, vec![MenuId(INGAME_UI)]);
    assert!(level_startup(42).is_empty());
}

#[test]
fn floor_button_events_are_the_changed_buttons_in_order() {
    let mut state = HashMap::new();
    state.insert(2, true);
    let ev = on_button_collision(&vec![(2, true), (5, true), (3, false), (2, true)], &mut state);
    assert_eq!(ev, vec![ButtonTriggered { id: 5, activated: true }]);
    let ev = on_button_collision(&vec![(3, true), (2, false), (5, true)], &mut state);
    assert_eq!(
        ev,
        vec![ButtonTriggered { id: 3, activated: true }, ButtonTriggered { id: 2, activated: false }]
    );
}

#[test]
fn pending_interaction_is_taken_once() {
    let mut pending = PendingInteraction(Some(12));
    assert_eq!(take_pending_interaction(&mut pending), Some(12));
    assert_eq!(pending.0, None);
    assert_eq!(take_pending_interaction(&mut pending), None);
}
