//! The numbers of the game's menus; `MenuId(n)` names the menu. Also what
//! entering each of them changes.
use vstd::prelude::*;

use crate::inputs::InputContext;
use crate::menu::{last_game_state, last_input_context, GameState, MenuStartup};

verus! {

pub const MAIN_MENU: u32 = 0;

pub const NO_MENU: u32 = 1;

pub const INGAME_UI: u32 = 2;

pub const PAUSE: u32 = 3;

pub const DIALOGUE: u32 = 4;

pub const CHOICE_MENU: u32 = 5;

/// The changes entering the game's menu `id` makes, in order; none for a
/// number that names no menu.
pub open spec fn menu_startup_entries(id: u32) -> Seq<MenuStartup> {
    if id == MAIN_MENU {
        seq![MenuStartup::SetInputContext(InputContext::Menu)]
    } else if id == NO_MENU {
        seq![MenuStartup::SetInputContext(InputContext::Game)]
    } else if id == INGAME_UI {
        seq![
            MenuStartup::SetInputContext(InputContext::Game),
            MenuStartup::SetGameState(GameState::Playing),
        ]
    } else if id == PAUSE || id == CHOICE_MENU {
        seq![
            MenuStartup::SetGameState(GameState::Paused),
            MenuStartup::SetInputContext(InputContext::Menu),
        ]
    } else if id == DIALOGUE {
        seq![
            MenuStartup::SetInputContext(InputContext::Menu),
            MenuStartup::SetGameState(GameState::Dialogue),
        ]
    } else {
        Seq::empty()
    }
}

/// The changes entering the game's menu `id` makes, in order.
pub fn menu_startup(id: u32) -> (r: Vec<MenuStartup>)
    ensures
        r@ == menu_startup_entries(id),
{
    if id == MAIN_MENU {
        vec![MenuStartup::SetInputContext(InputContext::Menu)]
    } else if id == NO_MENU {
        vec![MenuStartup::SetInputContext(InputContext::Game)]
    } else if id == INGAME_UI {
        vec![
            MenuStartup::SetInputContext(InputContext::Game),
            MenuStartup::SetGameState(GameState::Playing),
        ]
    } else if id == PAUSE || id == CHOICE_MENU {
        vec![
            MenuStartup::SetGameState(GameState::Paused),
            MenuStartup::SetInputContext(InputContext::Menu),
        ]
    } else if id == DIALOGUE {
        vec![
            MenuStartup::SetInputContext(InputContext::Menu),
            MenuStartup::SetGameState(GameState::Dialogue),
        ]
    } else {
        Vec::new()
    }
}

/// Law: each of the game's menus that stops play (pauses it or opens a
/// dialogue) also switches input to the menu context, so that the player
/// cannot move behind it; and each menu that resumes play switches input
/// back to the game.
pub proof fn law_stopping_menus_take_menu_input(id: u32)
    ensures
        last_game_state(menu_startup_entries(id)) matches Some(s) && s != GameState::Playing
            ==> last_input_context(menu_startup_entries(id)) == Some(InputContext::Menu),
        last_game_state(menu_startup_entries(id)) == Some(GameState::Playing) ==> last_input_context(
            menu_startup_entries(id),
        ) == Some(InputContext::Game),
{
    let e = menu_startup_entries(id);
    reveal_with_fuel(last_game_state, 3);
    reveal_with_fuel(last_input_context, 3);
    if e.len() == 2 {
        assert(e.drop_last().drop_last() =~= Seq::<MenuStartup>::empty());
    }
    if e.len() == 1 {
        assert(e.drop_last() =~= Seq::<MenuStartup>::empty());
    }
}

} // verus!
