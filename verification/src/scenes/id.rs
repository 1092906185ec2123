//! The numbers of the game's levels; `LevelId(n)` names the level. Also what
//! entering each of them changes.
use vstd::prelude::*;

use crate::inputs::InputContext;
use crate::menu::id::{menu_startup_entries, INGAME_UI, MAIN_MENU};
use crate::menu::{last_input_context, GameState, MenuId, MenuStartup};
use crate::scenes::{last_level_game_state, shown_menus, LevelStartup};

verus! {

pub const BLANK: u32 = 0;

pub const LEVEL1: u32 = 1;

/// The changes entering the game's level `id` makes, in order; none for a
/// number that names no level.
pub open spec fn level_startup_entries(id: u32) -> Seq<LevelStartup> {
    if id == BLANK {
        seq![
            LevelStartup::SetGameState(GameState::Paused),
            LevelStartup::ShowMenu(MenuId(MAIN_MENU)),
        ]
    } else if id == LEVEL1 {
        seq![
            LevelStartup::SetGameState(GameState::Playing),
            LevelStartup::ShowMenu(MenuId(INGAME_UI)),
        ]
    } else {
        Seq::empty()
    }
}

/// The changes entering the game's level `id` makes, in order.
pub fn level_startup(id: u32) -> (r: Vec<LevelStartup>)
    ensures
        r@ == level_startup_entries(id),
{
    if id == BLANK {
        vec![
            LevelStartup::SetGameState(GameState::Paused),
            LevelStartup::ShowMenu(MenuId(MAIN_MENU)),
        ]
    } else if id == LEVEL1 {
        vec![
            LevelStartup::SetGameState(GameState::Playing),
            LevelStartup::ShowMenu(MenuId(INGAME_UI)),
        ]
    } else {
        Vec::new()
    }
}

/// Law: each menu that one of the game's levels shows on entry hands input
/// to the game exactly when the level starts in play, and to the menu when
/// it starts paused.
pub proof fn law_level_menus_match_level_state(id: u32, k: int)
    requires
        0 <= k < shown_menus(level_startup_entries(id)).len(),
    ensures
        last_input_context(menu_startup_entries(shown_menus(level_startup_entries(id))[k].0))
            == (if last_level_game_state(level_startup_entries(id)) == Some(GameState::Playing) {
            Some(InputContext::Game)
        } else {
            Some(InputContext::Menu)
        }),
{
    let e = level_startup_entries(id);
    reveal_with_fuel(last_level_game_state, 3);
    reveal_with_fuel(shown_menus, 3);
    reveal_with_fuel(last_input_context, 3);
    assert(e.len() == 2);
    assert(e.drop_last().drop_last() =~= Seq::<LevelStartup>::empty());
    assert(shown_menus(e) =~= seq![e[1]->ShowMenu_0]);
    let m = menu_startup_entries(shown_menus(e)[k].0);
    if m.len() == 2 {
        assert(m.drop_last().drop_last() =~= Seq::<MenuStartup>::empty());
    }
    if m.len() == 1 {
        assert(m.drop_last() =~= Seq::<MenuStartup>::empty());
    }
}

} // verus!
