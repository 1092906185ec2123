//! Menus: their ids, the registry that maps ids to menus, what entering a
//! menu changes, and which menu is current.
use std::collections::HashMap;
use vstd::prelude::*;

use crate::inputs::{ActiveInputDevice, InputContext};

pub mod id;
pub mod layout;

verus! {

broadcast use vstd::std_specs::hash::group_hash_axioms;

/// Identifies a menu.
#[derive(Debug, Clone, Copy, PartialEq, Eq, Structural, Hash)]
pub struct MenuId(pub u32);

/// Whether the game runs, is paused, or is in a dialogue.
#[derive(Debug, Clone, Copy, PartialEq, Eq, Structural, Hash)]
pub enum GameState {
    Playing,
    Paused,
    Dialogue,
}

impl Default for GameState {
    fn default() -> (s: Self)
        ensures
            s == GameState::Playing,
    {
        GameState::Playing
    }
}

/// A change that entering a menu makes.
#[derive(Debug, Clone, Copy, PartialEq, Eq, Structural)]
pub enum MenuStartup {
    SetGameState(GameState),
    SetInputContext(InputContext),
}

/// A menu: how to spawn it, and the changes entering it makes, in order.
pub struct MenuData<S> {
    pub spawn: S,
    pub startup: Vec<MenuStartup>,
}

/// A menu that knows its own id and data.
pub trait Menu<S> {
    fn id() -> MenuId;

    fn data() -> MenuData<S>;
}

/// The menu on screen.
#[derive(Debug, Clone, Copy, PartialEq, Eq, Structural)]
pub struct CurrentMenu(pub MenuId);

/// A request to show another menu.
#[derive(Debug, Clone, Copy, PartialEq, Eq, Structural)]
pub struct ChangeMenu(pub MenuId);

/// All known menus, by id.
pub struct MenuRegistry<S> {
    menus: HashMap<u32, MenuData<S>>,
}

impl<S> View for MenuRegistry<S> {
    type V = Map<u32, MenuData<S>>;

    closed spec fn view(&self) -> Map<u32, MenuData<S>> {
        self.menus@
    }
}

/// The registry `menus` after `data` is put under `id`, replacing what was there.
pub open spec fn with_menu<S>(menus: Map<u32, MenuData<S>>, id: MenuId, data: MenuData<S>) -> Map<u32, MenuData<S>> {
    menus.insert(id.0, data)
}

/// The menu that the registry `menus` holds under `id`, if any.
pub open spec fn menu_under<S>(menus: Map<u32, MenuData<S>>, id: MenuId) -> Option<MenuData<S>> {
    if menus.contains_key(id.0) {
        Some(menus[id.0])
    } else {
        None
    }
}

impl<S> MenuRegistry<S> {
    /// A registry with no menus.
    pub fn new() -> (r: Self)
        ensures
            r@ == Map::<u32, MenuData<S>>::empty(),
    {
        MenuRegistry { menus: HashMap::new() }
    }

    /// Adds (or replaces) the menu under `id`.
    pub fn register(self, id: MenuId, data: MenuData<S>) -> (r: Self)
        ensures
            r@ == with_menu(self@, id, data),
    {
        let mut menus = self.menus;
        menus.insert(id.0, data);
        MenuRegistry { menus }
    }

    /// Adds (or replaces) the menu `M` under its own id.
    pub fn register_menu<M: Menu<S>>(self) -> (r: Self)
        ensures
            exists|k: MenuId, d: MenuData<S>|
                call_ensures(M::id, (), k) && call_ensures(M::data, (), d) && r@ == with_menu(
                    self@,
                    k,
                    d,
                ),
    {
        let id = M::id();
        let data = M::data();
        let ghost d = data;
        let r = self.register(id, data);
        proof {
            assert(r@ == with_menu(self@, id, d));
        }
        r
    }

    /// The menu registered under `id`, if any.
    pub fn get(&self, id: MenuId) -> (r: Option<&MenuData<S>>)
        ensures
            (match r {
                Some(x) => menu_under(self@, id) == Some(*x),
                None => menu_under(self@, id) is None,
            }),
    {
        self.menus.get(&id.0)
    }
}

/// What entering a menu changes, once all its startup entries have applied.
#[derive(Debug, Clone, Copy, PartialEq, Eq, Structural)]
pub struct MenuStartupEffects {
    pub game_state: Option<GameState>,
    pub input_context: Option<InputContext>,
}

/// The game state set by the last entry that sets one.
pub open spec fn last_game_state(startup: Seq<MenuStartup>) -> Option<GameState>
    decreases startup.len(),
{
    if startup.len() == 0 {
        None
    } else {
        match startup.last() {
            MenuStartup::SetGameState(s) => Some(s),
            _ => last_game_state(startup.drop_last()),
        }
    }
}

/// The input context set by the last entry that sets one.
pub open spec fn last_input_context(startup: Seq<MenuStartup>) -> Option<InputContext>
    decreases startup.len(),
{
    if startup.len() == 0 {
        None
    } else {
        match startup.last() {
            MenuStartup::SetInputContext(c) => Some(c),
            _ => last_input_context(startup.drop_last()),
        }
    }
}

/// Applies the startup entries in order: each sets the pending game state or
/// input context, so the last of each kind is what takes effect.
pub fn resolve_menu_startup(startup: &Vec<MenuStartup>) -> (e: MenuStartupEffects)
    ensures
        e.game_state == last_game_state(startup@),
        e.input_context == last_input_context(startup@),
{
    let mut e = MenuStartupEffects { game_state: None, input_context: None };
    let mut i: usize = 0;
    while i < startup.len()
        invariant
            i <= startup.len(),
            e.game_state == last_game_state(startup@.take(i as int)),
            e.input_context == last_input_context(startup@.take(i as int)),
        decreases startup.len() - i,
    {
        proof {
            assert(startup@.take(i + 1).drop_last() == startup@.take(i as int));
        }
        match startup[i] {
            MenuStartup::SetGameState(s) => {
                e.game_state = Some(s);
            },
            MenuStartup::SetInputContext(c) => {
                e.input_context = Some(c);
            },
        }
        i += 1;
    }
    proof {
        assert(startup@.take(startup.len() as int) == startup@);
    }
    e
}

/// How to load a menu: the spawn routine to run and the resulting changes.
pub struct MenuLoad<'a, S> {
    pub spawn: &'a S,
    pub effects: MenuStartupEffects,
}

/// Looks up the menu `id`; `None` when no menu is registered under it.
pub fn load_menu<'a, S>(registry: &'a MenuRegistry<S>, id: MenuId) -> (r: Option<MenuLoad<'a, S>>)
    ensures
        match r {
            None => !registry@.contains_key(id.0),
            Some(l) => {
                &&& registry@.contains_key(id.0)
                &&& *l.spawn == registry@[id.0].spawn
                &&& l.effects.game_state == last_game_state(registry@[id.0].startup@)
                &&& l.effects.input_context == last_input_context(registry@[id.0].startup@)
            },
        },
{
    match registry.get(id) {
        None => None,
        Some(data) => Some(MenuLoad { spawn: &data.spawn, effects: resolve_menu_startup(&data.startup) }),
    }
}

/// The last of this frame's menu requests, if any, becomes the current menu.
/// Returns the menu to load.
pub fn apply_menu_change(current: &mut CurrentMenu, requests: &Vec<ChangeMenu>) -> (r: Option<
    MenuId,
>)
    ensures
        requests@.len() == 0 ==> r.is_none() && *final(current) == *old(current),
        requests@.len() > 0 ==> r == Some(requests@.last().0) && final(current).0
            == requests@.last().0,
{
    let n: usize = requests.len();
    if n == 0 {
        return None;
    }
    let next = requests[n - 1].0;
    current.0 = next;
    Some(next)
}

/// Whether entering a paused or dialogue state frees the cursor: only when
/// the keyboard and mouse are in use.
pub fn releases_cursor(device: ActiveInputDevice) -> (r: bool)
    ensures
        r == (device == ActiveInputDevice::Keyboard),
{
    device == ActiveInputDevice::Keyboard
}

/// Law: looking a menu up right after registering it finds exactly what
/// was registered, and registering leaves what every other id finds as it was.
pub proof fn law_registered_menu_is_found<S>(
    menus: Map<u32, MenuData<S>>,
    id: MenuId,
    data: MenuData<S>,
    other: MenuId,
)
    requires
        other != id,
    ensures
        menu_under(with_menu(menus, id, data), id) == Some(data),
        menu_under(with_menu(menus, id, data), other) == menu_under(menus, other),
{
    assert(other.0 != id.0);
}

/// Law: the game state that entering a menu applies is that of its last
/// game-state entry, whatever came before; with no such entry the game
/// state is left alone.
pub proof fn law_last_game_state_entry_wins(startup: Seq<MenuStartup>)
    ensures
        (forall|i: int| 0 <= i < startup.len() ==> !((#[trigger] startup[i]) is SetGameState))
            ==> last_game_state(startup) is None,
        forall|i: int|
            0 <= i < startup.len() && (#[trigger] startup[i]) is SetGameState && (forall|j: int|
                i < j < startup.len() ==> !((#[trigger] startup[j]) is SetGameState))
                ==> last_game_state(startup) == Some(startup[i]->SetGameState_0),
    decreases startup.len(),
{
    if startup.len() > 0 {
        let init = startup.drop_last();
        let n: int = startup.len() - 1;
        law_last_game_state_entry_wins(init);
        assert(startup[n] == startup.last());
        if forall|i: int| 0 <= i < startup.len() ==> !((#[trigger] startup[i]) is SetGameState) {
            assert(!(startup[n] is SetGameState));
            assert forall|i: int| 0 <= i < init.len() implies !((#[trigger] init[i]) is SetGameState) by {
                assert(init[i] == startup[i]);
            }
        }
        assert forall|i: int|
            0 <= i < startup.len() && (#[trigger] startup[i]) is SetGameState && (forall|j: int|
                i < j < startup.len() ==> !((#[trigger] startup[j]) is SetGameState))
                implies last_game_state(startup) == Some(startup[i]->SetGameState_0) by {
            if i < n {
                assert(!(startup[n] is SetGameState));
                assert(init[i] == startup[i]);
                assert forall|j: int| i < j < init.len() implies !((#[trigger] init[j]) is SetGameState) by {
                    assert(init[j] == startup[j]);
                    assert(!(startup[j] is SetGameState));
                }
            }
        }
    }
}

/// Law: the input context that entering a menu applies is that of its
/// last input-context entry, whatever came before; with no such entry the
/// input context is left alone.
pub proof fn law_last_input_context_entry_wins(startup: Seq<MenuStartup>)
    ensures
        (forall|i: int| 0 <= i < startup.len() ==> !((#[trigger] startup[i]) is SetInputContext))
            ==> last_input_context(startup) is None,
        forall|i: int|
            0 <= i < startup.len() && (#[trigger] startup[i]) is SetInputContext && (forall|j: int|
                i < j < startup.len() ==> !((#[trigger] startup[j]) is SetInputContext))
                ==> last_input_context(startup) == Some(startup[i]->SetInputContext_0),
    decreases startup.len(),
{
    if startup.len() > 0 {
        let init = startup.drop_last();
        let n: int = startup.len() - 1;
        law_last_input_context_entry_wins(init);
        assert(startup[n] == startup.last());
        if forall|i: int| 0 <= i < startup.len() ==> !((#[trigger] startup[i]) is SetInputContext) {
            assert(!(startup[n] is SetInputContext));
            assert forall|i: int| 0 <= i < init.len() implies !((#[trigger] init[i]) is SetInputContext) by {
                assert(init[i] == startup[i]);
            }
        }
        assert forall|i: int|
            0 <= i < startup.len() && (#[trigger] startup[i]) is SetInputContext && (forall|j: int|
                i < j < startup.len() ==> !((#[trigger] startup[j]) is SetInputContext))
                implies last_input_context(startup) == Some(startup[i]->SetInputContext_0) by {
            if i < n {
                assert(!(startup[n] is SetInputContext));
                assert(init[i] == startup[i]);
                assert forall|j: int| i < j < init.len() implies !((#[trigger] init[j]) is SetInputContext) by {
                    assert(init[j] == startup[j]);
                    assert(!(startup[j] is SetInputContext));
                }
            }
        }
    }
}

} // verus!
