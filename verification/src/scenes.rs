//! Levels: their ids, the registry that maps ids to levels, what entering a
//! level changes, and which level is current.
use std::collections::HashMap;
use vstd::prelude::*;

use crate::menu::{GameState, MenuId};

pub mod id;
pub mod prefabs;

verus! {

broadcast use vstd::std_specs::hash::group_hash_axioms;

/// Identifies a level.
#[derive(Debug, Clone, Copy, PartialEq, Eq, Structural, Hash)]
pub struct LevelId(pub u32);

/// A change that entering a level makes.
#[derive(Debug, Clone, Copy, PartialEq, Eq, Structural)]
pub enum LevelStartup {
    SetGameState(GameState),
    ShowMenu(MenuId),
}

/// A level: how to spawn it, and the changes entering it makes, in order.
pub struct LevelData<S> {
    pub spawn: S,
    pub startup: Vec<LevelStartup>,
}

/// A level that knows its own id and data.
pub trait Level<S> {
    fn id() -> LevelId;

    fn data() -> LevelData<S>;
}

/// The level being played.
#[derive(Debug, Clone, Copy, PartialEq, Eq, Structural)]
pub struct CurrentLevel(pub LevelId);

/// A request to switch to another level.
#[derive(Debug, Clone, Copy, PartialEq, Eq, Structural)]
pub struct ChangeLevel(pub LevelId);

/// All known levels, by id.
pub struct LevelRegistry<S> {
    levels: HashMap<u32, LevelData<S>>,
}

impl<S> View for LevelRegistry<S> {
    type V = Map<u32, LevelData<S>>;

    closed spec fn view(&self) -> Map<u32, LevelData<S>> {
        self.levels@
    }
}

/// The registry `levels` after `data` is put under `id`, replacing what was there.
pub open spec fn with_level<S>(levels: Map<u32, LevelData<S>>, id: LevelId, data: LevelData<S>) -> Map<u32, LevelData<S>> {
    levels.insert(id.0, data)
}

/// The level that the registry `levels` holds under `id`, if any.
pub open spec fn level_under<S>(levels: Map<u32, LevelData<S>>, id: LevelId) -> Option<LevelData<S>> {
    if levels.contains_key(id.0) {
        Some(levels[id.0])
    } else {
        None
    }
}

impl<S> LevelRegistry<S> {
    /// A registry with no levels.
    pub fn new() -> (r: Self)
        ensures
            r@ == Map::<u32, LevelData<S>>::empty(),
    {
        LevelRegistry { levels: HashMap::new() }
    }

    /// Adds (or replaces) the level under `id`.
    pub fn register(self, id: LevelId, data: LevelData<S>) -> (r: Self)
        ensures
            r@ == with_level(self@, id, data),
    {
        let mut levels = self.levels;
        levels.insert(id.0, data);
        LevelRegistry { levels }
    }

    /// Adds (or replaces) the level `L` under its own id.
    pub fn register_level<L: Level<S>>(self) -> (r: Self)
        ensures
            exists|k: LevelId, d: LevelData<S>|
                call_ensures(L::id, (), k) && call_ensures(L::data, (), d) && r@ == with_level(
                    self@,
                    k,
                    d,
                ),
    {
        let id = L::id();
        let data = L::data();
        let ghost d = data;
        let r = self.register(id, data);
        proof {
            assert(r@ == with_level(self@, id, d));
        }
        r
    }

    /// The level registered under `id`, if any.
    pub fn get(&self, id: LevelId) -> (r: Option<&LevelData<S>>)
        ensures
            (match r {
                Some(x) => level_under(self@, id) == Some(*x),
                None => level_under(self@, id) is None,
            }),
    {
        self.levels.get(&id.0)
    }
}

/// The game state set by the last entry that sets one.
pub open spec fn last_level_game_state(startup: Seq<LevelStartup>) -> Option<GameState>
    decreases startup.len(),
{
    if startup.len() == 0 {
        None
    } else {
        match startup.last() {
            LevelStartup::SetGameState(s) => Some(s),
            _ => last_level_game_state(startup.drop_last()),
        }
    }
}

/// The menus requested by the entries, in order.
pub open spec fn shown_menus(startup: Seq<LevelStartup>) -> Seq<MenuId>
    decreases startup.len(),
{
    if startup.len() == 0 {
        Seq::empty()
    } else {
        match startup.last() {
            LevelStartup::ShowMenu(m) => shown_menus(startup.drop_last()).push(m),
            _ => shown_menus(startup.drop_last()),
        }
    }
}

/// What entering a level changes: the pending game state (the last one set)
/// and the menu requests sent, in order.
pub struct LevelStartupEffects {
    pub game_state: Option<GameState>,
    pub menus: Vec<MenuId>,
}

/// Applies a level's startup entries in order.
pub fn resolve_level_startup(startup: &Vec<LevelStartup>) -> (e: LevelStartupEffects)
    ensures
        e.game_state == last_level_game_state(startup@),
        e.menus@ == shown_menus(startup@),
{
    let mut game_state: Option<GameState> = None;
    let mut menus: Vec<MenuId> = Vec::new();
    let mut i: usize = 0;
    while i < startup.len()
        invariant
            i <= startup.len(),
            game_state == last_level_game_state(startup@.take(i as int)),
            menus@ == shown_menus(startup@.take(i as int)),
        decreases startup.len() - i,
    {
        proof {
            assert(startup@.take(i + 1).drop_last() == startup@.take(i as int));
        }
        match startup[i] {
            LevelStartup::SetGameState(s) => {
                game_state = Some(s);
            },
            LevelStartup::ShowMenu(m) => {
                menus.push(m);
            },
        }
        i += 1;
    }
    proof {
        assert(startup@.take(startup.len() as int) == startup@);
    }
    LevelStartupEffects { game_state, menus }
}

/// How to load a level: the spawn routine to run and the resulting changes.
pub struct LevelLoad<'a, S> {
    pub spawn: &'a S,
    pub effects: LevelStartupEffects,
}

/// Looks up the level `id`; `None` when no level is registered under it.
pub fn load_level<'a, S>(registry: &'a LevelRegistry<S>, id: LevelId) -> (r: Option<LevelLoad<'a, S>>)
    ensures
        match r {
            None => !registry@.contains_key(id.0),
            Some(l) => {
                &&& registry@.contains_key(id.0)
                &&& *l.spawn == registry@[id.0].spawn
                &&& l.effects.game_state == last_level_game_state(registry@[id.0].startup@)
                &&& l.effects.menus@ == shown_menus(registry@[id.0].startup@)
            },
        },
{
    match registry.get(id) {
        None => None,
        Some(data) => Some(LevelLoad { spawn: &data.spawn, effects: resolve_level_startup(&data.startup) }),
    }
}

/// The last of this frame's level requests, if any, becomes the current
/// level. Returns the level to load.
pub fn apply_level_change(current: &mut CurrentLevel, requests: &Vec<ChangeLevel>) -> (r: Option<
    LevelId,
>)
    ensures
        requests@.len() == 0 ==> r.is_none() && *final(current) == *old(current),
        requests@.len() > 0 ==> r == Some(requests@.last().0) && final(current).0
            == requests@.last().0,
{
    let n: usize = requests.len();
    if n == 0 {
        return None;
    }
    let next = requests[n - 1].0;
    current.0 = next;
    Some(next)
}

/// Law: looking a level up right after registering it finds exactly what
/// was registered, and registering leaves what every other id finds as it was.
pub proof fn law_registered_level_is_found<S>(
    levels: Map<u32, LevelData<S>>,
    id: LevelId,
    data: LevelData<S>,
    other: LevelId,
)
    requires
        other != id,
    ensures
        level_under(with_level(levels, id, data), id) == Some(data),
        level_under(with_level(levels, id, data), other) == level_under(levels, other),
{
    assert(other.0 != id.0);
}

/// Law: the game state that entering a level applies is that of its last
/// game-state entry, whatever came before; with no such entry the game state
/// is left alone.
pub proof fn law_last_level_game_state_entry_wins(startup: Seq<LevelStartup>)
    ensures
        (forall|i: int| 0 <= i < startup.len() ==> !((#[trigger] startup[i]) is SetGameState))
            ==> last_level_game_state(startup) is None,
        forall|i: int|
            0 <= i < startup.len() && (#[trigger] startup[i]) is SetGameState && (forall|j: int|
                i < j < startup.len() ==> !((#[trigger] startup[j]) is SetGameState))
                ==> last_level_game_state(startup) == Some(startup[i]->SetGameState_0),
    decreases startup.len(),
{
    if startup.len() > 0 {
        let init = startup.drop_last();
        let n: int = startup.len() - 1;
        law_last_level_game_state_entry_wins(init);
        assert(startup[n] == startup.last());
        if forall|i: int| 0 <= i < startup.len() ==> !((#[trigger] startup[i]) is SetGameState) {
            assert(!(startup[n] is SetGameState));
            assert forall|i: int| 0 <= i < init.len() implies !((#[trigger] init[i]) is SetGameState) by {
                assert(init[i] == startup[i]);
            }
        }
        assert forall|i: int|
            0 <= i < startup.len() && (#[trigger] startup[i]) is SetGameState && (forall|j: int|
                i < j < startup.len() ==> !((#[trigger] startup[j]) is SetGameState))
                implies last_level_game_state(startup) == Some(startup[i]->SetGameState_0) by {
            if i < n {
                assert(!(startup[n] is SetGameState));
                assert(init[i] == startup[i]);
                assert forall|j: int| i < j < init.len() implies !((#[trigger] init[j]) is SetGameState) by {
                    assert(init[j] == startup[j]);
                    assert(!(startup[j] is SetGameState));
                }
            }
        }
    }
}

/// Law: entering a level requests exactly the menus its menu entries name,
/// each once, in the order of the entries.
pub proof fn law_level_shows_its_menus_in_order(startup: Seq<LevelStartup>)
    ensures
        shown_menus(startup) == startup.filter(|e: LevelStartup| e is ShowMenu).map_values(
            |e: LevelStartup| e->ShowMenu_0,
        ),
    decreases startup.len(),
{
    let pred = |e: LevelStartup| e is ShowMenu;
    let mk = |e: LevelStartup| e->ShowMenu_0;
    if startup.len() == 0 {
        reveal(Seq::filter);
        assert(startup.filter(pred).map_values(mk) =~= Seq::<MenuId>::empty());
    } else {
        let init = startup.drop_last();
        let e = startup.last();
        law_level_shows_its_menus_in_order(init);
        init.lemma_filter_push(e, pred);
        assert(init.push(e) == startup);
        let fi = init.filter(pred);
        if pred(e) {
            assert(fi.push(e).map_values(mk) =~= fi.map_values(mk).push(mk(e)));
        }
    }
}

} // verus!
