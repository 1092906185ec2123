//! The player's interaction and pause controls, and the collision layers.
use vstd::prelude::*;

use crate::inputs::{Action, ActionEvent, PlayerAction};
use crate::menu::{id as menu_ids, MenuId};

verus! {

/// Collision layer of the level geometry.
pub const LAYER_DEFAULT: u32 = 1 << 0;

/// Collision layer of the player.
pub const LAYER_PLAYER: u32 = 1 << 1;

/// Collision layer of NPC bodies.
pub const LAYER_NPC: u32 = 1 << 2;

/// Collision layer of trigger sensors.
pub const LAYER_SENSOR: u32 = 1 << 3;

/// The NPC sensor the player is near, by entity id.
#[derive(Debug, Clone, Copy, PartialEq, Eq, Structural, Default)]
pub struct ActiveInteractible(pub Option<u64>);

/// The NPC sensor whose interaction runs next, by entity id.
#[derive(Debug, Clone, Copy, PartialEq, Eq, Structural, Default)]
pub struct PendingInteraction(pub Option<u64>);

/// One action applied to (pending interaction, menu requests).
pub open spec fn player_step(
    state: (Option<u64>, Seq<MenuId>),
    active: Option<u64>,
    action: Action,
) -> (Option<u64>, Seq<MenuId>) {
    match action {
        Action::Player(PlayerAction::Pause) => (state.0, state.1.push(MenuId(menu_ids::PAUSE))),
        Action::Player(PlayerAction::Interact) => if active.is_some() {
            (active, state.1)
        } else {
            state
        },
        _ => state,
    }
}

/// All of a frame's actions, in order.
pub open spec fn player_frame(
    state: (Option<u64>, Seq<MenuId>),
    active: Option<u64>,
    events: Seq<ActionEvent>,
) -> (Option<u64>, Seq<MenuId>)
    decreases events.len(),
{
    if events.len() == 0 {
        state
    } else {
        player_step(player_frame(state, active, events.drop_last()), active, events.last().action)
    }
}

/// Pause requests the pause menu (once per press); interact queues the
/// active interactible, if there is one. Returns the menu requests.
pub fn handle_player_actions(
    events: &Vec<ActionEvent>,
    active: &ActiveInteractible,
    pending: &mut PendingInteraction,
) -> (r: Vec<MenuId>)
    ensures
        (final(pending).0, r@) == player_frame((old(pending).0, Seq::empty()), active.0, events@),
{
    let mut out: Vec<MenuId> = Vec::new();
    let mut i: usize = 0;
    while i < events.len()
        invariant
            i <= events.len(),
            (pending.0, out@) == player_frame(
                (old(pending).0, Seq::empty()),
                active.0,
                events@.take(i as int),
            ),
        decreases events.len() - i,
    {
        proof {
            assert(events@.take(i + 1).drop_last() == events@.take(i as int));
        }
        match events[i].action {
            Action::Player(PlayerAction::Pause) => {
                out.push(MenuId(menu_ids::PAUSE));
            },
            Action::Player(PlayerAction::Interact) => {
                if let Some(entity) = active.0 {
                    pending.0 = Some(entity);
                }
            },
            _ => {},
        }
        i += 1;
    }
    proof {
        assert(events@.take(events.len() as int) == events@);
    }
    out
}

/// Takes the queued interaction, if any, leaving none queued: it runs once.
pub fn take_pending_interaction(pending: &mut PendingInteraction) -> (r: Option<u64>)
    ensures
        r == old(pending).0,
        final(pending).0.is_none(),
{
    pending.0.take()
}

/// Law: after a frame, an interact press queued the active interactible
/// when there was one; without an active interactible, or without an
/// interact press, the pending interaction is unchanged.
pub proof fn law_interact_queues_active(
    state: (Option<u64>, Seq<MenuId>),
    active: Option<u64>,
    events: Seq<ActionEvent>,
)
    ensures
        player_frame(state, active, events).0 == (if active.is_some() && exists|i: int|
            0 <= i < events.len() && #[trigger] events[i].action == Action::Player(
                PlayerAction::Interact,
            ) {
            active
        } else {
            state.0
        }),
    decreases events.len(),
{
    if events.len() > 0 {
        let init = events.drop_last();
        law_interact_queues_active(state, active, init);
        if exists|i: int|
            0 <= i < init.len() && #[trigger] init[i].action == Action::Player(
                PlayerAction::Interact,
            ) {
            let i = choose|i: int|
                0 <= i < init.len() && #[trigger] init[i].action == Action::Player(
                    PlayerAction::Interact,
                );
            assert(events[i] == init[i]);
        }
        if exists|i: int|
            0 <= i < events.len() && #[trigger] events[i].action == Action::Player(
                PlayerAction::Interact,
            ) {
            let i = choose|i: int|
                0 <= i < events.len() && #[trigger] events[i].action == Action::Player(
                    PlayerAction::Interact,
                );
            if i < events.len() - 1 {
                assert(init[i] == events[i]);
            }
        }
    }
}

/// Law: a frame's actions request the pause menu once for each pause
/// action, in order, and request no other menu.
pub proof fn law_each_pause_requests_pause_menu(
    state: (Option<u64>, Seq<MenuId>),
    active: Option<u64>,
    events: Seq<ActionEvent>,
)
    ensures
        player_frame(state, active, events).1 == state.1 + events.filter(
            |e: ActionEvent| e.action == Action::Player(PlayerAction::Pause),
        ).map_values(|e: ActionEvent| MenuId(menu_ids::PAUSE)),
    decreases events.len(),
{
    let pred = |e: ActionEvent| e.action == Action::Player(PlayerAction::Pause);
    let mk = |e: ActionEvent| MenuId(menu_ids::PAUSE);
    if events.len() == 0 {
        reveal(Seq::filter);
        assert(events.filter(pred).map_values(mk) =~= Seq::<MenuId>::empty());
        assert(state.1 + Seq::<MenuId>::empty() =~= state.1);
    } else {
        let init = events.drop_last();
        let e = events.last();
        law_each_pause_requests_pause_menu(state, active, init);
        init.lemma_filter_push(e, pred);
        assert(init.push(e) == events);
        let fi = init.filter(pred);
        if pred(e) {
            assert(fi.push(e).map_values(mk) =~= fi.map_values(mk).push(mk(e)));
            assert(state.1 + fi.map_values(mk).push(mk(e)) =~= (state.1 + fi.map_values(mk)).push(
                mk(e),
            ));
        }
    }
}

} // verus!
