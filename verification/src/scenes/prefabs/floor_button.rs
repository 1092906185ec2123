//! Floor buttons that report when the player steps on or off them.
use std::collections::HashMap;
use vstd::prelude::*;

verus! {

broadcast use vstd::std_specs::hash::group_hash_axioms;

/// A floor button changed state.
#[derive(Debug, Clone, Copy, PartialEq, Eq, Structural)]
pub struct ButtonTriggered {
    pub id: u32,
    pub activated: bool,
}

/// One button, given whether the player touches it, against the remembered states.
pub open spec fn collision_step(
    state: (Map<u32, bool>, Seq<ButtonTriggered>),
    button: (u32, bool),
) -> (Map<u32, bool>, Seq<ButtonTriggered>) {
    let was = state.0.contains_key(button.0) && state.0[button.0];
    if button.1 != was {
        (
            state.0.insert(button.0, button.1),
            state.1.push(ButtonTriggered { id: button.0, activated: button.1 }),
        )
    } else {
        state
    }
}

/// All buttons of a frame, in order.
pub open spec fn collision_frame(
    state: (Map<u32, bool>, Seq<ButtonTriggered>),
    buttons: Seq<(u32, bool)>,
) -> (Map<u32, bool>, Seq<ButtonTriggered>)
    decreases buttons.len(),
{
    if buttons.len() == 0 {
        state
    } else {
        collision_step(collision_frame(state, buttons.drop_last()), buttons.last())
    }
}

/// For each (button id, touched by the player) pair, reports a change when
/// the touch differs from the button's remembered state (initially
/// untouched) and remembers the new state.
pub fn on_button_collision(buttons: &Vec<(u32, bool)>, state: &mut HashMap<u32, bool>) -> (r: Vec<
    ButtonTriggered,
>)
    ensures
        (final(state)@, r@) == collision_frame((old(state)@, Seq::empty()), buttons@),
{
    let mut out: Vec<ButtonTriggered> = Vec::new();
    let mut i: usize = 0;
    while i < buttons.len()
        invariant
            i <= buttons.len(),
            (state@, out@) == collision_frame((old(state)@, Seq::empty()), buttons@.take(i as int)),
        decreases buttons.len() - i,
    {
        proof {
            assert(buttons@.take(i + 1).drop_last() == buttons@.take(i as int));
        }
        let (id, is_activated) = buttons[i];
        let was_activated = match state.get(&id) {
            Some(b) => *b,
            None => false,
        };
        if is_activated != was_activated {
            state.insert(id, is_activated);
            out.push(ButtonTriggered { id, activated: is_activated });
        }
        i += 1;
    }
    proof {
        assert(buttons@.take(buttons.len() as int) == buttons@);
    }
    out
}

/// The touch reported last for button `id` in this frame, if any.
pub open spec fn last_touch(buttons: Seq<(u32, bool)>, id: u32) -> Option<bool>
    decreases buttons.len(),
{
    if buttons.len() == 0 {
        None
    } else if buttons.last().0 == id {
        Some(buttons.last().1)
    } else {
        last_touch(buttons.drop_last(), id)
    }
}

/// The remembered state of button `id` (untouched when never seen).
pub open spec fn remembered(state: Map<u32, bool>, id: u32) -> bool {
    state.contains_key(id) && state[id]
}

/// Law: after a frame each button remembers the touch last reported for it,
/// and a button the frame does not report keeps its remembered state.
pub proof fn law_button_remembers_last_touch(
    state: Map<u32, bool>,
    events: Seq<ButtonTriggered>,
    buttons: Seq<(u32, bool)>,
    id: u32,
)
    ensures
        remembered(collision_frame((state, events), buttons).0, id) == match last_touch(
            buttons,
            id,
        ) {
            Some(t) => t,
            None => remembered(state, id),
        },
    decreases buttons.len(),
{
    if buttons.len() > 0 {
        law_button_remembers_last_touch(state, events, buttons.drop_last(), id);
    }
}

/// The change events of a frame: one for each button whose touch differs
/// from what it remembered, in the order of the buttons.
pub open spec fn changed_buttons(state: Map<u32, bool>, buttons: Seq<(u32, bool)>) -> Seq<
    ButtonTriggered,
> {
    buttons.filter(|b: (u32, bool)| b.1 != remembered(state, b.0)).map_values(
        |b: (u32, bool)| ButtonTriggered { id: b.0, activated: b.1 },
    )
}

/// A frame that does not report button `id` has no last touch for it.
proof fn lemma_unreported_has_no_touch(buttons: Seq<(u32, bool)>, id: u32)
    requires
        forall|i: int| 0 <= i < buttons.len() ==> #[trigger] buttons[i].0 != id,
    ensures
        last_touch(buttons, id) is None,
    decreases buttons.len(),
{
    if buttons.len() > 0 {
        let init = buttons.drop_last();
        assert forall|i: int| 0 <= i < init.len() implies #[trigger] init[i].0 != id by {
            assert(init[i] == buttons[i]);
        }
        lemma_unreported_has_no_touch(init, id);
        assert(buttons[buttons.len() - 1].0 != id);
    }
}

/// Law: in a frame that reports each button once, the events are exactly
/// the buttons whose touch differs from what they remembered, each with its
/// new touch, in order, after the events already reported.
pub proof fn law_button_reports_changes(
    state: Map<u32, bool>,
    events: Seq<ButtonTriggered>,
    buttons: Seq<(u32, bool)>,
)
    requires
        forall|i: int, j: int|
            0 <= i < j < buttons.len() ==> #[trigger] buttons[i].0 != #[trigger] buttons[j].0,
    ensures
        collision_frame((state, events), buttons).1 == events + changed_buttons(state, buttons),
    decreases buttons.len(),
{
    let pred = |b: (u32, bool)| b.1 != remembered(state, b.0);
    let mk = |b: (u32, bool)| ButtonTriggered { id: b.0, activated: b.1 };
    if buttons.len() == 0 {
        reveal(Seq::filter);
        assert(changed_buttons(state, buttons) =~= Seq::<ButtonTriggered>::empty());
        assert(events + Seq::<ButtonTriggered>::empty() =~= events);
    } else {
        let init = buttons.drop_last();
        let b = buttons.last();
        let n: int = buttons.len() - 1;
        assert forall|i: int, j: int| 0 <= i < j < init.len() implies #[trigger] init[i].0
            != #[trigger] init[j].0 by {
            assert(init[i] == buttons[i]);
            assert(init[j] == buttons[j]);
        }
        law_button_reports_changes(state, events, init);
        assert forall|i: int| 0 <= i < init.len() implies #[trigger] init[i].0 != b.0 by {
            assert(init[i] == buttons[i]);
            assert(buttons[i].0 != buttons[n].0);
        }
        lemma_unreported_has_no_touch(init, b.0);
        law_button_remembers_last_touch(state, events, init, b.0);
        init.lemma_filter_push(b, pred);
        assert(init.push(b) == buttons);
        let fi = init.filter(pred);
        let prev = collision_frame((state, events), init);
        assert(remembered(prev.0, b.0) == remembered(state, b.0));
        assert(prev.1 == events + fi.map_values(mk));
        if pred(b) {
            assert(fi.push(b).map_values(mk) =~= fi.map_values(mk).push(mk(b)));
            assert(events + fi.map_values(mk).push(mk(b)) =~= (events + fi.map_values(mk)).push(
                mk(b),
            ));
        }
    }
}

} // verus!
