//! Lights and button faces that follow the floor button they listen to.
use vstd::prelude::*;

use crate::scenes::prefabs::floor_button::ButtonTriggered;

verus! {

/// The activation carried by the last event for button `id`, if any.
pub open spec fn latest_activation(events: Seq<ButtonTriggered>, id: u32) -> Option<bool>
    decreases events.len(),
{
    if events.len() == 0 {
        None
    } else if events.last().id == id {
        Some(events.last().activated)
    } else {
        latest_activation(events.drop_last(), id)
    }
}

/// The activation carried by the last event for button `id`, if any.
pub fn last_activation_for(events: &Vec<ButtonTriggered>, id: u32) -> (r: Option<bool>)
    ensures
        r == latest_activation(events@, id),
{
    let mut r: Option<bool> = None;
    let mut i: usize = 0;
    while i < events.len()
        invariant
            i <= events.len(),
            r == latest_activation(events@.take(i as int), id),
        decreases events.len() - i,
    {
        proof {
            assert(events@.take(i + 1).drop_last() == events@.take(i as int));
        }
        if events[i].id == id {
            r = Some(events[i].activated);
        }
        i += 1;
    }
    proof {
        assert(events@.take(events.len() as int) == events@);
    }
    r
}

/// For each listener (by the button id it listens for), the state it ends
/// this frame in: on or off by the last event for its button, or unchanged
/// (`None`) when no event concerned it.
pub fn listener_states(listens_for: &Vec<u32>, events: &Vec<ButtonTriggered>) -> (r: Vec<
    Option<bool>,
>)
    ensures
        r@.len() == listens_for@.len(),
        forall|i: int|
            0 <= i < listens_for@.len() ==> #[trigger] r@[i] == latest_activation(
                events@,
                listens_for@[i],
            ),
{
    let mut out: Vec<Option<bool>> = Vec::new();
    let mut i: usize = 0;
    while i < listens_for.len()
        invariant
            i <= listens_for.len(),
            out@.len() == i,
            forall|k: int|
                0 <= k < i ==> #[trigger] out@[k] == latest_activation(events@, listens_for@[k]),
        decreases listens_for.len() - i,
    {
        out.push(last_activation_for(events, listens_for[i]));
        i += 1;
    }
    out
}

/// Law: a listener ends in the state carried by the last event for its
/// button, whatever came before it, and no event for its button leaves it
/// unchanged.
pub proof fn law_latest_event_wins(events: Seq<ButtonTriggered>, id: u32)
    ensures
        (forall|i: int| 0 <= i < events.len() ==> (#[trigger] events[i]).id != id)
            ==> latest_activation(events, id) is None,
        forall|i: int|
            0 <= i < events.len() && (#[trigger] events[i]).id == id && (forall|j: int|
                i < j < events.len() ==> (#[trigger] events[j]).id != id) ==> latest_activation(
                events,
                id,
            ) == Some(events[i].activated),
    decreases events.len(),
{
    if events.len() > 0 {
        let init = events.drop_last();
        let n: int = events.len() - 1;
        law_latest_event_wins(init, id);
        assert(events[n] == events.last());
        if forall|i: int| 0 <= i < events.len() ==> (#[trigger] events[i]).id != id {
            assert forall|i: int| 0 <= i < init.len() implies (#[trigger] init[i]).id != id by {
                assert(init[i] == events[i]);
            }
            assert(events[n].id != id);
        }
        assert forall|i: int|
            0 <= i < events.len() && (#[trigger] events[i]).id == id && (forall|j: int|
                i < j < events.len() ==> (#[trigger] events[j]).id != id) implies latest_activation(
            events,
            id,
        ) == Some(events[i].activated) by {
            if i < n {
                assert(events[n].id != id);
                assert(init[i] == events[i]);
                assert forall|j: int| i < j < init.len() implies (#[trigger] init[j]).id != id by {
                    assert(init[j] == events[j]);
                    assert(events[j].id != id);
                }
            }
        }
    }
}

} // verus!
