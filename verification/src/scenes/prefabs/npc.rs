//! NPCs that wake up while the player is near and can be talked to.
use vstd::prelude::*;

use crate::scenes::prefabs::player::ActiveInteractible;

verus! {

/// The first sensor (entity id) the player touches, if any.
pub open spec fn first_touching(sensors: Seq<(u64, bool)>) -> Option<u64>
    decreases sensors.len(),
{
    if sensors.len() == 0 {
        None
    } else if sensors[0].1 {
        Some(sensors[0].0)
    } else {
        first_touching(sensors.drop_first())
    }
}

/// Whether `entity` is one of the sensors.
pub open spec fn is_sensor(sensors: Seq<(u64, bool)>, entity: u64) -> bool {
    exists|i: int| 0 <= i < sensors.len() && sensors[i].0 == entity
}

/// The NPC sensors whose look changes this frame.
#[derive(Debug, Clone, Copy, PartialEq, Eq, Structural)]
pub struct NpcRecolor {
    /// The sensor whose NPC goes back to sleep.
    pub sleep: Option<u64>,
    /// The sensor whose NPC wakes up.
    pub wake: Option<u64>,
}

/// The first sensor touched by the player becomes the active interactible.
/// When that changes, the previous one (if it is still a sensor) sleeps and
/// the new one (if any) wakes.
pub fn on_npc_collision(sensors: &Vec<(u64, bool)>, active: &mut ActiveInteractible) -> (r:
    NpcRecolor)
    ensures
        final(active).0 == first_touching(sensors@),
        r.wake == (if first_touching(sensors@) != old(active).0 {
            first_touching(sensors@)
        } else {
            None
        }),
        r.sleep == (match old(active).0 {
            Some(prev) => if first_touching(sensors@) != old(active).0 && is_sensor(
                sensors@,
                prev,
            ) {
                Some(prev)
            } else {
                None
            },
            None => None,
        }),
{
    let prev = active.0;
    let mut near: Option<u64> = None;
    let mut i: usize = 0;
    proof {
        assert(sensors@.skip(0) == sensors@);
    }
    while i < sensors.len()
        invariant_except_break
            i <= sensors.len(),
            first_touching(sensors@) == first_touching(sensors@.skip(i as int)),
            near.is_none(),
        ensures
            near == first_touching(sensors@),
        decreases sensors.len() - i,
    {
        proof {
            assert(sensors@.skip(i as int).drop_first() == sensors@.skip(i + 1));
            assert(sensors@.skip(i as int)[0] == sensors@[i as int]);
        }
        if sensors[i].1 {
            near = Some(sensors[i].0);
            break;
        }
        i += 1;
    }
    let mut r = NpcRecolor { sleep: None, wake: None };
    if near != prev {
        if let Some(p) = prev {
            let mut k: usize = 0;
            while k < sensors.len()
                invariant_except_break
                    k <= sensors.len(),
                    forall|j: int| 0 <= j < k ==> sensors@[j].0 != p,
                    r.sleep.is_none(),
                ensures
                    r.sleep == (if is_sensor(sensors@, p) {
                        Some(p)
                    } else {
                        None
                    }),
                decreases sensors.len() - k,
            {
                if sensors[k].0 == p {
                    r.sleep = Some(p);
                    break;
                }
                k += 1;
            }
        }
        r.wake = near;
    }
    active.0 = near;
    r
}

/// Law: the active interactible is the first sensor in the list that the
/// player touches, and there is none when the player touches no sensor.
pub proof fn law_first_touched_sensor_is_active(sensors: Seq<(u64, bool)>)
    ensures
        (forall|i: int| 0 <= i < sensors.len() ==> !(#[trigger] sensors[i]).1) ==> first_touching(
            sensors,
        ) is None,
        forall|i: int|
            0 <= i < sensors.len() && (#[trigger] sensors[i]).1 && (forall|j: int|
                0 <= j < i ==> !(#[trigger] sensors[j]).1) ==> first_touching(sensors) == Some(
                sensors[i].0,
            ),
    decreases sensors.len(),
{
    if sensors.len() > 0 {
        let rest = sensors.drop_first();
        law_first_touched_sensor_is_active(rest);
        if forall|i: int| 0 <= i < sensors.len() ==> !(#[trigger] sensors[i]).1 {
            assert(!sensors[0].1);
            assert forall|i: int| 0 <= i < rest.len() implies !(#[trigger] rest[i]).1 by {
                assert(rest[i] == sensors[i + 1]);
            }
        }
        assert forall|i: int|
            0 <= i < sensors.len() && (#[trigger] sensors[i]).1 && (forall|j: int|
                0 <= j < i ==> !(#[trigger] sensors[j]).1) implies first_touching(sensors) == Some(
            sensors[i].0,
        ) by {
            if i > 0 {
                assert(!sensors[0].1);
                assert(rest[i - 1] == sensors[i]);
                assert forall|j: int| 0 <= j < i - 1 implies !(#[trigger] rest[j]).1 by {
                    assert(rest[j] == sensors[j + 1]);
                    assert(!sensors[j + 1].1);
                }
            }
        }
    }
}

} // verus!
