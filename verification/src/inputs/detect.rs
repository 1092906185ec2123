//! Picking the active input device from this frame's activity.
use vstd::prelude::*;

use crate::inputs::bindings::magnitude;
use crate::inputs::{ActiveGamepad, ActiveInputDevice};

verus! {

/// A gamepad event, reduced to what device detection reads. Axis values are
/// in millionths of full deflection.
#[derive(Debug, Clone, Copy, PartialEq, Eq, Structural)]
pub enum GamepadSignal {
    Button { entity: u64 },
    Axis { entity: u64, value: i32 },
    Other,
}

/// An axis event must move past this magnitude (millionths) to claim the device.
pub const AXIS_ACTIVITY_THRESHOLD: u32 = 100_000;

/// One gamepad event applied to (device to switch to, active gamepad).
pub open spec fn signal_step(
    state: (Option<ActiveInputDevice>, Option<u64>),
    signal: GamepadSignal,
) -> (Option<ActiveInputDevice>, Option<u64>) {
    match signal {
        GamepadSignal::Button { entity } => (Some(ActiveInputDevice::Gamepad), Some(entity)),
        GamepadSignal::Axis { entity, value } => if magnitude(value) > AXIS_ACTIVITY_THRESHOLD {
            (Some(ActiveInputDevice::Gamepad), Some(entity))
        } else {
            state
        },
        GamepadSignal::Other => state,
    }
}

/// All gamepad events of a frame, in order.
pub open spec fn signals_frame(
    state: (Option<ActiveInputDevice>, Option<u64>),
    signals: Seq<GamepadSignal>,
) -> (Option<ActiveInputDevice>, Option<u64>)
    decreases signals.len(),
{
    if signals.len() == 0 {
        state
    } else {
        signal_step(signals_frame(state, signals.drop_last()), signals.last())
    }
}

/// The state before the gamepad events: keyboard or mouse activity selects
/// the keyboard and forgets the gamepad.
pub open spec fn keyboard_start(keyboard_activity: bool, gamepad: Option<u64>) -> (
    Option<ActiveInputDevice>,
    Option<u64>,
) {
    if keyboard_activity {
        (Some(ActiveInputDevice::Keyboard), None)
    } else {
        (None, gamepad)
    }
}

/// Decides which device is active after this frame. Keyboard or mouse
/// activity selects the keyboard and clears the active gamepad; then every
/// gamepad button event, and every axis event past the activity threshold,
/// selects the gamepad and makes its sender the active gamepad. Returns the
/// device to switch to, if any was selected (the last selection wins).
pub fn detect_active_device(
    keyboard_activity: bool,
    signals: &Vec<GamepadSignal>,
    active_gamepad: &mut ActiveGamepad,
) -> (next: Option<ActiveInputDevice>)
    ensures
        (next, final(active_gamepad).0) == signals_frame(
            keyboard_start(keyboard_activity, old(active_gamepad).0),
            signals@,
        ),
{
    let mut next: Option<ActiveInputDevice> = None;
    if keyboard_activity {
        next = Some(ActiveInputDevice::Keyboard);
        active_gamepad.0 = None;
    }
    let mut i: usize = 0;
    while i < signals.len()
        invariant
            i <= signals.len(),
            (next, active_gamepad.0) == signals_frame(
                keyboard_start(keyboard_activity, old(active_gamepad).0),
                signals@.take(i as int),
            ),
        decreases signals.len() - i,
    {
        proof {
            assert(signals@.take(i + 1).drop_last() == signals@.take(i as int));
        }
        match signals[i] {
            GamepadSignal::Button { entity } => {
                next = Some(ActiveInputDevice::Gamepad);
                active_gamepad.0 = Some(entity);
            },
            GamepadSignal::Axis { entity, value } => {
                if crate::inputs::bindings::reading_magnitude(value) > AXIS_ACTIVITY_THRESHOLD {
                    next = Some(ActiveInputDevice::Gamepad);
                    active_gamepad.0 = Some(entity);
                }
            },
            GamepadSignal::Other => {},
        }
        i += 1;
    }
    proof {
        assert(signals@.take(signals.len() as int) == signals@);
    }
    next
}

/// Whether a gamepad event claims the device.
pub open spec fn claims_device(signal: GamepadSignal) -> bool {
    match signal {
        GamepadSignal::Button { .. } => true,
        GamepadSignal::Axis { value, .. } => magnitude(value) > AXIS_ACTIVITY_THRESHOLD,
        GamepadSignal::Other => false,
    }
}

/// Law: when any gamepad event of the frame claims the device, the gamepad
/// is selected, whatever the keyboard and mouse did.
pub proof fn law_gamepad_activity_wins(
    state: (Option<ActiveInputDevice>, Option<u64>),
    signals: Seq<GamepadSignal>,
)
    requires
        exists|i: int| 0 <= i < signals.len() && claims_device(#[trigger] signals[i]),
    ensures
        signals_frame(state, signals).0 == Some(ActiveInputDevice::Gamepad),
        signals_frame(state, signals).1.is_some(),
    decreases signals.len(),
{
    let init = signals.drop_last();
    if !claims_device(signals.last()) {
        let i = choose|i: int| 0 <= i < signals.len() && claims_device(#[trigger] signals[i]);
        assert(i != signals.len() - 1);
        assert(init[i] == signals[i]);
        law_gamepad_activity_wins(state, init);
    }
}

/// The gamepad that sent a signal, if the signal names one.
pub open spec fn sender(signal: GamepadSignal) -> Option<u64> {
    match signal {
        GamepadSignal::Button { entity } => Some(entity),
        GamepadSignal::Axis { entity, .. } => Some(entity),
        GamepadSignal::Other => None,
    }
}

/// Whether a signal is a button press, or an axis moved past the activity
/// threshold in either direction.
pub open spec fn is_activity(signal: GamepadSignal) -> bool {
    match signal {
        GamepadSignal::Button { .. } => true,
        GamepadSignal::Axis { value, .. } => value > AXIS_ACTIVITY_THRESHOLD || value
            < -AXIS_ACTIVITY_THRESHOLD,
        GamepadSignal::Other => false,
    }
}

/// Law: the gamepad that last showed activity in a frame (a button, or an
/// axis past the activity threshold) is the active gamepad afterwards, and
/// the gamepad is the device to switch to; a frame with no such activity
/// changes neither the device choice nor the active gamepad.
pub proof fn law_last_active_gamepad_wins(
    state: (Option<ActiveInputDevice>, Option<u64>),
    signals: Seq<GamepadSignal>,
)
    ensures
        (forall|i: int| 0 <= i < signals.len() ==> !is_activity(#[trigger] signals[i]))
            ==> signals_frame(state, signals) == state,
        forall|i: int|
            0 <= i < signals.len() && is_activity(#[trigger] signals[i]) && (forall|j: int|
                i < j < signals.len() ==> !is_activity(#[trigger] signals[j])) ==> signals_frame(
                state,
                signals,
            ) == (Some(ActiveInputDevice::Gamepad), sender(signals[i])),
    decreases signals.len(),
{
    if signals.len() > 0 {
        let init = signals.drop_last();
        let n: int = signals.len() - 1;
        law_last_active_gamepad_wins(state, init);
        let last = signals[n];
        assert(last == signals.last());
        assert(is_activity(last) == claims_device(last));
        if forall|i: int| 0 <= i < signals.len() ==> !is_activity(#[trigger] signals[i]) {
            assert forall|i: int| 0 <= i < init.len() implies !is_activity(#[trigger] init[i]) by {
                assert(init[i] == signals[i]);
            }
            assert(!is_activity(signals[n]));
        }
        assert forall|i: int|
            0 <= i < signals.len() && is_activity(#[trigger] signals[i]) && (forall|j: int|
                i < j < signals.len() ==> !is_activity(#[trigger] signals[j])) implies signals_frame(
            state,
            signals,
        ) == (Some(ActiveInputDevice::Gamepad), sender(signals[i])) by {
            if i < n {
                assert(!is_activity(signals[n]));
                assert(init[i] == signals[i]);
                assert forall|j: int| i < j < init.len() implies !is_activity(#[trigger] init[j]) by {
                    assert(init[j] == signals[j]);
                    assert(!is_activity(signals[j]));
                }
            }
        }
    }
}

/// Law: in a frame without gamepad activity, keyboard or mouse activity
/// selects the keyboard and forgets the active gamepad, and without it
/// neither the device choice nor the active gamepad changes.
pub proof fn law_keyboard_activity_forgets_gamepad(gamepad: Option<u64>, signals: Seq<GamepadSignal>)
    requires
        forall|i: int| 0 <= i < signals.len() ==> !is_activity(#[trigger] signals[i]),
    ensures
        signals_frame(keyboard_start(true, gamepad), signals) == (
            Some(ActiveInputDevice::Keyboard),
            None::<u64>,
        ),
        signals_frame(keyboard_start(false, gamepad), signals) == (None::<ActiveInputDevice>, gamepad),
{
    law_last_active_gamepad_wins(keyboard_start(true, gamepad), signals);
    law_last_active_gamepad_wins(keyboard_start(false, gamepad), signals);
}

} // verus!
