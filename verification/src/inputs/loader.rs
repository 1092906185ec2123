//! Choosing which binding table to use at startup.
use vstd::prelude::*;

use crate::inputs::InputBindings;

verus! {

/// The bindings to use, each table with what was read beside it (such as
/// the device codes its entries name): the player's saved table when it was
/// read and parsed, else the shipped default table when it was, else the
/// empty table with `fallback`.
pub fn pick_bindings<C>(
    saved: Option<(InputBindings, C)>,
    shipped: Option<(InputBindings, C)>,
    fallback: C,
) -> (b: (InputBindings, C))
    ensures
        match saved {
            Some(s) => b == s,
            None => match shipped {
                Some(d) => b == d,
                None => b.1 == fallback && b.0.keyboard@.len() == 0 && b.0.gamepad_buttons@.len() == 0
                    && b.0.gamepad_axes@.len() == 0,
            },
        },
{
    match saved {
        Some(s) => s,
        None => match shipped {
            Some(d) => d,
            None => (InputBindings::default(), fallback),
        },
    }
}

} // verus!
