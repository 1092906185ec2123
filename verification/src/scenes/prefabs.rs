//! Reusable level pieces: floor buttons, the lights they drive, NPCs and the player.
pub mod button_light;
pub mod floor_button;
pub mod npc;
pub mod player;
