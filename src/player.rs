//! Records of a player's save data that a search reads around.
use vstd::prelude::*;

verus! {

/// Where the player last died.
#[derive(Debug, PartialEq)]
pub struct LastDeathLocation {
    pub pos: Vec<i32>,
    pub dimension: String,
}

/// The recipes a player has unlocked and the state of the recipe book.
#[derive(Debug, PartialEq)]
pub struct RecipeBook {
    pub recipes: Vec<String>,
    pub to_be_displayed: Vec<String>,
    pub is_filtering_craftable: bool,
    pub is_gui_open: bool,
    pub is_furnace_filtering_craftable: bool,
    pub is_furnace_gui_open: bool,
    pub is_blasting_furnace_filtering_craftable: bool,
    pub is_blasting_furnace_gui_open: bool,
    pub is_smoker_filtering_craftable: bool,
    pub is_smoker_gui_open: bool,
}

/// The warden spawn state of a player.
#[derive(Debug, PartialEq, Eq, Structural, Clone, Copy)]
pub struct WardenSpawnTracker {
    pub cooldown_ticks: i32,
    pub ticks_since_last_warning: i32,
    pub warning_level: i32,
}

} // verus!
