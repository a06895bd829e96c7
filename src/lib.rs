//! Finding likely item-duplication stashes in a game world's save data: a
//! region tree over containers, and the clustering of containers whose
//! items of one group add up to more than a threshold.
pub mod args;
pub mod bounds;
pub mod config;
pub mod detect;
pub mod player;
pub mod quadtree;
