//! Verified decision logic of a small room-decoration viewer: which files
//! count as loadable models, how a model's asset path and dropdown label are
//! derived, how the dropdown and the text inputs react to clicks and keys,
//! and which way the player walks for a set of pressed keys.
pub mod catalog;
pub mod controls;
pub mod movement;
