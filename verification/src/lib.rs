//! Pairwise image tournament: a balanced binary tree of candidate images
//! whose inner nodes are the matches, played from the shallowest up.

pub mod imtr_event_object;
pub mod imtr_mediator;
pub mod imtr_preview;
pub mod match_list;
pub mod month_img_list;
pub mod tree_laws;
pub mod tree_util;
pub mod tree_walk;
pub mod order_laws;
pub mod behaviour_laws;
