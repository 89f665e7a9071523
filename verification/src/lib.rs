//! Reactive state for widget trees: states that notify their subscribers,
//! a scheduler that runs the notifications in passes and reports cycles,
//! app data found through a stack of contexts, and the scope stack that new
//! widgets join.

pub mod appdata;
pub mod batching;
pub mod binding;
pub mod frames;
pub mod id_map;
pub mod runtime;
pub mod scheduler;
pub mod state;
pub mod state_ext;
