use vstd::prelude::*;

pub mod bindings;
pub mod combinations;
pub mod remap;
pub mod types;

pub use bindings::{ApplicationBindings, Callback, CallbackView};
pub use combinations::{get_ones_indexes, map_indexes_combination, total_combinations};
pub use remap::{Decision, Event, Remap};
pub use types::{Binding, KeyPress};
