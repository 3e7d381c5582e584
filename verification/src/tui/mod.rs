//! The interactive selection: its state, the rules that move it, and what
//! a front end needs in order to show it.

pub mod app_logic;
pub mod app_state;
pub mod arena;
pub mod event_handler;
pub mod forest;
pub mod keys;
pub mod session;
pub mod ui_renderer;
pub mod viewport;
pub mod visibility;

pub use app_logic::{
    apply_state_and_propagate_down_vec, recalculate_parent_state_vec,
    update_all_parent_states_from_child_vec,
};
pub use app_state::{AppMode, SelectableItem, SelectionState, TuiApp};
pub use arena::prepare_selectable_items;
