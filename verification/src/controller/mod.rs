//! Decision logic and presentation of the desktop controller.

pub mod presenter;
pub mod types;
pub mod remote;
pub mod history;
pub mod trust;
pub mod devices;
pub mod settings;
pub mod state;
