//! The interaction controller: its state, the intents it accepts, the
//! transitions, the mapping from keys to intents, and the projection of the
//! state for display.

pub mod actions;
pub mod state;
pub mod logic;
pub mod input;
pub mod view;

pub use input::handle_key_event;
pub use state::App;
