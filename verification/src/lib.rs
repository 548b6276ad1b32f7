//! Core state model of a small task-list application.
//!
//! The library owns the ordered collection of task entries and the active
//! view filter, and offers the command surface a controller drives: adding,
//! toggling, editing and removing entries addressed by their position in the
//! currently filtered view, together with the derived queries the view needs
//! and a byte codec for persisting the entry collection.

pub mod codec;
pub mod entry;
pub mod filter;
pub mod model;
pub mod state;

pub use entry::Entry;
pub use entry::EntryView;
pub use filter::Filter;
pub use state::Msg;
pub use state::State;
pub use state::StoreError;
