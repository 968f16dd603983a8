use vstd::prelude::*;

pub mod snapshot;
pub mod reconcile;
pub mod app;
pub mod hotkeys;
pub mod laws;

pub use app::{App, AppState, ExitAction, SessionCommand, CommandOutcome};
pub use snapshot::{SessionRecord, parse_snapshot};
pub use hotkeys::hotkeys;

verus! {

} // verus!
