//! State-processing core of a node that keeps client-side-validated contract
//! state: merging incoming consignments into a stash, and composing minimal
//! consignments that prove the provenance of selected outputs.

pub mod absorb;
pub mod ancestry;
pub mod anchor;
pub mod bundle;
pub mod collector;
pub mod command;
pub mod compose;
pub mod concealment;
pub mod consignment;
pub mod disclosure;
pub mod graph;
pub mod ident;
pub mod ingest;
pub mod lookup;
pub mod replay;
pub mod seal;
pub mod selection;
pub mod stash;
pub mod state;
pub mod table;

pub use collector::Collector;
pub use command::Command;
pub use ingest::{Runtime, Validity};
pub use stash::{Stash, StashError};
