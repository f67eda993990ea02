//! A grid-indexed spatial index over a mutable collection of entities.
//!
//! Entities live in an [`store::EntityStore`] and carry an optional position
//! together with a row of optional component values, one slot per field of a
//! [`schema::Schema`]. The [`table::SpatialHashTable`] is a materialized view
//! over that store: for every grid cell it keeps one aggregate per schema
//! field (a boolean-presence counter, a value sum, or a membership set) plus
//! the exact set of entities occupying the cell and a last-modified stamp.
//!
//! The table is never recomputed from scratch. Instead, a batch of pending
//! edits is described by a [`changeset::ChangeSet`], and
//! [`table::SpatialHashTable::update`] applies exactly the diff the batch
//! implies. Its contract states the central invariant: if the table agrees
//! with the store before the batch, it agrees with the store after it.
//!
//! A turn scheduler ([`schedule::Schedule`]) is included as an independent
//! utility: a priority queue of timed events with ticket-based cancellation.

pub mod cell;
pub mod changeset;
pub mod coords;
pub mod model;
pub mod schedule;
pub mod snapshot;
pub mod schema;
pub mod store;
pub mod table;

pub use cell::Cell;
pub use changeset::ChangeSet;
pub use coords::Coord;
pub use schedule::{Schedule, ScheduleEvent, ScheduleTicket, SerializableSchedule};
pub use schema::{FieldDef, FieldKind, Schema};
pub use snapshot::TableSnapshot;
pub use store::EntityStore;
pub use table::{SpatialHashTable, apply_turn};
