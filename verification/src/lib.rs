//! Presence sessions: per-device timelines of contiguous presence intervals,
//! kept up to date from batches of sightings with a grace period that
//! tolerates brief scan gaps.
//!
//! A scanner reports, batch by batch, which devices it sees and whose they
//! are. Each device has a timeline of sessions. A sighting of a device whose
//! session is still open extends that session; a sighting of a device
//! without an open session opens a new one; devices that are not sighted are
//! left alone, and their sessions lapse once the grace period has run out.
//!
//! Instants are seconds since the epoch. A device is identified by its
//! hardware address, a user and a session by a 128-bit identifier. Where a
//! batch sights one device several times, the first sighting counts.
//!
//! - [`config`]: the grace period and the extension window.
//! - [`models`]: sessions, sightings, credentials, and their views.
//! - [`timeline`]: the mathematical model of the store and of a batch.
//! - [`batch`]: what is computed on a batch between the calls to a store.
//! - [`fetch`]: what the repositories make of the outcome of a read.
//! - [`repositories`]: the presence store with its engine, and the
//!   credential store.
//! - [`lemmas`]: what the steps of the model keep and establish.
//! - [`laws`]: what holds of every store and every batch.
//! - [`error`]: what can go wrong at a store.

pub mod batch;
pub mod config;
pub mod error;
pub mod fetch;
pub mod laws;
pub mod lemmas;
pub mod models;
pub mod repositories;
pub mod timeline;
