//! Mirror of a remote room-booking source: time normalisation, the booking
//! store, reconciliation, the scheduling decisions around them, and the
//! shutdown flag that the long-running tasks share.

pub mod booking;
pub mod config;
pub mod db;
pub mod pull_from_ct;
pub mod reconcile;
pub mod shutdown;
pub mod sync;
pub mod time;
pub mod web;

pub use crate::booking::Booking;
pub use crate::shutdown::InShutdown;
