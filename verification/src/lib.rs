//! Conversion of waypoints, as read from a GPX document, into a compact
//! binary catalog of points of interest for a navigation unit.
//!
//! The library starts where a document has been parsed: it takes the
//! waypoints as plain values ([`waypoint`]) and works in two stages,
//! run one after the other:
//!
//! 1. [`poi`] maps each waypoint to a device record, cutting the name
//!    to a label ([`label`]) and rounding the coordinates to device
//!    units ([`fixed`]);
//! 2. [`catalog`] lays the records out as bytes.
//!
//! [`convert`] runs the stages together and states what holds of the
//! whole; [`decode`] reads a catalog back. All failures are values of
//! [`error::ConvError`].
pub mod catalog;
pub mod convert;
pub mod decode;
pub mod error;
pub mod fixed;
pub mod label;
pub mod poi;
pub mod waypoint;
