//! Signature and text scanning of raw dumps, with a browsable model of the
//! findings.
//!
//! [`scan`] turns a byte buffer into located findings and totals,
//! [`browser`] is the key-driven navigation state machine over those
//! findings, and [`view`] projects the state into a description that a
//! terminal front end can draw. [`text`] holds the hexadecimal reading and
//! writing they share. [`scan_laws`] and [`laws`] state what holds of the
//! engine, the state machine and the projection for all inputs.

pub mod entry;
pub mod text;
pub mod scan;
pub mod browser;
pub mod view;
pub mod laws;
pub mod scan_laws;
