//! In-memory store and analysis for an amateur-radio spotting feed.
//!
//! The crate parses spot lines from a reverse-beacon feed, keeps a bounded
//! in-memory database of recent spots, groups them into prefix-based regions,
//! and computes time-windowed per-band activity views. Frequencies are held
//! in tenths of a kHz and timestamps in seconds since the Unix epoch, so that
//! every rule about them is stated and checked over plain integers.

pub mod activity;
pub mod bands;
pub mod config;
pub mod rbn_reader;
pub mod region_loader;
pub mod rest_api;
pub mod shared;
pub mod sorting;
pub mod spot_db;
pub mod text;
