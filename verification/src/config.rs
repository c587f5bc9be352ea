//! Configuration values the application hands to the library's components.

use vstd::prelude::*;

verus! {

/// Feed-connection settings: the login callsign, where to connect, and
/// the optional replay file used instead of a live connection.
pub struct RBNConfig {
    pub callsign: String,
    pub host: String,
    pub port: u16,
    pub enable_test: bool,
    pub rbn_data_file: String,
}

/// Store maintenance settings, both in seconds.
pub struct DBConfig {
    pub cleanup_period_secs: u64,
    pub max_spot_age_secs: u64,
}

/// The whole configuration.
pub struct Config {
    pub rbn: RBNConfig,
    pub db: DBConfig,
}

} // verus!
