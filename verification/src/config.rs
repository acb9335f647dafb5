use vstd::prelude::*;

verus! {

/// Process-level configuration: where the durable store lives and which
/// port the service listens on. Parsing the configuration file is left to
/// the unverified shell, which hands the plain values over.
pub struct Config {
    pub database_url: String,
    pub port: u16,
}

} // verus!
