//! The settings file of the platform.

use vstd::prelude::*;

verus! {

/// The settings read from the configuration file.
#[derive(Clone, Debug)]
pub struct Config {
    pub db_ip: String,
}

} // verus!
