//! What the gateway is started with.

use vstd::prelude::*;
use vstd::string::*;

verus! {

/// The settings of one run. They are read once, at the start, and handed to
/// whoever needs them.
#[derive(Debug, Clone)]
pub struct EnvVarConfig {
    pub port: u16,
    pub origin: String,
    pub db: String,
    pub secure: bool,
    pub certs: String,
    pub domain: String,
    pub sonic_server: String,
    pub sonic_password: String,
    pub broker: String,
}

impl Default for EnvVarConfig {
    /// The settings of a run that was given none.
    fn default() -> (config: EnvVarConfig)
        ensures
            config.port == 8888,
            config.origin@ == "*"@,
            config.db@ == "db"@,
            !config.secure,
            config.certs@ == "certs"@,
            config.domain@ == "localhost"@,
            config.sonic_server@ == "localhost:1491"@,
            config.sonic_password@ == "SecretPassword"@,
            config.broker@ == "http://localhost:8080"@,
    {
        EnvVarConfig {
            port: 8888,
            origin: String::from_str("*"),
            db: String::from_str("db"),
            secure: false,
            certs: String::from_str("certs"),
            domain: String::from_str("localhost"),
            sonic_server: String::from_str("localhost:1491"),
            sonic_password: String::from_str("SecretPassword"),
            broker: String::from_str("http://localhost:8080"),
        }
    }
}

} // verus!
