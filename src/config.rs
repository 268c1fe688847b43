//! Where a producer listens.

use vstd::prelude::*;
use vstd::string::StringExecFns;

verus! {

/// The port both sides use unless told otherwise.
pub const DEFAULT_PORT: &'static str = "3000";

/// The address a producer listens on unless told otherwise: every interface.
pub const DEFAULT_IP: &'static str = "0.0.0.0";

/// A listening address, as host and port text.
pub struct Config {
    pub ip: String,
    pub port: String,
}

impl Config {
    /// The configuration from optional settings, each falling back to its
    /// default when absent.
    pub fn from_settings(ip: Option<String>, port: Option<String>) -> (r: Config)
        ensures
            r.ip@ == match ip {
                Some(s) => s@,
                None => DEFAULT_IP@,
            },
            r.port@ == match port {
                Some(s) => s@,
                None => DEFAULT_PORT@,
            },
    {
        let ip = match ip {
            Some(s) => s,
            None => String::from_str(DEFAULT_IP),
        };
        let port = match port {
            Some(s) => s,
            None => String::from_str(DEFAULT_PORT),
        };
        Config { ip, port }
    }

    /// `host:port`.
    pub fn address(&self) -> (r: String)
        ensures
            r@ == self.ip@ + seq![':'] + self.port@,
    {
        let s = self.ip.clone().concat(":");
        proof {
            reveal_strlit(":");
        }
        s.concat(self.port.as_str())
    }
}

} // verus!
