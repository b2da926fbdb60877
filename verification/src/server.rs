//! What the HTTP front end is configured with.

use vstd::prelude::*;

verus! {

/// The address the server binds to where none is configured.
pub open spec fn default_bind_addr() -> Seq<char> {
    "[::]:8080"@
}

/// The base URL of the artifact service where none is configured.
pub open spec fn default_bombastic_url() -> Seq<char> {
    "http://localhost:8080"@
}

/// The configuration of the HTTP server.
#[derive(Clone, Debug)]
pub struct ServerConfig {
    pub bind_addr: String,
}

impl ServerConfig {
    /// The configuration for the configured bind address, or for the
    /// default one where none is configured.
    pub fn new(bind_addr: Option<String>) -> (r: Self)
        ensures
            r.bind_addr@ == match bind_addr {
                Some(addr) => addr@,
                None => default_bind_addr(),
            },
    {
        match bind_addr {
            Some(addr) => ServerConfig { bind_addr: addr },
            None => ServerConfig { bind_addr: "[::]:8080".to_owned() },
        }
    }
}

/// The base URL of the artifact service: the configured one, or the
/// default one where none is configured.
pub fn bombastic_url(configured: Option<String>) -> (r: String)
    ensures
        r@ == match configured {
            Some(url) => url@,
            None => default_bombastic_url(),
        },
{
    match configured {
        Some(url) => url,
        None => "http://localhost:8080".to_owned(),
    }
}

} // verus!
