//! The TLS settings of the client.
use vstd::prelude::*;

verus! {

/// TLS configuration of the client.
#[derive(Clone, Debug, PartialEq, Eq)]
pub struct TlsConfig {
    /// Whether to verify the TLS certificate or not. Defaults to `true`.
    ///
    /// If invalid certificates are trusted, *any* certificate for *any*
    /// site will be trusted for use, expired ones included: use `false`
    /// only as a last resort.
    pub verify: bool,
    /// The path to a custom TLS certificate in PEM format, for a server
    /// with a self-signed certificate for example.
    pub cert: Option<String>,
}

impl Default for TlsConfig {
    /// Certificates are verified, against the usual roots only.
    fn default() -> (r: TlsConfig)
        ensures
            r.verify,
            r.cert is None,
    {
        TlsConfig { verify: true, cert: None }
    }
}

} // verus!
