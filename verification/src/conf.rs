//! Configuration records for the surrounding service.  The library holds the
//! bare values and the few rules derived from them; loading, environment
//! resolution, and hot reload belong to the caller.

use vstd::prelude::*;
use vstd::string::StringExecFns;

verus! {

/// A configuration string that may have been resolved from an environment
/// variable by the loader; by the time it reaches the library it is plain.
#[derive(Clone, Debug)]
pub struct EnvString(pub String);

/// Where the column store lives and how to authenticate against it.
#[derive(Clone, Debug)]
pub struct ClickHouseConfig {
    pub url: String,
    pub database: String,
    pub user: String,
    pub password: String,
}

impl Default for ClickHouseConfig {
    /// The local single-node defaults.
    fn default() -> (r: ClickHouseConfig)
        ensures
            r.url@ == "http://localhost:8123"@,
            r.database@ == "site"@,
            r.user@ == "default"@,
            r.password@.len() == 0,
    {
        ClickHouseConfig {
            url: String::from_str("http://localhost:8123"),
            database: String::from_str("site"),
            user: String::from_str("default"),
            password: String::new(),
        }
    }
}

/// How to reach the outgoing mail relay.
#[derive(Clone, Debug)]
pub struct SmtpConfig {
    pub host: String,
    pub port: u16,
    pub username: String,
    pub password: String,
    pub from_email: String,
    pub from_name: String,
}

impl Default for SmtpConfig {
    /// A common relay with no credentials: mail stays disabled until the
    /// operator fills the account in.
    fn default() -> (r: SmtpConfig)
        ensures
            r.host@ == "smtp.gmail.com"@,
            r.port == 587,
            r.username@.len() == 0,
            r.password@.len() == 0,
            r.from_email@.len() == 0,
            r.from_name@ == "My Site"@,
    {
        SmtpConfig {
            host: String::from_str("smtp.gmail.com"),
            port: 587,
            username: String::new(),
            password: String::new(),
            from_email: String::new(),
            from_name: String::from_str("My Site"),
        }
    }
}

/// The federated sign-in client pair.
#[derive(Clone, Debug)]
pub struct GoogleOAuthConfig {
    pub client_id: String,
    pub client_secret: String,
}

impl Default for GoogleOAuthConfig {
    /// Unconfigured: both halves empty.
    fn default() -> (r: GoogleOAuthConfig)
        ensures
            r.client_id@.len() == 0,
            r.client_secret@.len() == 0,
    {
        GoogleOAuthConfig { client_id: String::new(), client_secret: String::new() }
    }
}

impl GoogleOAuthConfig {
    /// Federated sign-in is offered exactly when both halves are present.
    pub fn is_configured(&self) -> (r: bool)
        ensures
            r <==> (self.client_id@.len() > 0 && self.client_secret@.len() > 0),
    {
        !self.client_id.as_str().is_empty() && !self.client_secret.as_str().is_empty()
    }
}

} // verus!
