//! The HTTP client that fetches from origins: how it is set up, and the client of the
//! `reqwest` crate that is built so.

use std::time::Duration;

use reqwest::Client;
use vstd::prelude::*;

verus! {

/// A client of the `reqwest` crate.
#[verifier::external_type_specification]
#[verifier::external_body]
pub struct ExClient(reqwest::Client);

/// An error of the `reqwest` crate.
#[verifier::external_type_specification]
#[verifier::external_body]
pub struct ExError(reqwest::Error);

/// How an HTTP client is set up. There is no limit on a whole transfer: a long video
/// from a slow origin must not be cut off.
#[derive(Clone, Copy, Debug, PartialEq, Eq, Structural)]
pub struct ClientSettings {
    pub accept_invalid_certs: bool,
    pub max_idle_per_host: usize,
    pub idle_timeout_secs: u64,
    pub connect_timeout_secs: u64,
    pub keepalive_secs: u64,
}

/// The settings that a client was built with.
pub uninterp spec fn settings_of(client: Client) -> ClientSettings;

/// The text of an error.
pub uninterp spec fn error_message(error: reqwest::Error) -> Seq<char>;

/// How a client that fetches from origins is set up.
pub open spec fn origin_settings() -> ClientSettings {
    ClientSettings {
        accept_invalid_certs: true,
        max_idle_per_host: 20,
        idle_timeout_secs: 60,
        connect_timeout_secs: 10,
        keepalive_secs: 30,
    }
}

/// How a client that fetches from origins is set up.
pub fn client_settings() -> (result: ClientSettings)
    ensures
        result == origin_settings(),
{
    ClientSettings {
        accept_invalid_certs: true,
        max_idle_per_host: 20,
        idle_timeout_secs: 60,
        connect_timeout_secs: 10,
        keepalive_secs: 30,
    }
}

/// `ClientBuilder::build`, on a builder from `Client::builder` that was given these
/// settings: a client that keeps them, or an error. Whether there is an error depends on
/// the TLS backend of the machine.
#[verifier::external_body]
pub(crate) fn build_client(settings: &ClientSettings) -> (result: Result<Client, reqwest::Error>)
    ensures
        result matches Ok(client) ==> settings_of(client) == *settings,
{
    Client::builder()
        .danger_accept_invalid_certs(settings.accept_invalid_certs)
        .pool_max_idle_per_host(settings.max_idle_per_host)
        .pool_idle_timeout(Duration::from_secs(settings.idle_timeout_secs))
        .connect_timeout(Duration::from_secs(settings.connect_timeout_secs))
        .tcp_keepalive(Duration::from_secs(settings.keepalive_secs))
        .build()
}

/// `to_string` of a `reqwest::Error`: its text, which the error alone determines.
#[verifier::external_body]
pub(crate) fn error_text(error: &reqwest::Error) -> (result: String)
    ensures
        result@ == error_message(*error),
{
    error.to_string()
}

} // verus!
