//! Configuration for the plain HTTP transport: user agent, optional
//! upstream proxy, transfer timeout.
//!
//! The transfers themselves (GET, HEAD, downloads) are network work and are
//! performed by the surrounding program with this configuration.

use vstd::prelude::*;

verus! {

#[derive(Debug)]
pub enum CurlError {
    /// The transfer itself failed.
    CurlError(String),
    /// Reading or writing a local file failed.
    IoError(String),
    /// The server answered with an error status.
    HttpError(String),
    /// The transfer ran out of time.
    TimeoutError,
}

/// What every transfer of this client carries.
#[derive(Debug)]
pub struct CurlClient {
    pub user_agent: String,
    pub proxy_url: Option<String>,
    pub timeout_secs: u64,
}

impl CurlClient {
    /// A client with the fixed 30 second transfer timeout.
    pub fn new(user_agent: String, proxy_url: Option<String>) -> (r: Self)
        ensures
            r.user_agent == user_agent,
            r.proxy_url == proxy_url,
            r.timeout_secs == 30,
    {
        CurlClient { user_agent, proxy_url, timeout_secs: 30 }
    }

    /// The same client with another timeout.
    pub fn with_timeout(self, timeout_secs: u64) -> (r: Self)
        ensures
            r.user_agent == self.user_agent,
            r.proxy_url == self.proxy_url,
            r.timeout_secs == timeout_secs,
    {
        CurlClient { user_agent: self.user_agent, proxy_url: self.proxy_url, timeout_secs }
    }
}

} // verus!
