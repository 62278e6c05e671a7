//! The configuration object the core consumes.
//!
//! Loading and validating a configuration file is the surrounding program's
//! business; the core only reads these plain values.

use vstd::prelude::*;
use crate::strutil::{find_char, lemma_first_index_of, spec_first_index_of};

verus! {

pub struct ServerConfig {
    pub bind_addr: String,
}

pub struct CacheConfig {
    pub storage_path: String,
    pub default_ttl: u64,
}

pub struct UpstreamConfig {
    pub proxy_url: Option<String>,
}

pub struct UserAgentConfig {
    pub value: String,
}

pub struct LoggingConfig {
    pub level: String,
}

pub struct Config {
    pub server: ServerConfig,
    pub cache: CacheConfig,
    pub upstream: Option<UpstreamConfig>,
    pub user_agent: UserAgentConfig,
    pub logging: LoggingConfig,
}

#[derive(Debug)]
pub enum ConfigError {
    /// Reading the configuration file failed.
    IoError(String),
    /// The configuration file did not parse.
    ParseError(String),
    /// The bind address has no port part.
    BindAddrError(String),
}

impl Config {
    /// A bind address must carry a port, i.e. contain a colon.
    pub fn validate(&self) -> (r: Result<(), ConfigError>)
        ensures
            (r is Ok) == self.server.bind_addr@.contains(':'),
            r is Err ==> r matches Err(ConfigError::BindAddrError(_)),
    {
        proof {
            lemma_first_index_of(self.server.bind_addr@, ':');
        }
        match find_char(self.server.bind_addr.as_str(), ':') {
            Some(_) => {
                proof {
                    let i = spec_first_index_of(self.server.bind_addr@, ':');
                    assert(self.server.bind_addr@[i] == ':');
                }
                Ok(())
            },
            None => {
                assert(!self.server.bind_addr@.contains(':'));
                Err(ConfigError::BindAddrError("bind address must contain a port".to_owned()))
            },
        }
    }
}

impl Default for Config {
    /// The built-in configuration used when no file is given.
    fn default() -> (r: Config)
        ensures
            r.server.bind_addr@ == "127.0.0.1:8080"@,
            r.cache.storage_path@ == "./cache"@,
            r.cache.default_ttl == 3600,
            r.upstream is None,
            r.user_agent.value@
                == "Mozilla/5.0 (Macintosh; Intel Mac OS X 10_15_7) AppleWebKit/537.36 (KHTML, like Gecko) Chrome/120.0.0.0 Safari/537.36"@,
            r.logging.level@ == "info"@,
    {
        Config {
            server: ServerConfig { bind_addr: "127.0.0.1:8080".to_owned() },
            cache: CacheConfig { storage_path: "./cache".to_owned(), default_ttl: 3600 },
            upstream: None,
            user_agent: UserAgentConfig {
                value:
                    "Mozilla/5.0 (Macintosh; Intel Mac OS X 10_15_7) AppleWebKit/537.36 (KHTML, like Gecko) Chrome/120.0.0.0 Safari/537.36".to_owned(),
            },
            logging: LoggingConfig { level: "info".to_owned() },
        }
    }
}

} // verus!
