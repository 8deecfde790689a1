//! Runtime configuration of the server, from environment variables.

use vstd::prelude::*;

use crate::text::{parse_unsigned, unsigned_value};

verus! {

#[derive(Debug)]
pub struct Config {
    /// `WEAVEDRAW_ADDR`: socket to listen on. Default `127.0.0.1:8080`.
    pub addr: String,
    /// `WEAVEDRAW_DATA_DIR`: where room snapshots are persisted. Default `data`.
    pub data_dir: String,
    /// `WEAVEDRAW_MAX_PEERS`: connections per room before `RoomFull`. Default 64.
    pub max_peers: usize,
    /// `WEAVEDRAW_FLUSH_SECS`: how often dirty rooms are written to disk, in
    /// milliseconds here. Default two seconds.
    pub flush_interval_ms: u128,
    /// How long a fresh connection may stay silent before sending `Hello`, in
    /// milliseconds.
    pub hello_timeout_ms: u128,
}

/// Mathematical counterpart of [`Config`].
#[verifier::ext_equal]
pub struct ConfigView {
    pub addr: Seq<char>,
    pub data_dir: Seq<char>,
    pub max_peers: nat,
    pub flush_interval_ms: nat,
    pub hello_timeout_ms: nat,
}

impl View for Config {
    type V = ConfigView;

    open spec fn view(&self) -> ConfigView {
        ConfigView {
            addr: self.addr@,
            data_dir: self.data_dir@,
            max_peers: self.max_peers as nat,
            flush_interval_ms: self.flush_interval_ms as nat,
            hello_timeout_ms: self.hello_timeout_ms as nat,
        }
    }
}

impl ConfigView {
    pub open spec fn standard() -> ConfigView {
        ConfigView {
            addr: "127.0.0.1:8080"@,
            data_dir: "data"@,
            max_peers: 64,
            flush_interval_ms: 2000,
            hello_timeout_ms: 10000,
        }
    }
}

impl Clone for Config {
    fn clone(&self) -> (r: Config)
        ensures
            r@ == self@,
    {
        Config {
            addr: self.addr.clone(),
            data_dir: self.data_dir.clone(),
            max_peers: self.max_peers,
            flush_interval_ms: self.flush_interval_ms,
            hello_timeout_ms: self.hello_timeout_ms,
        }
    }
}

impl Default for Config {
    fn default() -> (r: Config)
        ensures
            r@ == ConfigView::standard(),
    {
        Config {
            addr: "127.0.0.1:8080".to_owned(),
            data_dir: "data".to_owned(),
            max_peers: 64,
            flush_interval_ms: 2000,
            hello_timeout_ms: 10000,
        }
    }
}

/// The environment variables that are set. Whether an address is one is known
/// only to who can resolve it, and comes along.
#[derive(Debug)]
pub struct Vars {
    pub addr: Option<String>,
    pub addr_is_valid: bool,
    pub data_dir: Option<String>,
    pub max_peers: Option<String>,
    pub flush_secs: Option<String>,
}

/// Which variable could not be read.
#[derive(Clone, Copy, Debug, PartialEq, Eq, Structural)]
pub enum ConfigError {
    Addr,
    MaxPeers,
    FlushSecs,
}

impl ConfigError {
    /// The words shown to a user.
    pub open spec fn words(self) -> Seq<char> {
        match self {
            ConfigError::Addr => "WEAVEDRAW_ADDR is not a socket address"@,
            ConfigError::MaxPeers => "WEAVEDRAW_MAX_PEERS is not a number"@,
            ConfigError::FlushSecs => "WEAVEDRAW_FLUSH_SECS is not a number"@,
        }
    }

    /// The words shown to a user.
    pub fn describe(&self) -> (r: String)
        ensures
            r@ == self.words(),
    {
        match self {
            ConfigError::Addr => "WEAVEDRAW_ADDR is not a socket address".to_owned(),
            ConfigError::MaxPeers => "WEAVEDRAW_MAX_PEERS is not a number".to_owned(),
            ConfigError::FlushSecs => "WEAVEDRAW_FLUSH_SECS is not a number".to_owned(),
        }
    }
}

impl Vars {
    /// The first variable, in the order of the fields, that cannot be read.
    pub open spec fn fault(self) -> Option<ConfigError> {
        if self.addr is Some && !self.addr_is_valid {
            Some(ConfigError::Addr)
        } else if self.max_peers is Some && unsigned_value(
            self.max_peers->0@,
            usize::MAX as int,
        ) is None {
            Some(ConfigError::MaxPeers)
        } else if self.flush_secs is Some && unsigned_value(
            self.flush_secs->0@,
            u64::MAX as int,
        ) is None {
            Some(ConfigError::FlushSecs)
        } else {
            None
        }
    }

    /// The defaults, overridden by what is set.
    pub open spec fn config(self) -> ConfigView {
        let standard = ConfigView::standard();
        ConfigView {
            addr: match self.addr {
                Some(v) => v@,
                None => standard.addr,
            },
            data_dir: match self.data_dir {
                Some(v) => v@,
                None => standard.data_dir,
            },
            max_peers: match self.max_peers {
                Some(v) => unsigned_value(v@, usize::MAX as int)->0 as nat,
                None => standard.max_peers,
            },
            flush_interval_ms: match self.flush_secs {
                Some(v) => 1000 * unsigned_value(v@, u64::MAX as int)->0 as nat,
                None => standard.flush_interval_ms,
            },
            hello_timeout_ms: standard.hello_timeout_ms,
        }
    }
}

impl Config {
    /// The configuration that the environment asks for.
    pub fn from_env(vars: Vars) -> (r: Result<Config, ConfigError>)
        ensures
            match r {
                Ok(config) => vars.fault() is None && config@ == vars.config(),
                Err(e) => vars.fault() == Some(e),
            },
    {
        let mut config = Config::default();
        if let Some(v) = vars.addr {
            if !vars.addr_is_valid {
                return Err(ConfigError::Addr);
            }
            config.addr = v;
        }
        if let Some(v) = vars.data_dir {
            config.data_dir = v;
        }
        if let Some(v) = vars.max_peers {
            match parse_unsigned(v.as_str(), usize::MAX as u64) {
                Some(n) => {
                    config.max_peers = n as usize;
                },
                None => return Err(ConfigError::MaxPeers),
            }
        }
        if let Some(v) = vars.flush_secs {
            match parse_unsigned(v.as_str(), u64::MAX) {
                Some(n) => {
                    config.flush_interval_ms = 1000 * (n as u128);
                },
                None => return Err(ConfigError::FlushSecs),
            }
        }
        Ok(config)
    }
}

} // verus!
