//! The configuration of a run.

use vstd::prelude::*;

verus! {

/// Where the chain is reached, and how much WETH may be committed.
#[derive(Debug)]
pub struct Config {
    /// HTTP endpoint of the node.
    pub http: String,
    /// WebSocket endpoint of the node.
    pub wss: String,
    /// Greatest balance to trade with, in whole ether.
    pub max_bal: u64,
}

/// A setting that a run cannot do without.
#[derive(Clone, Copy, Debug, PartialEq, Eq, Structural)]
pub enum ConfigError {
    MissingNetworkRpc,
    MissingNetworkWss,
}

impl ConfigError {
    /// What is missing, in words.
    pub fn message(&self) -> (r: &'static str)
        ensures
            *self == ConfigError::MissingNetworkRpc ==> r@ == "missing NETWORK_RPC"@,
            *self == ConfigError::MissingNetworkWss ==> r@ == "missing NETWORK_WSS"@,
    {
        match self {
            ConfigError::MissingNetworkRpc => "missing NETWORK_RPC",
            ConfigError::MissingNetworkWss => "missing NETWORK_WSS",
        }
    }
}

impl Config {
    /// The configuration that the environment gives: the two endpoints are required, and the HTTP
    /// one is asked for first.
    pub fn new(network_rpc: Option<String>, network_wss: Option<String>, max_bal: u64) -> (r: Result<
        Config,
        ConfigError,
    >)
        ensures
            r == Err::<Config, ConfigError>(ConfigError::MissingNetworkRpc) <==> network_rpc is None,
            r == Err::<Config, ConfigError>(ConfigError::MissingNetworkWss) <==> network_rpc is Some
                && network_wss is None,
            network_rpc is Some && network_wss is Some ==> r == Ok::<Config, ConfigError>(
                (Config { http: network_rpc->0, wss: network_wss->0, max_bal }),
            ),
    {
        let http = match network_rpc {
            Some(url) => url,
            None => return Err(ConfigError::MissingNetworkRpc),
        };
        let wss = match network_wss {
            Some(url) => url,
            None => return Err(ConfigError::MissingNetworkWss),
        };
        Ok(Config { http, wss, max_bal })
    }
}

} // verus!
