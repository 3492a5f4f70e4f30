//! The networks and where they are reached.
use vstd::prelude::*;

use crate::text::{http_to_ws, replace_http, same_text};

verus! {

/// The Network enum is used to set the RPC URL to use for finding the current leader.
/// The default value is Devnet.
#[derive(Debug, Clone, Copy, PartialEq, Eq)]
pub enum Network {
    Devnet,
    MainnetBeta,
    Testnet,
    Localnet,
}

impl Default for Network {
    fn default() -> (r: Self)
        ensures
            r == Network::Devnet,
    {
        Network::Devnet
    }
}

impl std::str::FromStr for Network {
    type Err = ();

    fn from_str(s: &str) -> (r: Result<Self, ()>)
        ensures
            match r {
                Ok(network) => Network::named(s@) == Some(network),
                Err(_) => Network::named(s@) is None,
            },
    {
        Network::from_str(s)
    }
}

impl Network {
    /// The name of the network.
    pub open spec fn name(self) -> Seq<char> {
        match self {
            Network::Devnet => "devnet"@,
            Network::MainnetBeta => "mainnet"@,
            Network::Testnet => "testnet"@,
            Network::Localnet => "localnet"@,
        }
    }

    /// The network that has the name `s`, if there is one.
    pub open spec fn named(s: Seq<char>) -> Option<Network> {
        if s == "devnet"@ {
            Some(Network::Devnet)
        } else if s == "mainnet"@ {
            Some(Network::MainnetBeta)
        } else if s == "testnet"@ {
            Some(Network::Testnet)
        } else if s == "localnet"@ {
            Some(Network::Localnet)
        } else {
            None
        }
    }

    /// The address of the network's public RPC node.
    pub open spec fn address(self) -> Seq<char> {
        match self {
            Network::Devnet => "https://api.devnet.solana.com"@,
            Network::MainnetBeta => "https://api.mainnet-beta.solana.com"@,
            Network::Testnet => "https://api.testnet.solana.com"@,
            Network::Localnet => "http://127.0.0.1:8899"@,
        }
    }

    /// Finds a network by its name.
    pub fn from_str(s: &str) -> (r: Result<Network, ()>)
        ensures
            match r {
                Ok(network) => Network::named(s@) == Some(network),
                Err(_) => Network::named(s@) is None,
            },
            match r {
                Ok(Network::Devnet) => s@ == "devnet"@,
                Ok(Network::MainnetBeta) => s@ == "mainnet"@,
                Ok(Network::Testnet) => s@ == "testnet"@,
                Ok(Network::Localnet) => s@ == "localnet"@,
                Err(_) => s@ != "devnet"@ && s@ != "mainnet"@ && s@ != "testnet"@ && s@
                    != "localnet"@,
            },
    {
        if same_text(s, "devnet") {
            Ok(Network::Devnet)
        } else if same_text(s, "mainnet") {
            Ok(Network::MainnetBeta)
        } else if same_text(s, "testnet") {
            Ok(Network::Testnet)
        } else if same_text(s, "localnet") {
            Ok(Network::Localnet)
        } else {
            Err(())
        }
    }

    /// The name of the network.
    pub fn to_string(&self) -> (r: String)
        ensures
            r@ == self.name(),
            r@ == match self {
                Network::Devnet => "devnet"@,
                Network::MainnetBeta => "mainnet"@,
                Network::Testnet => "testnet"@,
                Network::Localnet => "localnet"@,
            },
    {
        match self {
            Network::Devnet => "devnet".to_owned(),
            Network::MainnetBeta => "mainnet".to_owned(),
            Network::Testnet => "testnet".to_owned(),
            Network::Localnet => "localnet".to_owned(),
        }
    }

    /// The address of the network's public RPC node.
    pub fn url(&self) -> (r: &'static str)
        ensures
            r@ == self.address(),
            r@ == match self {
                Network::Devnet => "https://api.devnet.solana.com"@,
                Network::MainnetBeta => "https://api.mainnet-beta.solana.com"@,
                Network::Testnet => "https://api.testnet.solana.com"@,
                Network::Localnet => "http://127.0.0.1:8899"@,
            },
    {
        match self {
            Network::Devnet => "https://api.devnet.solana.com",
            Network::MainnetBeta => "https://api.mainnet-beta.solana.com",
            Network::Testnet => "https://api.testnet.solana.com",
            Network::Localnet => "http://127.0.0.1:8899",
        }
    }
}

/// A network is found by its name, and by no other text.
pub proof fn law_network_names(network: Network, s: Seq<char>)
    ensures
        Network::named(s) == Some(network) <==> s == network.name(),
{
    reveal_strlit("devnet");
    reveal_strlit("mainnet");
    reveal_strlit("testnet");
    reveal_strlit("localnet");
    assert("devnet"@[0] == 'd' && "mainnet"@[0] == 'm' && "testnet"@[0] == 't' && "localnet"@[0]
        == 'l');
}

/// How a client of the leaders is to be set up.
pub struct TpuEndpoints {
    /// The address of the RPC node.
    pub rpc: String,
    /// The address at which the same node announces slots.
    pub websocket: String,
    /// For how many slots ahead transactions are sent to the leaders.
    pub fanout_slots: u64,
}

/// Finds how a client of the leaders is to be set up for an RPC node: the websocket address is
/// that of the node with `ws` for every `http`, and only the current leader is sent to.
pub fn tpu_endpoints(url: &str) -> (r: TpuEndpoints)
    ensures
        r.rpc@ == url@,
        r.websocket@ == http_to_ws(url@),
        r.fanout_slots == 1,
{
    TpuEndpoints { rpc: url.to_owned(), websocket: replace_http(url), fanout_slots: 1 }
}

} // verus!
