use jib::network::{tpu_endpoints, Network};
use std::str::FromStr;

const ALL: [Network; 4] =
    [Network::Devnet, Network::MainnetBeta, Network::Testnet, Network::Localnet];

#[test]
fn network_names() {
    assert_eq!(Network::Devnet.to_string(), "devnet");
    assert_eq!(Network::MainnetBeta.to_string(), "mainnet");
    assert_eq!(Network::Testnet.to_string(), "testnet");
    assert_eq!(Network::Localnet.to_string(), "localnet");
}

#[test]
fn network_is_found_by_its_name() {
    for network in ALL {
        assert_eq!(Network::from_str(&network.to_string()), Ok(network));
        assert_eq!(network.to_string().parse::<Network>(), Ok(network));
        assert_eq!(<Network as FromStr>::from_str(&network.to_string()), Ok(network));
    }
}

#[test]
fn network_is_not_found_by_another_name() {
    for name in ["", "Devnet", "mainnet-beta", "devnet ", "mainnetbeta", "local"] {
        assert_eq!(Network::from_str(name), Err(()));
    }
}

#[test]
fn network_defaults_to_devnet() {
    assert_eq!(Network::default(), Network::Devnet);
}

#[test]
fn network_urls() {
    assert_eq!(Network::Devnet.url(), "https://api.devnet.solana.com");
    assert_eq!(Network::MainnetBeta.url(), "https://api.mainnet-beta.solana.com");
    assert_eq!(Network::Testnet.url(), "https://api.testnet.solana.com");
    assert_eq!(Network::Localnet.url(), "http://127.0.0.1:8899");
}

#[test]
fn endpoints_of_the_networks() {
    let devnet = tpu_endpoints(Network::Devnet.url());
    assert_eq!(devnet.rpc, "https://api.devnet.solana.com");
    assert_eq!(devnet.websocket, "wss://api.devnet.solana.com");
    assert_eq!(devnet.fanout_slots, 1);
    let localnet = tpu_endpoints(Network::Localnet.url());
    assert_eq!(localnet.rpc, "http://127.0.0.1:8899");
    assert_eq!(localnet.websocket, "ws://127.0.0.1:8899");
}

#[test]
fn every_http_becomes_ws() {
    let urls =
        ["", "http", "htt", "hhttp", "httphttp", "https://a/?u=http://b", "HTTP://x", "é http é"];
    for url in urls {
        assert_eq!(tpu_endpoints(url).websocket, url.replace("http", "ws"));
        assert_eq!(tpu_endpoints(url).rpc, url);
    }
}
