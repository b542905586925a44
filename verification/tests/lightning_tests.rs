use boltzr::lightning::{ClnLightningInfo, ListedChannel, ListedNode};

fn hex_to_bytes(s: &str) -> Vec<u8> {
    let digits: Vec<u32> = s.chars().map(|c| c.to_digit(16).unwrap()).collect();
    digits.chunks(2).map(|p| (p[0] * 16 + p[1]) as u8).collect()
}

const ID_BOLTZ: &str = "026165850492521f4ac8abd9bd8088123446d126f648ca35e60f88177dc149ceb2";
const ID_BOLTZ_CLN: &str = "02d96eadea3d780104449aca5c93461ce67c1564e2e1d73225fa67dd3b997a6018";
const ID_BFX0: &str = "033d8656219478701227199cbd6f670335c8d408a92ae88b962c49d4dc0e83e025";
const ID_BFX1: &str = "03cde60a6323f7122d5178255766e38114b4722ede08f7c9e0c5df9b912cc201d6";

fn listed_node(id_hex: &str, alias: Option<&str>) -> ListedNode {
    ListedNode {
        nodeid: hex_to_bytes(id_hex),
        alias: alias.map(|a| a.to_string()),
        color: None,
    }
}

fn sample_nodes() -> Vec<ListedNode> {
    vec![
        ListedNode { nodeid: vec![0x01], alias: None, color: None },
        listed_node(ID_BOLTZ, Some("Boltz")),
        listed_node(ID_BOLTZ_CLN, Some("Boltz|CLN")),
        listed_node(ID_BFX0, Some("bfx-lnd0")),
        listed_node(ID_BFX1, Some("bfx-lnd1")),
    ]
}

fn listed_channel(source: &str, destination: &str, public: bool) -> ListedChannel {
    ListedChannel {
        source: hex_to_bytes(source),
        destination: hex_to_bytes(destination),
        short_channel_id: "123x1x0".to_string(),
        public,
        active: true,
        amount_msat: Some(1_500_000),
        base_fee_millisatoshi: 1000,
        fee_per_millionth: 1,
        delay: 80,
        htlc_minimum_msat: Some(1000),
        htlc_maximum_msat: None,
    }
}

#[test]
fn test_find_node_by_alias() {
    let mut info = ClnLightningInfo::new();
    info.update_cache("BTC", Some(sample_nodes()), Some(Vec::new())).unwrap();

    let nodes = info.find_node_by_alias("BTC", "test");
    assert!(nodes.is_ok());
    assert!(nodes.unwrap().is_empty());

    let nodes = info.find_node_by_alias("BTC", "BOLTZ");
    assert!(nodes.is_ok());
    let nodes = nodes.unwrap();
    assert_eq!(nodes.len(), 2);
    assert!(nodes.iter().any(|n| n.alias == Some("Boltz".to_string())));
    assert!(nodes.iter().any(|n| n.alias == Some("Boltz|CLN".to_string())));
    // Ascending by distance: the exact match comes first.
    assert_eq!(nodes[0].alias, Some("Boltz".to_string()));

    let nodes = info.find_node_by_alias("BTC", "bfx");
    assert!(nodes.is_ok());
    let nodes = nodes.unwrap();
    assert_eq!(nodes.len(), 2);
    assert!(nodes.iter().any(|n| n.alias == Some("bfx-lnd0".to_string())));
    assert!(nodes.iter().any(|n| n.alias == Some("bfx-lnd1".to_string())));
}

#[test]
fn search_is_case_insensitive() {
    let mut info = ClnLightningInfo::new();
    info.update_cache("BTC", Some(sample_nodes()), Some(Vec::new())).unwrap();
    let upper = info.find_node_by_alias("BTC", "BOLTZ").unwrap();
    let lower = info.find_node_by_alias("BTC", "boltz").unwrap();
    let mixed = info.find_node_by_alias("BTC", "BoLtZ").unwrap();
    let aliases = |nodes: &[boltzr::lightning::Node]| -> Vec<Option<String>> {
        nodes.iter().map(|n| n.alias.clone()).collect()
    };
    assert_eq!(aliases(&upper), aliases(&lower));
    assert_eq!(aliases(&upper), aliases(&mixed));
    assert_eq!(upper[0].alias, Some("Boltz".to_string()));
}

#[test]
fn find_node_without_index_fails() {
    let info = ClnLightningInfo::new();
    let r = info.find_node_by_alias("LTC", "whatever");
    assert!(r.is_err());
    assert_eq!(r.unwrap_err().message(), "no nodes for LTC");
}

#[test]
fn test_lightning_info_cache_updates() {
    let mut info = ClnLightningInfo::new();
    info.update_cache("BTC", Some(sample_nodes()), Some(Vec::new())).unwrap();

    let node_id = hex_to_bytes(ID_BOLTZ);
    let node_info = info.get_node_info("BTC", &node_id);
    assert!(node_info.is_ok());

    let node = node_info.unwrap();
    assert_eq!(node.id, ID_BOLTZ);
    assert_eq!(node.alias, Some("Boltz".to_string()));
}

#[test]
fn test_get_channels() {
    let mut info = ClnLightningInfo::new();
    let channels = vec![
        listed_channel(ID_BOLTZ, ID_BFX0, true),
        listed_channel(ID_BOLTZ_CLN, ID_BFX0, true),
        listed_channel(ID_BOLTZ, ID_BFX1, false),
        listed_channel(ID_BFX1, ID_BOLTZ, true),
    ];
    info.update_cache("BTC", Some(sample_nodes()), Some(channels)).unwrap();

    let channel_info = info.get_channels("BTC", &hex_to_bytes(ID_BFX0));
    assert!(channel_info.is_ok());
    let channels = channel_info.unwrap();
    assert_eq!(channels.len(), 2);
    assert_eq!(channels[0].source.id, ID_BOLTZ);
    assert_eq!(channels[0].source.alias, Some("Boltz".to_string()));
    assert_eq!(channels[0].capacity_sat, Some(1500));
    assert_eq!(channels[1].source.id, ID_BOLTZ_CLN);

    // The non-public channel was dropped.
    let r = info.get_channels("BTC", &hex_to_bytes(ID_BFX1));
    assert!(r.is_err());
}

#[test]
fn channel_with_unknown_source_dropped() {
    let mut info = ClnLightningInfo::new();
    let unknown = "03aaaaaaaaaaaaaaaaaaaaaaaaaaaaaaaaaaaaaaaaaaaaaaaaaaaaaaaaaaaaaaaa";
    let channels = vec![listed_channel(unknown, ID_BFX0, true)];
    info.update_cache("BTC", Some(sample_nodes()), Some(channels)).unwrap();
    assert!(info.get_channels("BTC", &hex_to_bytes(ID_BFX0)).is_err());
}

#[test]
fn test_cache_keys() {
    let symbol = "BTC";
    let id = "03abcdef1234567890";

    let node_key = ClnLightningInfo::cache_key_node(symbol, id);
    assert_eq!(node_key, "cln:BTC:node:03abcdef1234567890");

    let channels_key = ClnLightningInfo::cache_key_channels(symbol, id);
    assert_eq!(channels_key, "cln:BTC:channels:03abcdef1234567890");
}

#[test]
fn test_nonexistent_node() {
    let info = ClnLightningInfo::new();

    let fake_node_id = vec![0; 33];

    let result = info.get_node_info("BTC", &fake_node_id);
    assert!(result.is_err());
    assert_eq!(result.unwrap_err().message(), "node not found");

    let result = info.get_channels("BTC", &fake_node_id);
    assert!(result.is_err());
    assert_eq!(result.unwrap_err().message(), "no channels for node");
}

#[test]
fn failed_listing_leaves_cache_untouched() {
    let mut info = ClnLightningInfo::new();
    info.update_cache("BTC", Some(sample_nodes()), Some(Vec::new())).unwrap();

    // A cycle whose channel listing failed changes nothing.
    let r = info.update_cache("BTC", Some(vec![listed_node(ID_BFX0, Some("other"))]), None);
    assert!(r.is_err());
    assert_eq!(r.unwrap_err().message(), "lightning listing failed");

    let node = info.get_node_info("BTC", &hex_to_bytes(ID_BOLTZ)).unwrap();
    assert_eq!(node.alias, Some("Boltz".to_string()));
    let found = info.find_node_by_alias("BTC", "BOLTZ").unwrap();
    assert_eq!(found.len(), 2);

    // A cycle whose node listing failed changes nothing either.
    let r = info.update_cache("BTC", None, Some(Vec::new()));
    assert!(r.is_err());
    assert!(info.get_node_info("BTC", &hex_to_bytes(ID_BOLTZ)).is_ok());
}

#[test]
fn refresh_replaces_node_index() {
    let mut info = ClnLightningInfo::new();
    info.update_cache("BTC", Some(sample_nodes()), Some(Vec::new())).unwrap();
    // The next successful refresh replaces the index wholesale.
    info.update_cache("BTC", Some(vec![listed_node(ID_BFX0, Some("fresh"))]), Some(Vec::new()))
        .unwrap();
    let found = info.find_node_by_alias("BTC", "BOLTZ").unwrap();
    assert!(found.is_empty());
    let found = info.find_node_by_alias("BTC", "fresh").unwrap();
    assert_eq!(found.len(), 1);
    assert_eq!(found[0].id, ID_BFX0);
}

#[test]
fn nodes_without_alias_never_match() {
    let mut info = ClnLightningInfo::new();
    let nodes = vec![ListedNode { nodeid: vec![0x01], alias: None, color: None }];
    info.update_cache("BTC", Some(nodes), Some(Vec::new())).unwrap();
    // An aliasless node can be looked up directly but never matches a search.
    assert!(info.get_node_info("BTC", &[0x01]).is_ok());
    let found = info.find_node_by_alias("BTC", "01").unwrap();
    assert!(found.is_empty());
}
