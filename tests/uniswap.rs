use deployments::types::ChainContracts;
use deployments::uniswap::{
    parse, parse_chain_id, parse_with_configs, protocol_configs, try_to_find_missing_contracts,
    init_protocol_chains, unassigned_contracts, validate_protocol_configs_for_duplicate_definitions,
    validate_protocol_table, ParseError, ProtocolConfig, UniswapDeployment,
};

const MAINNET_CONTRACTS: &[&str] = &[
    "UniswapV2Factory",
    "UniswapV2Router02",
    "UniswapV3Factory",
    "SwapRouter",
    "SwapRouter02",
    "NonfungiblePositionManager",
    "NonfungibleTokenPositionDescriptor",
    "NFTDescriptor",
    "Quoter",
    "QuoterV2",
    "TickLens",
    "V3Migrator",
    "PoolManager",
    "PositionManager",
    "StateView",
    "PositionDescriptor",
    "V4Quoter",
    "WETHHook",
    "WstETHHook",
    "WstETHRoutingHook",
    "UniversalRouter",
    "Permit2",
    "UnrelatedMulticall",
];

fn chain_file(chain_id: &str, names: &[&str]) -> UniswapDeployment {
    let mut latest = ChainContracts::new();
    for name in names {
        latest.insert(name.to_string(), format!("0x{}-{}", chain_id, name));
    }
    UniswapDeployment {
        chain_id: chain_id.to_string(),
        latest,
    }
}

fn sample_files() -> Vec<UniswapDeployment> {
    vec![
        chain_file("1", MAINNET_CONTRACTS),
        chain_file(
            "10",
            &["UniswapV3Factory", "QuoterV2", "UniversalRouter", "Permit2"],
        ),
        chain_file("8453", &["UniswapV2Factory", "PoolManager", "Multicall3"]),
    ]
}

fn config(name: &str, contracts: &[&str]) -> ProtocolConfig {
    ProtocolConfig {
        protocol_name: name.to_string(),
        contracts: contracts.iter().map(|c| c.to_string()).collect(),
    }
}

#[test]
fn test_parse_uniswap() {
    let res = parse(&sample_files());
    assert!(res.is_ok());

    let protocols = res.unwrap();
    assert!(!protocols.is_empty());

    for protocol in &protocols {
        assert!(
            protocol.protocol_name == "uniswap-v2"
                || protocol.protocol_name == "uniswap-v3"
                || protocol.protocol_name == "uniswap-v4"
                || protocol.protocol_name == "universal-router"
                || protocol.protocol_name == "permit2"
        );
        assert!(!protocol.chains.is_empty());

        for (chain_id, contracts) in protocol.chains.entries() {
            assert!(chain_id > &0);
            assert!(!contracts.is_empty());
        }
    }
}

#[test]
fn test_parse_uniswap_specific_chains() {
    let res = parse(&sample_files());
    assert!(res.is_ok());

    let protocols = res.unwrap();

    for protocol in &protocols {
        if protocol.protocol_name == "uniswap-v2" {
            assert!(protocol.chains.contains_key(&1));
            let mainnet_contracts = protocol.chains.get(&1).unwrap();
            assert!(!mainnet_contracts.is_empty());
            assert!(mainnet_contracts.contains_key("UniswapV2Factory"));
        }

        if protocol.protocol_name == "uniswap-v3" {
            assert!(protocol.chains.contains_key(&1));
            let mainnet_contracts = protocol.chains.get(&1).unwrap();
            assert!(!mainnet_contracts.is_empty());
            assert!(mainnet_contracts.contains_key("UniswapV3Factory"));
        }
    }
}

#[test]
fn contracts_go_to_their_protocol_only() {
    let protocols = parse(&sample_files()).unwrap();
    let names: Vec<&str> = protocols.iter().map(|p| p.protocol_name.as_str()).collect();
    assert_eq!(
        names,
        vec!["uniswap-v2", "uniswap-v3", "uniswap-v4", "universal-router", "permit2"]
    );
    let v2 = &protocols[0];
    assert_eq!(v2.chains.len(), 2);
    let mainnet = v2.chains.get(&1).unwrap();
    assert_eq!(mainnet.len(), 2);
    assert_eq!(
        mainnet.get("UniswapV2Factory"),
        Some(&"0x1-UniswapV2Factory".to_string())
    );
    assert!(!mainnet.contains_key("UnrelatedMulticall"));
    let base = v2.chains.get(&8453).unwrap();
    assert_eq!(base.len(), 1);
    let v3 = &protocols[1];
    assert_eq!(v3.chains.get(&10).unwrap().len(), 2);
    assert!(!v3.chains.contains_key(&8453));
    let permit2 = &protocols[4];
    assert_eq!(permit2.chains.len(), 2);
}

#[test]
fn protocol_table_is_exclusive() {
    assert!(validate_protocol_table().is_ok());
    assert_eq!(protocol_configs().len(), 5);
}

#[test]
fn shared_contract_name_fails_validation() {
    let configs = vec![
        config("alpha", &["Factory", "Router"]),
        config("beta", &["Quoter"]),
        config("gamma", &["Router", "Lens"]),
    ];
    match validate_protocol_configs_for_duplicate_definitions(&configs) {
        Err(ParseError::DuplicateContracts {
            contract_name,
            protocols,
        }) => {
            assert_eq!(contract_name, "Router");
            assert_eq!(protocols, vec!["alpha".to_string(), "gamma".to_string()]);
        }
        _ => panic!("Expected DuplicateContracts"),
    }
    // the chain files are never looked at
    let files = vec![chain_file("not-a-number", &["Factory"])];
    assert!(matches!(
        parse_with_configs(&configs, &files),
        Err(ParseError::DuplicateContracts { .. })
    ));
}

#[test]
fn absent_contract_is_reported_by_name() {
    let configs = vec![
        config("alpha", &["Factory", "Router"]),
        config("beta", &["Quoter", "Lens"]),
    ];
    let files = vec![
        chain_file("1", &["Factory", "Router", "Quoter"]),
        chain_file("2", &["Factory"]),
    ];
    match parse_with_configs(&configs, &files) {
        Err(ParseError::MissingContracts {
            protocol_name,
            contracts,
        }) => {
            assert_eq!(protocol_name, "beta");
            assert_eq!(contracts, vec!["Lens".to_string()]);
        }
        _ => panic!("Expected MissingContracts"),
    }
}

#[test]
fn missing_contracts_lists_every_absent_name() {
    let configs = vec![config("alpha", &["Factory", "Router", "Lens"])];
    let mut chains = init_protocol_chains(&configs);
    let mut contracts = ChainContracts::new();
    contracts.insert("Router".to_string(), "0x1".to_string());
    chains[0].insert(1, contracts);
    match try_to_find_missing_contracts(&configs, &chains) {
        Err(ParseError::MissingContracts {
            protocol_name,
            contracts,
        }) => {
            assert_eq!(protocol_name, "alpha");
            assert_eq!(contracts, vec!["Factory".to_string(), "Lens".to_string()]);
        }
        _ => panic!("Expected MissingContracts"),
    }
}

#[test]
fn repeated_chain_id_fails() {
    let configs = vec![config("alpha", &["Factory"])];
    let files = vec![chain_file("1", &["Factory"]), chain_file("+1", &["Factory"])];
    match parse_with_configs(&configs, &files) {
        Err(ParseError::ChainIdAlreadyExists {
            protocol_name,
            chain_id,
        }) => {
            assert_eq!(protocol_name, "alpha");
            assert_eq!(chain_id, 1);
        }
        _ => panic!("Expected ChainIdAlreadyExists"),
    }
}

#[test]
fn unreadable_chain_id_fails() {
    let configs = vec![config("alpha", &["Factory"])];
    let files = vec![chain_file("mainnet", &["Factory"])];
    match parse_with_configs(&configs, &files) {
        Err(ParseError::InvalidChainId { value }) => assert_eq!(value, "mainnet"),
        _ => panic!("Expected InvalidChainId"),
    }
}

#[test]
fn chain_ids_read_as_decimal_u64() {
    assert_eq!(parse_chain_id("1").ok(), Some(1));
    assert_eq!(parse_chain_id("42161").ok(), Some(42161));
    assert_eq!(parse_chain_id("+10").ok(), Some(10));
    assert_eq!(parse_chain_id("007").ok(), Some(7));
    assert_eq!(
        parse_chain_id("18446744073709551615").ok(),
        Some(18446744073709551615)
    );
    assert!(parse_chain_id("18446744073709551616").is_err());
    assert!(parse_chain_id("99999999999999999999").is_err());
    assert!(parse_chain_id("").is_err());
    assert!(parse_chain_id("+").is_err());
    assert!(parse_chain_id("-1").is_err());
    assert!(parse_chain_id(" 1").is_err());
    assert!(parse_chain_id("0x10").is_err());
}

#[test]
fn names_of_no_protocol_are_listed_once() {
    let configs = vec![config("alpha", &["Factory"]), config("beta", &["Router"])];
    let file = chain_file("1", &["Factory", "Multicall", "Router", "Lens"]);
    let mut names = unassigned_contracts(&configs, &file.latest);
    names.sort();
    assert_eq!(names, vec!["Lens".to_string(), "Multicall".to_string()]);
    let table_file = chain_file("1", MAINNET_CONTRACTS);
    assert_eq!(
        unassigned_contracts(&protocol_configs(), &table_file.latest),
        vec!["UnrelatedMulticall".to_string()]
    );
}

#[test]
fn repeated_chain_id_in_the_table_fails() {
    let files = vec![
        chain_file("1", MAINNET_CONTRACTS),
        chain_file("1", &["Permit2"]),
    ];
    match parse(&files) {
        Err(ParseError::ChainIdAlreadyExists {
            protocol_name,
            chain_id,
        }) => {
            assert_eq!(protocol_name, "permit2");
            assert_eq!(chain_id, 1);
        }
        _ => panic!("Expected ChainIdAlreadyExists"),
    }
}
