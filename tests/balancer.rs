use deployments::balancer::{
    check_signature_dates, filter_active_deployments_by_version, parse, parse_data_from_signature,
    process_contracts_with_latest_deployments, Contract, Deployment, DeploymentStatus,
    DeploymentVersion, Network, NetworkDeployments, ParseError,
};

fn contract(name: &str, address: &str) -> Contract {
    Contract {
        name: name.to_string(),
        address: address.to_string(),
    }
}

fn deployment(
    version: DeploymentVersion,
    status: DeploymentStatus,
    contracts: Vec<Contract>,
) -> Deployment {
    Deployment {
        version,
        status,
        contracts,
    }
}

fn network(name: &str, chain_id: u64, entries: Vec<(&str, Deployment)>) -> Network {
    let mut deployments = NetworkDeployments::new();
    for (signature, d) in entries {
        deployments.insert(signature.to_string(), d);
    }
    Network {
        name: name.to_string(),
        chain_id,
        deployments,
    }
}

fn sample_registry() -> Vec<Network> {
    vec![
        network(
            "mainnet",
            1,
            vec![
                (
                    "20210418-vault",
                    deployment(
                        DeploymentVersion::V2,
                        DeploymentStatus::Active,
                        vec![contract("Vault", "0xBA12")],
                    ),
                ),
                (
                    "20241204-v3-vault",
                    deployment(
                        DeploymentVersion::V3,
                        DeploymentStatus::Active,
                        vec![contract("Vault", "0xbA13"), contract("Router", "0x5C6f")],
                    ),
                ),
                (
                    "20220325-old-router",
                    deployment(
                        DeploymentVersion::V2,
                        DeploymentStatus::Deprecated,
                        vec![contract("BatchRelayer", "0xdead")],
                    ),
                ),
            ],
        ),
        network(
            "arbitrum",
            42161,
            vec![
                (
                    "20210418-vault",
                    deployment(
                        DeploymentVersion::V2,
                        DeploymentStatus::Active,
                        vec![contract("Vault", "0xBA12")],
                    ),
                ),
                (
                    "20241204-v3-vault",
                    deployment(
                        DeploymentVersion::V3,
                        DeploymentStatus::Active,
                        vec![contract("Vault", "0xbA13")],
                    ),
                ),
            ],
        ),
        network(
            "avalanche",
            43114,
            vec![
                (
                    "20250411-balancer-registry-initializer-v2",
                    deployment(
                        DeploymentVersion::V2,
                        DeploymentStatus::Script,
                        vec![contract("Initializer", "0x01")],
                    ),
                ),
                (
                    "20220720-vault",
                    deployment(
                        DeploymentVersion::V2,
                        DeploymentStatus::Active,
                        vec![contract("Vault", "0xBA12")],
                    ),
                ),
            ],
        ),
    ]
}

#[test]
fn test_parse_balancer() {
    let networks = sample_registry();
    let res = parse(&networks);
    assert!(res.is_ok());

    let (v2_deployments, v3_deployments) = res.unwrap();

    assert_eq!(v2_deployments.protocol_name, "balancer-v2");
    assert!(!v2_deployments.chains.is_empty());

    for (chain_id, contracts) in v2_deployments.chains.entries() {
        assert!(*chain_id > 0);
        assert!(!contracts.is_empty());
    }

    assert_eq!(v3_deployments.protocol_name, "balancer-v3");
    assert!(!v3_deployments.chains.is_empty());

    for (chain_id, contracts) in v3_deployments.chains.entries() {
        assert!(*chain_id > 0);
        assert!(!contracts.is_empty());
    }
}

#[test]
fn mod_test_parse_data_from_signature_valid() {
    let signature = "20250411-balancer-registry-initializer-v2".to_string();
    let result = parse_data_from_signature(signature, 1);

    assert!(result.is_ok());
    let date = result.unwrap();
    assert_eq!(date.year(), 2025);
    assert_eq!(date.month(), 4);
    assert_eq!(date.day(), 11);
}

#[test]
fn mod_test_parse_data_from_signature_another_valid() {
    let signature = "20231225-some-deployment".to_string();
    let result = parse_data_from_signature(signature, 1);

    assert!(result.is_ok());
    let date = result.unwrap();
    assert_eq!(date.year(), 2023);
    assert_eq!(date.month(), 12);
    assert_eq!(date.day(), 25);
}

#[test]
fn mod_test_parse_data_from_signature_invalid_no_date() {
    let signature = "invalid-signature".to_string();
    let result = parse_data_from_signature(signature.clone(), 1);

    assert!(result.is_err());
    match result {
        Err(ParseError::DateParseError { .. }) => {}
        _ => panic!("Expected DateParseError"),
    }
}

#[test]
fn mod_test_parse_data_from_signature_empty() {
    let signature = "".to_string();
    let result = parse_data_from_signature(signature, 1);

    assert!(result.is_err());
    match result {
        Err(ParseError::DateParseError { .. }) => {}
        _ => panic!("Expected DateParseError"),
    }
}

#[test]
fn date_error_names_chain_and_signature() {
    match parse_data_from_signature("2025x411-a".to_string(), 10) {
        Err(ParseError::DateParseError {
            chain_id,
            signature,
        }) => {
            assert_eq!(chain_id, 10);
            assert_eq!(signature, "2025x411-a");
        }
        _ => panic!("Expected DateParseError"),
    }
}

#[test]
fn signature_segment_must_be_eight_digits() {
    assert!(parse_data_from_signature("2025041-a".to_string(), 1).is_err());
    assert!(parse_data_from_signature("202504111-a".to_string(), 1).is_err());
    assert!(parse_data_from_signature("20250411a-b".to_string(), 1).is_err());
    assert!(parse_data_from_signature("+2025041-b".to_string(), 1).is_err());
    let date = parse_data_from_signature("20250411".to_string(), 1).unwrap();
    assert_eq!((date.year(), date.month(), date.day()), (2025, 4, 11));
}

#[test]
fn signature_date_must_be_on_the_calendar() {
    assert!(parse_data_from_signature("20251301-a".to_string(), 1).is_err());
    assert!(parse_data_from_signature("20250431-a".to_string(), 1).is_err());
    assert!(parse_data_from_signature("20250001-a".to_string(), 1).is_err());
    assert!(parse_data_from_signature("20230229-a".to_string(), 1).is_err());
    assert!(parse_data_from_signature("19000229-a".to_string(), 1).is_err());
    let leap = parse_data_from_signature("20000229-a".to_string(), 1).unwrap();
    assert_eq!((leap.year(), leap.month(), leap.day()), (2000, 2, 29));
    let first = parse_data_from_signature("00010101-a".to_string(), 1).unwrap();
    assert_eq!((first.year(), first.month(), first.day()), (1, 1, 1));
}

#[test]
fn test_filter_active_deployments_all_active_v2() {
    let network_deployments = network(
        "x",
        1,
        vec![
            (
                "20250101-deploy1",
                deployment(DeploymentVersion::V2, DeploymentStatus::Active, vec![]),
            ),
            (
                "20250102-deploy2",
                deployment(DeploymentVersion::V2, DeploymentStatus::Active, vec![]),
            ),
        ],
    )
    .deployments;

    let result =
        filter_active_deployments_by_version(&network_deployments, DeploymentVersion::V2);
    assert_eq!(result.len(), 2);
}

#[test]
fn test_filter_active_deployments_mixed() {
    let network_deployments = network(
        "x",
        1,
        vec![
            (
                "20250101-deploy1",
                deployment(DeploymentVersion::V2, DeploymentStatus::Active, vec![]),
            ),
            (
                "20250102-deploy2",
                deployment(DeploymentVersion::V2, DeploymentStatus::Deprecated, vec![]),
            ),
            (
                "20250103-deploy3",
                deployment(DeploymentVersion::V3, DeploymentStatus::Active, vec![]),
            ),
        ],
    )
    .deployments;

    let v2_result =
        filter_active_deployments_by_version(&network_deployments, DeploymentVersion::V2);
    assert_eq!(v2_result.len(), 1);
    assert!(v2_result.contains_key("20250101-deploy1"));

    let v3_result =
        filter_active_deployments_by_version(&network_deployments, DeploymentVersion::V3);
    assert_eq!(v3_result.len(), 1);
    assert!(v3_result.contains_key("20250103-deploy3"));
}

#[test]
fn test_filter_active_deployments_empty() {
    let network_deployments = NetworkDeployments::new();

    let result =
        filter_active_deployments_by_version(&network_deployments, DeploymentVersion::V2);
    assert_eq!(result.len(), 0);
}

#[test]
fn filter_leaves_out_script_records() {
    let network_deployments = network(
        "x",
        1,
        vec![
            (
                "20250411-initializer",
                deployment(DeploymentVersion::V2, DeploymentStatus::Script, vec![]),
            ),
            (
                "20240101-vault",
                deployment(DeploymentVersion::V2, DeploymentStatus::Active, vec![]),
            ),
        ],
    )
    .deployments;
    let result =
        filter_active_deployments_by_version(&network_deployments, DeploymentVersion::V2);
    assert_eq!(result.len(), 1);
    assert!(result.contains_key("20240101-vault"));
    assert!(!result.contains_key("20250411-initializer"));
}

fn bucket(entries: Vec<(&str, Vec<Contract>)>) -> NetworkDeployments {
    let mut deployments = NetworkDeployments::new();
    for (signature, contracts) in entries {
        deployments.insert(
            signature.to_string(),
            deployment(DeploymentVersion::V2, DeploymentStatus::Active, contracts),
        );
    }
    deployments
}

#[test]
fn mod_test_process_contracts_single_deployment() {
    let deployments = bucket(vec![(
        "20250101-deploy",
        vec![contract("Vault", "0x1234"), contract("Router", "0x5678")],
    )]);

    let result = process_contracts_with_latest_deployments(deployments, 1);
    assert!(result.is_ok());

    let contracts = result.unwrap();
    assert_eq!(contracts.len(), 2);
    assert_eq!(contracts.get("Vault"), Some(&"0x1234".to_string()));
    assert_eq!(contracts.get("Router"), Some(&"0x5678".to_string()));
}

#[test]
fn mod_test_process_contracts_keeps_latest_deployment() {
    let deployments = bucket(vec![
        ("20240101-deploy1", vec![contract("Vault", "0xOLD")]),
        ("20250101-deploy2", vec![contract("Vault", "0xNEW")]),
    ]);

    let result = process_contracts_with_latest_deployments(deployments, 1);
    assert!(result.is_ok());

    let contracts = result.unwrap();
    assert_eq!(contracts.len(), 1);
    assert_eq!(contracts.get("Vault"), Some(&"0xNEW".to_string()));
}

#[test]
fn mod_test_process_contracts_keeps_oldest_when_newer_comes_first() {
    let deployments = bucket(vec![
        ("20250101-deploy1", vec![contract("Vault", "0xNEW")]),
        ("20240101-deploy2", vec![contract("Vault", "0xOLD")]),
    ]);

    let result = process_contracts_with_latest_deployments(deployments, 1);
    assert!(result.is_ok());

    let contracts = result.unwrap();
    assert_eq!(contracts.len(), 1);
    assert_eq!(contracts.get("Vault"), Some(&"0xNEW".to_string()));
}

#[test]
fn mod_test_process_contracts_multiple_contracts_different_dates() {
    let deployments = bucket(vec![
        (
            "20240101-deploy1",
            vec![
                contract("Vault", "0xVaultOld"),
                contract("Router", "0xRouterOld"),
            ],
        ),
        ("20250101-deploy2", vec![contract("Vault", "0xVaultNew")]),
    ]);

    let result = process_contracts_with_latest_deployments(deployments, 1);
    assert!(result.is_ok());

    let contracts = result.unwrap();
    assert_eq!(contracts.len(), 2);
    assert_eq!(contracts.get("Vault"), Some(&"0xVaultNew".to_string()));
    assert_eq!(contracts.get("Router"), Some(&"0xRouterOld".to_string()));
}

#[test]
fn mod_test_process_contracts_empty_deployments() {
    let deployments = NetworkDeployments::new();
    let result = process_contracts_with_latest_deployments(deployments, 1);

    assert!(result.is_ok());
    let contracts = result.unwrap();
    assert_eq!(contracts.len(), 0);
}

#[test]
fn latest_wins_in_every_order() {
    let orders = vec![
        vec![
            ("20230101-a", vec![contract("Vault", "0xA")]),
            ("20250101-c", vec![contract("Vault", "0xC")]),
            ("20240101-b", vec![contract("Vault", "0xB")]),
        ],
        vec![
            ("20250101-c", vec![contract("Vault", "0xC")]),
            ("20240101-b", vec![contract("Vault", "0xB")]),
            ("20230101-a", vec![contract("Vault", "0xA")]),
        ],
        vec![
            ("20240101-b", vec![contract("Vault", "0xB")]),
            ("20230101-a", vec![contract("Vault", "0xA")]),
            ("20250101-c", vec![contract("Vault", "0xC")]),
        ],
    ];
    for order in orders {
        let contracts = process_contracts_with_latest_deployments(bucket(order), 1).unwrap();
        assert_eq!(contracts.len(), 1);
        assert_eq!(contracts.get("Vault"), Some(&"0xC".to_string()));
    }
}

#[test]
fn equal_dates_give_one_of_the_addresses() {
    let deployments = bucket(vec![
        ("20250101-a", vec![contract("Vault", "0xA")]),
        ("20250101-b", vec![contract("Vault", "0xB")]),
    ]);
    let contracts = process_contracts_with_latest_deployments(deployments, 1).unwrap();
    assert_eq!(contracts.len(), 1);
    let address = contracts.get("Vault").unwrap();
    assert!(address == "0xA" || address == "0xB");
}

#[test]
fn same_name_twice_in_one_deployment_keeps_the_last() {
    let deployments = bucket(vec![(
        "20250101-a",
        vec![contract("Vault", "0x1"), contract("Vault", "0x2")],
    )]);
    let contracts = process_contracts_with_latest_deployments(deployments, 1).unwrap();
    assert_eq!(contracts.len(), 1);
    assert_eq!(contracts.get("Vault"), Some(&"0x2".to_string()));
}

#[test]
fn undated_signature_aborts_the_bucket() {
    let deployments = bucket(vec![
        ("20250101-a", vec![contract("Vault", "0xA")]),
        ("latest-b", vec![contract("Router", "0xB")]),
    ]);
    match process_contracts_with_latest_deployments(deployments, 7) {
        Err(ParseError::DateParseError {
            chain_id,
            signature,
        }) => {
            assert_eq!(chain_id, 7);
            assert_eq!(signature, "latest-b");
        }
        _ => panic!("Expected DateParseError"),
    }
}

fn mainnet(second_status: DeploymentStatus) -> Vec<Network> {
    vec![network(
        "mainnet",
        1,
        vec![
            (
                "20240101-a",
                deployment(
                    DeploymentVersion::V2,
                    DeploymentStatus::Active,
                    vec![contract("Vault", "0xOLD")],
                ),
            ),
            (
                "20250101-b",
                deployment(
                    DeploymentVersion::V2,
                    second_status,
                    vec![contract("Vault", "0xNEW")],
                ),
            ),
        ],
    )]
}

#[test]
fn mainnet_resolves_to_the_newest_vault() {
    let (v2, v3) = parse(&mainnet(DeploymentStatus::Active)).unwrap();
    let chain = v2.chains.get(&1).unwrap();
    assert_eq!(chain.len(), 1);
    assert_eq!(chain.get("Vault"), Some(&"0xNEW".to_string()));
    assert!(v3.chains.is_empty());
}

#[test]
fn mainnet_ignores_the_deprecated_vault() {
    let (v2, _) = parse(&mainnet(DeploymentStatus::Deprecated)).unwrap();
    let chain = v2.chains.get(&1).unwrap();
    assert_eq!(chain.len(), 1);
    assert_eq!(chain.get("Vault"), Some(&"0xOLD".to_string()));
}

#[test]
fn two_chains_keep_their_own_contracts() {
    let networks = vec![
        network(
            "mainnet",
            1,
            vec![(
                "20240101-a",
                deployment(
                    DeploymentVersion::V2,
                    DeploymentStatus::Active,
                    vec![contract("Vault", "0xMAIN")],
                ),
            )],
        ),
        network(
            "gnosis",
            100,
            vec![(
                "20240102-a",
                deployment(
                    DeploymentVersion::V2,
                    DeploymentStatus::Active,
                    vec![contract("Vault", "0xGNO")],
                ),
            )],
        ),
    ];
    let (v2, _) = parse(&networks).unwrap();
    assert_eq!(v2.chains.len(), 2);
    assert_eq!(
        v2.chains.get(&1).unwrap().get("Vault"),
        Some(&"0xMAIN".to_string())
    );
    assert_eq!(
        v2.chains.get(&100).unwrap().get("Vault"),
        Some(&"0xGNO".to_string())
    );
}

#[test]
fn shared_chain_id_fails() {
    let networks = vec![
        network(
            "mainnet",
            1,
            vec![(
                "20240101-a",
                deployment(
                    DeploymentVersion::V2,
                    DeploymentStatus::Active,
                    vec![contract("Vault", "0xMAIN")],
                ),
            )],
        ),
        network(
            "mainnet-copy",
            1,
            vec![(
                "20240102-a",
                deployment(
                    DeploymentVersion::V2,
                    DeploymentStatus::Active,
                    vec![contract("Vault", "0xCOPY")],
                ),
            )],
        ),
    ];
    match parse(&networks) {
        Err(ParseError::ChainIdAlreadyExists { chain_id }) => assert_eq!(chain_id, 1),
        _ => panic!("Expected ChainIdAlreadyExists"),
    }
}

#[test]
fn shared_chain_id_on_other_versions_is_allowed() {
    let networks = vec![
        network(
            "a",
            5,
            vec![(
                "20240101-a",
                deployment(
                    DeploymentVersion::V2,
                    DeploymentStatus::Active,
                    vec![contract("Vault", "0x2")],
                ),
            )],
        ),
        network(
            "b",
            5,
            vec![(
                "20240101-b",
                deployment(
                    DeploymentVersion::V3,
                    DeploymentStatus::Active,
                    vec![contract("Vault", "0x3")],
                ),
            )],
        ),
    ];
    let (v2, v3) = parse(&networks).unwrap();
    assert_eq!(v2.chains.get(&5).unwrap().get("Vault"), Some(&"0x2".to_string()));
    assert_eq!(v3.chains.get(&5).unwrap().get("Vault"), Some(&"0x3".to_string()));
}

#[test]
fn undated_signature_fails_the_run() {
    let networks = vec![network(
        "mainnet",
        1,
        vec![(
            "vault",
            deployment(
                DeploymentVersion::V3,
                DeploymentStatus::Active,
                vec![contract("Vault", "0x1")],
            ),
        )],
    )];
    match parse(&networks) {
        Err(ParseError::DateParseError {
            chain_id,
            signature,
        }) => {
            assert_eq!(chain_id, 1);
            assert_eq!(signature, "vault");
        }
        _ => panic!("Expected DateParseError"),
    }
}

#[test]
fn inserting_a_signature_again_replaces_it() {
    let mut deployments = NetworkDeployments::new();
    deployments.insert(
        "20240101-a".to_string(),
        deployment(DeploymentVersion::V2, DeploymentStatus::Active, vec![]),
    );
    deployments.insert(
        "20240101-a".to_string(),
        deployment(DeploymentVersion::V3, DeploymentStatus::Active, vec![]),
    );
    assert_eq!(deployments.len(), 1);
    let v3 = filter_active_deployments_by_version(&deployments, DeploymentVersion::V3);
    assert_eq!(v3.len(), 1);
}

#[test]
fn undated_deprecated_record_fails_the_run() {
    let networks = vec![network(
        "mainnet",
        1,
        vec![
            (
                "20240101-a",
                deployment(
                    DeploymentVersion::V2,
                    DeploymentStatus::Active,
                    vec![contract("Vault", "0x1")],
                ),
            ),
            (
                "undated",
                deployment(DeploymentVersion::V2, DeploymentStatus::Deprecated, vec![]),
            ),
        ],
    )];
    match parse(&networks) {
        Err(ParseError::DateParseError {
            chain_id,
            signature,
        }) => {
            assert_eq!(chain_id, 1);
            assert_eq!(signature, "undated");
        }
        _ => panic!("Expected DateParseError"),
    }
}

#[test]
fn signature_dates_are_checked_whatever_the_status() {
    let dated = network(
        "x",
        3,
        vec![(
            "20240101-a",
            deployment(DeploymentVersion::V3, DeploymentStatus::Script, vec![]),
        )],
    );
    assert!(check_signature_dates(&dated.deployments, 3).is_ok());
    let undated = network(
        "x",
        3,
        vec![
            (
                "20240101-a",
                deployment(DeploymentVersion::V3, DeploymentStatus::Active, vec![]),
            ),
            (
                "script",
                deployment(DeploymentVersion::V3, DeploymentStatus::Script, vec![]),
            ),
            (
                "also-undated",
                deployment(DeploymentVersion::V2, DeploymentStatus::Deprecated, vec![]),
            ),
        ],
    );
    match check_signature_dates(&undated.deployments, 3) {
        Err(ParseError::DateParseError {
            chain_id,
            signature,
        }) => {
            assert_eq!(chain_id, 3);
            assert_eq!(signature, "script");
        }
        _ => panic!("Expected DateParseError"),
    }
}
