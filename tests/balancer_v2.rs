use deployments::balancer::{
    Contract, Deployment, DeploymentStatus, DeploymentVersion, Network, NetworkDeployments,
};
use deployments::balancer_v2::{filter_active_v2_deployments, parse, ParseError};

fn v2_network(name: &str, chain_id: u64, entries: Vec<(&str, DeploymentVersion, DeploymentStatus)>) -> Network {
    let mut deployments = NetworkDeployments::new();
    for (signature, version, status) in entries {
        deployments.insert(
            signature.to_string(),
            Deployment {
                version,
                status,
                contracts: vec![Contract {
                    name: "Vault".to_string(),
                    address: format!("0x{}", signature),
                }],
            },
        );
    }
    Network {
        name: name.to_string(),
        chain_id,
        deployments,
    }
}

fn empty_deployment(version: DeploymentVersion, status: DeploymentStatus) -> Deployment {
    Deployment {
        version,
        status,
        contracts: vec![],
    }
}

#[test]
fn test_parse_balancer_v2() {
    let networks = vec![
        v2_network(
            "mainnet",
            1,
            vec![
                ("20210418-vault", DeploymentVersion::V2, DeploymentStatus::Active),
                ("20241204-v3-vault", DeploymentVersion::V3, DeploymentStatus::Active),
            ],
        ),
        v2_network(
            "polygon",
            137,
            vec![("20210418-vault", DeploymentVersion::V2, DeploymentStatus::Active)],
        ),
    ];
    let res = parse(&networks);
    assert!(res.is_ok());

    let deployments = res.unwrap();
    assert_eq!(deployments.protocol_name, "balancer-v2");
    assert!(!deployments.chains.is_empty());

    for (chain_id, contracts) in deployments.chains.entries() {
        assert!(*chain_id > 0);
        assert!(!contracts.is_empty());
    }
}

#[test]
fn test_filter_active_v2_deployments_all_active_v2() {
    let mut deployments = NetworkDeployments::new();
    deployments.insert(
        "20250101-deploy1".to_string(),
        empty_deployment(DeploymentVersion::V2, DeploymentStatus::Active),
    );
    deployments.insert(
        "20250102-deploy2".to_string(),
        empty_deployment(DeploymentVersion::V2, DeploymentStatus::Active),
    );

    let result = filter_active_v2_deployments(deployments);
    assert_eq!(result.len(), 2);
}

#[test]
fn test_filter_active_v2_deployments_mixed() {
    let mut deployments = NetworkDeployments::new();
    deployments.insert(
        "20250101-deploy1".to_string(),
        empty_deployment(DeploymentVersion::V2, DeploymentStatus::Active),
    );
    deployments.insert(
        "20250102-deploy2".to_string(),
        empty_deployment(DeploymentVersion::V2, DeploymentStatus::Deprecated),
    );
    deployments.insert(
        "20250103-deploy3".to_string(),
        empty_deployment(DeploymentVersion::V3, DeploymentStatus::Active),
    );

    let result = filter_active_v2_deployments(deployments);
    assert_eq!(result.len(), 1);
    assert!(result.contains_key("20250101-deploy1"));
}

#[test]
fn test_filter_active_v2_deployments_empty() {
    let deployments = NetworkDeployments::new();

    let result = filter_active_v2_deployments(deployments);
    assert_eq!(result.len(), 0);
}

#[test]
fn v2_parse_keeps_latest_and_skips_chains_without_v2() {
    let networks = vec![
        v2_network(
            "mainnet",
            1,
            vec![
                ("20240101-a", DeploymentVersion::V2, DeploymentStatus::Active),
                ("20250101-b", DeploymentVersion::V2, DeploymentStatus::Active),
                ("20260101-c", DeploymentVersion::V2, DeploymentStatus::Deprecated),
            ],
        ),
        v2_network(
            "sonic",
            146,
            vec![("20250101-a", DeploymentVersion::V3, DeploymentStatus::Active)],
        ),
    ];
    let deployments = parse(&networks).unwrap();
    assert_eq!(deployments.chains.len(), 1);
    assert_eq!(
        deployments.chains.get(&1).unwrap().get("Vault"),
        Some(&"0x20250101-b".to_string())
    );
    assert!(!deployments.chains.contains_key(&146));
}

#[test]
fn v2_parse_rejects_a_shared_chain_id() {
    let networks = vec![
        v2_network(
            "a",
            10,
            vec![("20240101-a", DeploymentVersion::V2, DeploymentStatus::Active)],
        ),
        v2_network(
            "b",
            10,
            vec![("20240101-b", DeploymentVersion::V2, DeploymentStatus::Active)],
        ),
    ];
    match parse(&networks) {
        Err(ParseError::ChainIdAlreadyExists { chain_id }) => assert_eq!(chain_id, 10),
        _ => panic!("Expected ChainIdAlreadyExists"),
    }
}

#[test]
fn v2_parse_rejects_an_undated_v3_record() {
    let networks = vec![v2_network(
        "mainnet",
        1,
        vec![
            ("20240101-a", DeploymentVersion::V2, DeploymentStatus::Active),
            ("v3-vault", DeploymentVersion::V3, DeploymentStatus::Active),
        ],
    )];
    match parse(&networks) {
        Err(ParseError::DateParseError {
            chain_id,
            signature,
        }) => {
            assert_eq!(chain_id, 1);
            assert_eq!(signature, "v3-vault");
        }
        _ => panic!("Expected DateParseError"),
    }
}
