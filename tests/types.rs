use deployments::types::{ChainContracts, ChainDeployments, ProtocolDeployment};

#[test]
fn chain_contracts_insert_replaces() {
    let mut contracts = ChainContracts::new();
    assert!(contracts.is_empty());
    contracts.insert("Vault".to_string(), "0x1".to_string());
    contracts.insert("Router".to_string(), "0x2".to_string());
    contracts.insert("Vault".to_string(), "0x3".to_string());
    assert_eq!(contracts.len(), 2);
    assert_eq!(contracts.get("Vault"), Some(&"0x3".to_string()));
    assert_eq!(contracts.get("Router"), Some(&"0x2".to_string()));
    assert_eq!(contracts.get("Pool"), None);
    assert!(contracts.contains_key("Router"));
    assert!(!contracts.contains_key("Pool"));
    assert_eq!(contracts.entries().len(), 2);
}

#[test]
fn chain_deployments_hold_one_entry_per_chain() {
    let mut chains = ChainDeployments::new();
    assert!(chains.is_empty());
    let mut a = ChainContracts::new();
    a.insert("Vault".to_string(), "0xA".to_string());
    chains.insert(1, a);
    chains.insert(10, ChainContracts::new());
    let mut b = ChainContracts::new();
    b.insert("Vault".to_string(), "0xB".to_string());
    chains.insert(1, b);
    assert_eq!(chains.len(), 2);
    assert!(chains.contains_key(&10));
    assert!(!chains.contains_key(&5));
    assert_eq!(
        chains.get(&1).unwrap().get("Vault"),
        Some(&"0xB".to_string())
    );
}

#[test]
fn protocol_deployment_new_keeps_its_parts() {
    let mut contracts = ChainContracts::new();
    contracts.insert("Vault".to_string(), "0x1".to_string());
    let deployment = ProtocolDeployment::new("balancer-v2", 1, contracts);
    assert_eq!(deployment.name, "balancer-v2");
    assert_eq!(deployment.chain_id, 1);
    assert_eq!(deployment.contracts.get("Vault"), Some(&"0x1".to_string()));
}
