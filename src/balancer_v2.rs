//! The single-version variant of tag-based resolution: only active v2 deployments count.
pub use crate::balancer::ParseError;
use crate::balancer::{
    aggregates, aggregates_upto, bucket, contributes, filter_active_deployments_by_version,
    check_signature_dates, has_undated_record, insert_resolved_chain, is_date_error, repeats_chain_id, selected,
    DeploymentVersion, Network, NetworkDeployments,
};
use crate::types::{ChainDeployments, ProtocolDeployments};
use vstd::prelude::*;

verus! {

/// The active v2 deployments, in their order.
pub fn filter_active_v2_deployments(deployments: NetworkDeployments) -> (r: NetworkDeployments)
    ensures
        r@ == selected(deployments@, DeploymentVersion::V2),
{
    filter_active_deployments_by_version(&deployments, DeploymentVersion::V2)
}

pub open spec fn fails_at_v2(nets: Seq<Network>, k: int) -> bool {
    has_undated_record(nets, k) || repeats_chain_id(
        nets,
        k,
        DeploymentVersion::V2,
    )
}

pub open spec fn is_error_at_v2(nets: Seq<Network>, k: int, e: ParseError) -> bool {
    if has_undated_record(nets, k) {
        is_date_error(e, nets[k].chain_id, nets[k].deployments@)
    } else {
        e == (ParseError::ChainIdAlreadyExists { chain_id: nets[k].chain_id })
    }
}

/// Builds the v2 address book from the supported networks, in their order; stops at the
/// first network that holds an undated signature (in any record) or whose v2 bucket
/// repeats a chain id.
pub fn parse(networks: &Vec<Network>) -> (r: Result<ProtocolDeployments, ParseError>)
    ensures
        r is Err <==> exists|k: int| 0 <= k < networks@.len() && fails_at_v2(networks@, k),
        r matches Err(e) ==> exists|k: int|
            0 <= k < networks@.len() && fails_at_v2(networks@, k) && (forall|k2: int|
                0 <= k2 < k ==> !fails_at_v2(networks@, k2)) && is_error_at_v2(networks@, k, e),
        r matches Ok(v2) ==> v2.protocol_name@ == "balancer-v2"@ && aggregates(
            networks@,
            DeploymentVersion::V2,
            v2.chains@,
        ),
{
    let ghost nets = networks@;
    let mut chains = ChainDeployments::new();
    let mut k: usize = 0;
    while k < networks.len()
        invariant
            nets == networks@,
            0 <= k <= nets.len(),
            forall|k2: int| 0 <= k2 < k ==> !fails_at_v2(nets, k2),
            aggregates_upto(nets, k as int, DeploymentVersion::V2, chains@),
        decreases nets.len() - k,
    {
        let network = &networks[k];
        let ghost before = chains@;
        assert(nets[k as int].chain_id == network.chain_id);
        match check_signature_dates(&network.deployments, network.chain_id) {
            Err(e) => {
                assert(fails_at_v2(nets, k as int));
                assert(is_error_at_v2(nets, k as int, e));
                return Err(e);
            },
            Ok(()) => {},
        }
        let active = filter_active_deployments_by_version(
            &network.deployments,
            DeploymentVersion::V2,
        );
        assert(active@ == bucket(nets, k as int, DeploymentVersion::V2));
        proof {
            crate::balancer::lemma_selected_dated(network.deployments@, DeploymentVersion::V2);
        }
        match insert_resolved_chain(&mut chains, active, network.chain_id) {
            Err(e) => {
                proof {
                    assert(before.contains_key(network.chain_id));
                    let k2 = choose|k2: int|
                        0 <= k2 < k && contributes(nets, k2, DeploymentVersion::V2)
                            && nets[k2].chain_id == network.chain_id;
                    assert(repeats_chain_id(nets, k as int, DeploymentVersion::V2));
                    assert(fails_at_v2(nets, k as int));
                    assert(is_error_at_v2(nets, k as int, e));
                }
                return Err(e);
            },
            Ok(()) => {},
        }
        proof {
            crate::balancer::lemma_aggregate_step(
                nets,
                k as int,
                DeploymentVersion::V2,
                before,
                chains@,
            );
        }
        k = k + 1;
    }
    Ok(ProtocolDeployments { protocol_name: "balancer-v2".to_string(), chains })
}

} // verus!
