//! Tag-based resolution: each deployment record carries a version and a status, and
//! per chain the latest active deployment of a contract name decides its address.
use crate::date::{date_from_signature, date_le, signature_date, Date};
use crate::types::{ChainContracts, ChainDeployments, ProtocolDeployments};
use vstd::prelude::*;

verus! {

#[derive(Clone, Copy, Debug, PartialEq, Eq, Structural, Hash)]
pub enum DeploymentStatus {
    Active,
    Deprecated,
    /// A deployment that only ran a script.
    Script,
}

#[derive(Clone, Copy, Debug, PartialEq, Eq, Structural, Hash)]
pub enum DeploymentVersion {
    V2,
    V3,
}

pub struct Contract {
    pub name: String,
    pub address: String,
}

impl View for Contract {
    type V = (Seq<char>, Seq<char>);

    open spec fn view(&self) -> (Seq<char>, Seq<char>) {
        (self.name@, self.address@)
    }
}

pub struct Deployment {
    pub version: DeploymentVersion,
    pub status: DeploymentStatus,
    pub contracts: Vec<Contract>,
}

/// A deployment record: version, status, and (name, address) of its contracts in order.
pub ghost struct DeploymentView {
    pub version: DeploymentVersion,
    pub status: DeploymentStatus,
    pub contracts: Seq<(Seq<char>, Seq<char>)>,
}

impl View for Deployment {
    type V = DeploymentView;

    open spec fn view(&self) -> DeploymentView {
        DeploymentView {
            version: self.version,
            status: self.status,
            contracts: self.contracts@.map_values(|c: Contract| c@),
        }
    }
}

/// The deployments of one network file, by signature.
pub struct NetworkDeployments {
    pub deployments: Vec<(String, Deployment)>,
}

impl View for NetworkDeployments {
    type V = Seq<(Seq<char>, DeploymentView)>;

    open spec fn view(&self) -> Seq<(Seq<char>, DeploymentView)> {
        self.deployments@.map_values(|e: (String, Deployment)| (e.0@, e.1@))
    }
}

/// One supported network: its name, its chain id and the deployments of its file.
pub struct Network {
    pub name: String,
    pub chain_id: u64,
    pub deployments: NetworkDeployments,
}

#[derive(Debug)]
pub enum ParseError {
    ChainIdAlreadyExists { chain_id: u64 },
    DateParseError { chain_id: u64, signature: String },
}

impl Contract {
    pub fn copy(&self) -> (r: Contract)
        ensures
            r@ == self@,
    {
        Contract { name: self.name.clone(), address: self.address.clone() }
    }
}

impl Deployment {
    pub fn copy(&self) -> (r: Deployment)
        ensures
            r@ == self@,
    {
        let mut contracts: Vec<Contract> = Vec::new();
        let mut i: usize = 0;
        while i < self.contracts.len()
            invariant
                0 <= i <= self.contracts@.len(),
                contracts@.len() == i,
                forall|k: int| 0 <= k < i ==> #[trigger] contracts@[k]@ == self.contracts@[k]@,
            decreases self.contracts@.len() - i,
        {
            contracts.push(self.contracts[i].copy());
            i = i + 1;
        }
        assert(contracts@.map_values(|c: Contract| c@) =~= self.contracts@.map_values(
            |c: Contract| c@,
        ));
        Deployment { version: self.version, status: self.status, contracts }
    }
}

pub open spec fn signatures_distinct(deps: Seq<(Seq<char>, DeploymentView)>) -> bool {
    forall|i: int, j: int| 0 <= i < j < deps.len() ==> deps[i].0 != deps[j].0
}

impl NetworkDeployments {
    pub fn new() -> (r: NetworkDeployments)
        ensures
            r@ == Seq::<(Seq<char>, DeploymentView)>::empty(),
    {
        let r = NetworkDeployments { deployments: Vec::new() };
        assert(r@ =~= Seq::empty());
        r
    }

    pub fn len(&self) -> (r: usize)
        ensures
            r == self@.len(),
    {
        self.deployments.len()
    }

    pub fn is_empty(&self) -> (r: bool)
        ensures
            r == (self@.len() == 0),
    {
        self.deployments.len() == 0
    }

    fn position(&self, signature: &String) -> (r: Option<usize>)
        ensures
            match r {
                Some(i) => i < self@.len() && self@[i as int].0 == signature@,
                None => forall|i: int| 0 <= i < self@.len() ==> self@[i].0 != signature@,
            },
    {
        let mut i: usize = 0;
        while i < self.deployments.len()
            invariant
                0 <= i <= self@.len(),
                forall|k: int| 0 <= k < i ==> self@[k].0 != signature@,
            decreases self@.len() - i,
        {
            if self.deployments[i].0 == *signature {
                return Some(i);
            }
            i = i + 1;
        }
        None
    }

    pub fn contains_key(&self, signature: &str) -> (r: bool)
        ensures
            r == exists|i: int| 0 <= i < self@.len() && self@[i].0 == signature@,
    {
        let key = signature.to_string();
        self.position(&key).is_some()
    }

    /// Records `deployment` under `signature`, replacing the record of the same signature.
    pub fn insert(&mut self, signature: String, deployment: Deployment)
        requires
            signatures_distinct(old(self)@),
        ensures
            signatures_distinct(final(self)@),
            (exists|i: int| 0 <= i < old(self)@.len() && old(self)@[i].0 == signature@) ==> exists|
                i: int,
            |
                0 <= i < old(self)@.len() && old(self)@[i].0 == signature@ && final(self)@
                    == old(self)@.update(i, (signature@, deployment@)),
            (forall|i: int| 0 <= i < old(self)@.len() ==> old(self)@[i].0 != signature@)
                ==> final(self)@ == old(self)@.push((signature@, deployment@)),
    {
        let ghost entry = (signature@, deployment@);
        match self.position(&signature) {
            Some(i) => {
                self.deployments.set(i, (signature, deployment));
                assert(self@ =~= old(self)@.update(i as int, entry));
            },
            None => {
                self.deployments.push((signature, deployment));
                assert(self@ =~= old(self)@.push(entry));
            },
        }
    }
}

/// A record takes part in resolution for `version` exactly when it is active and of
/// that version.
pub open spec fn is_selected(d: DeploymentView, version: DeploymentVersion) -> bool {
    d.status == DeploymentStatus::Active && d.version == version
}

pub open spec fn selection(version: DeploymentVersion) -> spec_fn(
    (Seq<char>, DeploymentView),
) -> bool {
    |e: (Seq<char>, DeploymentView)| is_selected(e.1, version)
}

pub open spec fn selected(
    deps: Seq<(Seq<char>, DeploymentView)>,
    version: DeploymentVersion,
) -> Seq<(Seq<char>, DeploymentView)> {
    deps.filter(selection(version))
}

/// The active deployments of `version`, in their order; deprecated and script records
/// are left out whatever their date.
pub fn filter_active_deployments_by_version(
    deployments: &NetworkDeployments,
    version: DeploymentVersion,
) -> (r: NetworkDeployments)
    ensures
        r@ == selected(deployments@, version),
{

    let mut r = NetworkDeployments::new();
    let mut i: usize = 0;
    while i < deployments.deployments.len()
        invariant
            0 <= i <= deployments@.len(),
            r@ == deployments@.take(i as int).filter(selection(version)),
        decreases deployments@.len() - i,
    {
        let entry = &deployments.deployments[i];
        assert(deployments@[i as int] == (entry.0@, entry.1@));
        proof {
            assert(deployments@.take(i + 1) =~= deployments@.take(i as int).push(deployments@[i as int]));
            deployments@.take(i as int).lemma_filter_push(deployments@[i as int], selection(version));
        }
        if entry.1.status == DeploymentStatus::Active && entry.1.version == version {
            let ghost before = r@;
            r.deployments.push((entry.0.clone(), entry.1.copy()));
            assert(selection(version)(deployments@[i as int]));
            assert(r@ =~= before.push(deployments@[i as int]));
        } else {
            assert(!selection(version)(deployments@[i as int]));
        }
        i = i + 1;
    }
    assert(deployments@.take(i as int) =~= deployments@);
    r
}

/// Reads the `YYYYMMDD` date that leads `signature`; fails, naming the chain and the
/// signature, when its first segment is not eight digits naming a calendar date.
pub fn parse_data_from_signature(signature: String, chain_id: u64) -> (r: Result<Date, ParseError>)
    ensures
        r is Ok <==> signature_date(signature@) is Some,
        r matches Ok(d) ==> signature_date(signature@) == Some(d),
        r matches Err(e) ==> e matches ParseError::DateParseError { chain_id: id, signature: s }
            && id == chain_id && s@ == signature@,
{
    match date_from_signature(signature.as_str()) {
        Some(d) => Ok(d),
        None => Err(ParseError::DateParseError { chain_id, signature }),
    }
}

/// Every signature carries a date.
pub open spec fn all_dated(deps: Seq<(Seq<char>, DeploymentView)>) -> bool {
    forall|i: int| 0 <= i < deps.len() ==> (#[trigger] signature_date(deps[i].0)) is Some
}

/// `signature` is the first signature of `deps` that carries no date.
pub open spec fn is_first_undated(deps: Seq<(Seq<char>, DeploymentView)>, signature: Seq<char>) -> bool {
    exists|i: int|
        0 <= i < deps.len() && deps[i].0 == signature && signature_date(signature) is None && forall|
            k: int,
        |
            0 <= k < i ==> (#[trigger] signature_date(deps[k].0)) is Some
}

/// `e` reports, for `chain_id`, the first signature of `deps` that carries no date.
pub open spec fn is_date_error(
    e: ParseError,
    chain_id: u64,
    deps: Seq<(Seq<char>, DeploymentView)>,
) -> bool {
    e matches ParseError::DateParseError { chain_id: id, signature } && id == chain_id
        && is_first_undated(deps, signature@)
}

pub open spec fn deployment_date(deps: Seq<(Seq<char>, DeploymentView)>, i: int) -> Date {
    signature_date(deps[i].0)->0
}

/// `(i, j)` names the `j`-th contract of the `i`-th deployment.
pub open spec fn is_record(deps: Seq<(Seq<char>, DeploymentView)>, i: int, j: int) -> bool {
    0 <= i < deps.len() && 0 <= j < deps[i].1.contracts.len()
}

pub open spec fn record_name(deps: Seq<(Seq<char>, DeploymentView)>, i: int, j: int) -> Seq<char> {
    deps[i].1.contracts[j].0
}

pub open spec fn record_address(deps: Seq<(Seq<char>, DeploymentView)>, i: int, j: int) -> Seq<
    char,
> {
    deps[i].1.contracts[j].1
}

/// Record `(i2, j2)` is listed after record `(i, j)`.
pub open spec fn listed_after(i2: int, j2: int, i: int, j: int) -> bool {
    i2 > i || (i2 == i && j2 > j)
}

/// Among the records of its name listed before `(pi, pj)`, record `(i, j)` has the
/// latest date, and no record of that name listed after it has the same date.
pub open spec fn is_latest_before(
    deps: Seq<(Seq<char>, DeploymentView)>,
    i: int,
    j: int,
    pi: int,
    pj: int,
) -> bool {
    &&& is_record(deps, i, j)
    &&& listed_after(pi, pj, i, j)
    &&& forall|i2: int, j2: int|
        #![trigger record_name(deps, i2, j2)]
        is_record(deps, i2, j2) && listed_after(pi, pj, i2, j2) && record_name(deps, i2, j2)
            == record_name(deps, i, j) ==> date_le(
            deployment_date(deps, i2),
            deployment_date(deps, i),
        ) && (listed_after(i2, j2, i, j) ==> deployment_date(deps, i2) != deployment_date(
            deps,
            i,
        ))
}

/// Record `(i, j)` wins for its name: it has the latest date among the records of that
/// name, and it is the last listed of those that have that date.
pub open spec fn is_latest_record(deps: Seq<(Seq<char>, DeploymentView)>, i: int, j: int) -> bool {
    is_latest_before(deps, i, j, deps.len() as int, 0)
}

/// `r` is the latest-wins resolution of `deps`: it holds every contract name that some
/// deployment lists, each with the address of the record that wins for it.
pub open spec fn resolves_to(
    deps: Seq<(Seq<char>, DeploymentView)>,
    r: Map<Seq<char>, Seq<char>>,
) -> bool {
    &&& forall|n: Seq<char>|
        #[trigger] r.contains_key(n) <==> exists|i: int, j: int|
            is_record(deps, i, j) && record_name(deps, i, j) == n
    &&& forall|n: Seq<char>|
        #[trigger] r.contains_key(n) ==> exists|i: int, j: int|
            is_latest_record(deps, i, j) && record_name(deps, i, j) == n && record_address(
                deps,
                i,
                j,
            ) == r[n]
}

spec fn winner_name(
    deps: Seq<(Seq<char>, DeploymentView)>,
    best: Seq<(usize, usize)>,
    k: int,
) -> Seq<char> {
    record_name(deps, best[k].0 as int, best[k].1 as int)
}

spec fn has_winner(
    deps: Seq<(Seq<char>, DeploymentView)>,
    best: Seq<(usize, usize)>,
    n: Seq<char>,
) -> bool {
    exists|k: int| 0 <= k < best.len() && #[trigger] winner_name(deps, best, k) == n
}

/// `best` holds, once per name listed before `(pi, pj)`, the record that wins for it so far.
spec fn winners_before(
    deps: Seq<(Seq<char>, DeploymentView)>,
    best: Seq<(usize, usize)>,
    pi: int,
    pj: int,
) -> bool {
    &&& forall|k: int|
        0 <= k < best.len() ==> is_latest_before(
            deps,
            #[trigger] best[k].0 as int,
            best[k].1 as int,
            pi,
            pj,
        )
    &&& forall|k1: int, k2: int|
        0 <= k1 < k2 < best.len() ==> winner_name(deps, best, k1) != winner_name(deps, best, k2)
    &&& forall|i2: int, j2: int|
        #![trigger record_name(deps, i2, j2)]
        is_record(deps, i2, j2) && listed_after(pi, pj, i2, j2) ==> has_winner(
            deps,
            best,
            record_name(deps, i2, j2),
        )
}

proof fn lemma_take_over(
    deps: Seq<(Seq<char>, DeploymentView)>,
    old_best: Seq<(usize, usize)>,
    best: Seq<(usize, usize)>,
    k: int,
    i: int,
    j: int,
)
    requires
        0 <= i <= usize::MAX,
        0 <= j <= usize::MAX,
        winners_before(deps, old_best, i, j),
        is_record(deps, i, j),
        0 <= k < old_best.len(),
        winner_name(deps, old_best, k) == record_name(deps, i, j),
        date_le(deployment_date(deps, old_best[k].0 as int), deployment_date(deps, i)),
        best == old_best.update(k, (i as usize, j as usize)),
    ensures
        winners_before(deps, best, i, j + 1),
{
    let bi = old_best[k].0 as int;
    let bj = old_best[k].1 as int;
    assert(is_latest_before(deps, bi, bj, i, j));
    assert forall|k2: int| 0 <= k2 < best.len() implies is_latest_before(
        deps,
        #[trigger] best[k2].0 as int,
        best[k2].1 as int,
        i,
        j + 1,
    ) by {
        if k2 == k {
            assert forall|i2: int, j2: int|
                #![trigger record_name(deps, i2, j2)]
                is_record(deps, i2, j2) && listed_after(i, j + 1, i2, j2) && record_name(deps, i2, j2)
                    == record_name(deps, i, j) implies date_le(
                deployment_date(deps, i2),
                deployment_date(deps, i),
            ) && (listed_after(i2, j2, i, j) ==> deployment_date(deps, i2) != deployment_date(
                deps,
                i,
            )) by {
                if i2 != i || j2 != j {
                    assert(listed_after(i, j, i2, j2));
                }
            }
        } else {
            assert(is_latest_before(deps, old_best[k2].0 as int, old_best[k2].1 as int, i, j));
            if k2 < k {
                assert(winner_name(deps, old_best, k2) != winner_name(deps, old_best, k));
            } else {
                assert(winner_name(deps, old_best, k) != winner_name(deps, old_best, k2));
            }
        }
    }
    assert forall|k1: int, k2: int| 0 <= k1 < k2 < best.len() implies winner_name(deps, best, k1)
        != winner_name(deps, best, k2) by {
        assert(winner_name(deps, old_best, k1) != winner_name(deps, old_best, k2));
    }
    assert forall|i2: int, j2: int|
        #![trigger record_name(deps, i2, j2)]
        is_record(deps, i2, j2) && listed_after(i, j + 1, i2, j2) implies has_winner(
        deps,
        best,
        record_name(deps, i2, j2),
    ) by {
        if i2 == i && j2 == j {
            assert(winner_name(deps, best, k) == record_name(deps, i2, j2));
        } else {
            assert(listed_after(i, j, i2, j2));
            let k2 = choose|k2: int|
                0 <= k2 < old_best.len() && winner_name(deps, old_best, k2) == record_name(
                    deps,
                    i2,
                    j2,
                );
            assert(winner_name(deps, best, k2) == record_name(deps, i2, j2));
        }
    }
}

proof fn lemma_keep(
    deps: Seq<(Seq<char>, DeploymentView)>,
    best: Seq<(usize, usize)>,
    k: int,
    i: int,
    j: int,
)
    requires
        winners_before(deps, best, i, j),
        is_record(deps, i, j),
        0 <= k < best.len(),
        winner_name(deps, best, k) == record_name(deps, i, j),
        !date_le(deployment_date(deps, best[k].0 as int), deployment_date(deps, i)),
    ensures
        winners_before(deps, best, i, j + 1),
{
    assert forall|k2: int| 0 <= k2 < best.len() implies is_latest_before(
        deps,
        #[trigger] best[k2].0 as int,
        best[k2].1 as int,
        i,
        j + 1,
    ) by {
        assert(is_latest_before(deps, best[k2].0 as int, best[k2].1 as int, i, j));
        if k2 != k {
            if k2 < k {
                assert(winner_name(deps, best, k2) != winner_name(deps, best, k));
            } else {
                assert(winner_name(deps, best, k) != winner_name(deps, best, k2));
            }
        }
    }
    assert forall|i2: int, j2: int|
        #![trigger record_name(deps, i2, j2)]
        is_record(deps, i2, j2) && listed_after(i, j + 1, i2, j2) implies has_winner(
        deps,
        best,
        record_name(deps, i2, j2),
    ) by {
        if i2 == i && j2 == j {
            assert(winner_name(deps, best, k) == record_name(deps, i2, j2));
        } else {
            assert(listed_after(i, j, i2, j2));
        }
    }
}

proof fn lemma_first_of_name(
    deps: Seq<(Seq<char>, DeploymentView)>,
    old_best: Seq<(usize, usize)>,
    best: Seq<(usize, usize)>,
    i: int,
    j: int,
)
    requires
        0 <= i <= usize::MAX,
        0 <= j <= usize::MAX,
        winners_before(deps, old_best, i, j),
        is_record(deps, i, j),
        forall|k: int| 0 <= k < old_best.len() ==> winner_name(deps, old_best, k) != record_name(deps, i, j),
        best == old_best.push((i as usize, j as usize)),
    ensures
        winners_before(deps, best, i, j + 1),
{
    let k = old_best.len() as int;
    assert forall|k2: int| 0 <= k2 < best.len() implies is_latest_before(
        deps,
        #[trigger] best[k2].0 as int,
        best[k2].1 as int,
        i,
        j + 1,
    ) by {
        if k2 == k {
            assert forall|i2: int, j2: int|
                #![trigger record_name(deps, i2, j2)]
                is_record(deps, i2, j2) && listed_after(i, j + 1, i2, j2) && record_name(deps, i2, j2)
                    == record_name(deps, i, j) implies date_le(
                deployment_date(deps, i2),
                deployment_date(deps, i),
            ) && (listed_after(i2, j2, i, j) ==> deployment_date(deps, i2) != deployment_date(
                deps,
                i,
            )) by {
                if i2 != i || j2 != j {
                    assert(listed_after(i, j, i2, j2));
                    let k3 = choose|k3: int|
                        0 <= k3 < old_best.len() && winner_name(deps, old_best, k3) == record_name(
                            deps,
                            i2,
                            j2,
                        );
                    assert(false);
                }
            }
        } else {
            assert(best[k2] == old_best[k2]);
            assert(is_latest_before(deps, old_best[k2].0 as int, old_best[k2].1 as int, i, j));
            assert(winner_name(deps, old_best, k2) != record_name(deps, i, j));
        }
    }
    assert forall|k1: int, k2: int| 0 <= k1 < k2 < best.len() implies winner_name(deps, best, k1)
        != winner_name(deps, best, k2) by {
        assert(best[k1] == old_best[k1]);
        if k2 < k {
            assert(best[k2] == old_best[k2]);
            assert(winner_name(deps, old_best, k1) != winner_name(deps, old_best, k2));
        }
    }
    assert forall|i2: int, j2: int|
        #![trigger record_name(deps, i2, j2)]
        is_record(deps, i2, j2) && listed_after(i, j + 1, i2, j2) implies has_winner(
        deps,
        best,
        record_name(deps, i2, j2),
    ) by {
        if i2 == i && j2 == j {
            assert(winner_name(deps, best, k) == record_name(deps, i2, j2));
        } else {
            assert(listed_after(i, j, i2, j2));
            let k2 = choose|k2: int|
                0 <= k2 < old_best.len() && winner_name(deps, old_best, k2) == record_name(
                    deps,
                    i2,
                    j2,
                );
            assert(best[k2] == old_best[k2]);
            assert(winner_name(deps, best, k2) == record_name(deps, i2, j2));
        }
    }
}

proof fn lemma_next_deployment(
    deps: Seq<(Seq<char>, DeploymentView)>,
    best: Seq<(usize, usize)>,
    i: int,
    j: int,
)
    requires
        0 <= i < deps.len(),
        j == deps[i].1.contracts.len(),
        winners_before(deps, best, i, j),
    ensures
        winners_before(deps, best, i + 1, 0),
{
    assert forall|k2: int| 0 <= k2 < best.len() implies is_latest_before(
        deps,
        #[trigger] best[k2].0 as int,
        best[k2].1 as int,
        i + 1,
        0,
    ) by {
        let bi = best[k2].0 as int;
        let bj = best[k2].1 as int;
        assert(is_latest_before(deps, bi, bj, i, j));
        assert forall|i2: int, j2: int|
            #![trigger record_name(deps, i2, j2)]
            is_record(deps, i2, j2) && listed_after(i + 1, 0, i2, j2) && record_name(deps, i2, j2)
                == record_name(deps, bi, bj) implies date_le(
            deployment_date(deps, i2),
            deployment_date(deps, bi),
        ) && (listed_after(i2, j2, bi, bj) ==> deployment_date(deps, i2) != deployment_date(
            deps,
            bi,
        )) by {
            assert(listed_after(i, j, i2, j2));
        }
    }
    assert forall|i2: int, j2: int|
        #![trigger record_name(deps, i2, j2)]
        is_record(deps, i2, j2) && listed_after(i + 1, 0, i2, j2) implies has_winner(
        deps,
        best,
        record_name(deps, i2, j2),
    ) by {
        assert(listed_after(i, j, i2, j2));
    }
}

fn find_winner(deployments: &NetworkDeployments, best: &Vec<(usize, usize)>, name: &String) -> (r:
    Option<usize>)
    requires
        forall|k: int|
            0 <= k < best@.len() ==> is_record(
                deployments@,
                (#[trigger] best@[k]).0 as int,
                best@[k].1 as int,
            ),
    ensures
        match r {
            Some(k) => k < best@.len() && winner_name(deployments@, best@, k as int) == name@,
            None => forall|k: int|
                0 <= k < best@.len() ==> winner_name(deployments@, best@, k) != name@,
        },
{
    let mut k: usize = 0;
    while k < best.len()
        invariant
            0 <= k <= best@.len(),
            forall|k2: int| 0 <= k2 < k ==> winner_name(deployments@, best@, k2) != name@,
            forall|k2: int|
                0 <= k2 < best@.len() ==> is_record(
                    deployments@,
                    (#[trigger] best@[k2]).0 as int,
                    best@[k2].1 as int,
                ),
        decreases best@.len() - k,
    {
        let (bi, bj) = best[k];
        assert(is_record(deployments@, bi as int, bj as int));
        assert(deployments@[bi as int].1.contracts[bj as int] == deployments.deployments@[bi as int].1.contracts@[bj as int]@);
        if deployments.deployments[bi].1.contracts[bj].name == *name {
            return Some(k);
        }
        k = k + 1;
    }
    None
}

/// Resolves the contracts of one bucket: per contract name, the address of the latest
/// dated record (on equal dates, the last listed). Fails on the first signature that
/// carries no date, and then returns nothing else.
pub fn process_contracts_with_latest_deployments(
    active_deployments: NetworkDeployments,
    chain_id: u64,
) -> (r: Result<ChainContracts, ParseError>)
    ensures
        r is Ok <==> all_dated(active_deployments@),
        r matches Ok(c) ==> resolves_to(active_deployments@, c@),
        r matches Err(e) ==> is_date_error(e, chain_id, active_deployments@),
{
    let ghost deps = active_deployments@;
    let n = active_deployments.deployments.len();
    let mut dates: Vec<Date> = Vec::new();
    let mut i: usize = 0;
    while i < n
        invariant
            n == deps.len(),
            deps == active_deployments@,
            0 <= i <= n,
            dates@.len() == i,
            forall|k: int| 0 <= k < i ==> signature_date(deps[k].0) == Some(#[trigger] dates@[k]),
        decreases n - i,
    {
        let signature = &active_deployments.deployments[i].0;
        assert(deps[i as int].0 == signature@);
        match parse_data_from_signature(signature.clone(), chain_id) {
            Ok(d) => dates.push(d),
            Err(e) => {
                assert(is_first_undated(deps, signature@)) by {
                    assert forall|k: int| 0 <= k < i implies (#[trigger] signature_date(
                        deps[k].0,
                    )) is Some by {
                        assert(signature_date(deps[k].0) == Some(dates@[k]));
                    }
                }
                assert(!all_dated(deps));
                return Err(e);
            },
        }
        i = i + 1;
    }
    assert(all_dated(deps)) by {
        assert forall|k: int| 0 <= k < deps.len() implies (#[trigger] signature_date(
            deps[k].0,
        )) is Some by {
            assert(signature_date(deps[k].0) == Some(dates@[k]));
        }
    }
    let mut best: Vec<(usize, usize)> = Vec::new();
    let mut i: usize = 0;
    while i < n
        invariant
            n == deps.len(),
            deps == active_deployments@,
            0 <= i <= n,
            dates@.len() == n,
            forall|k: int| 0 <= k < n ==> deployment_date(deps, k) == #[trigger] dates@[k],
            winners_before(deps, best@, i as int, 0),
        decreases n - i,
    {
        let contracts = &active_deployments.deployments[i].1.contracts;
        assert(deps[i as int].1.contracts == contracts@.map_values(|c: Contract| c@));
        let mut j: usize = 0;
        while j < contracts.len()
            invariant
                n == deps.len(),
                deps == active_deployments@,
                0 <= i < n,
                0 <= j <= contracts@.len(),
                contracts@.len() == deps[i as int].1.contracts.len(),
                contracts == active_deployments.deployments@[i as int].1.contracts,
                dates@.len() == n,
                forall|k: int| 0 <= k < n ==> deployment_date(deps, k) == #[trigger] dates@[k],
                winners_before(deps, best@, i as int, j as int),
            decreases contracts@.len() - j,
        {
            let name = &contracts[j].name;
            assert(record_name(deps, i as int, j as int) == name@);
            let ghost old_best = best@;
            assert forall|k: int| 0 <= k < best@.len() implies is_record(
                deps,
                (#[trigger] best@[k]).0 as int,
                best@[k].1 as int,
            ) by {
                assert(is_latest_before(deps, best@[k].0 as int, best@[k].1 as int, i as int, j as int));
            }
            match find_winner(&active_deployments, &best, name) {
                Some(k) => {
                    let (bi, bj) = best[k];
                    assert(is_latest_before(deps, bi as int, bj as int, i as int, j as int));
                    if dates[i].is_on_or_after(&dates[bi]) {
                        best.set(k, (i, j));
                        proof {
                            assert(deployment_date(deps, i as int) == dates@[i as int]);
                            assert(deployment_date(deps, bi as int) == dates@[bi as int]);
                            lemma_take_over(deps, old_best, best@, k as int, i as int, j as int);
                        }
                    } else {
                        proof {
                            assert(deployment_date(deps, i as int) == dates@[i as int]);
                            assert(deployment_date(deps, bi as int) == dates@[bi as int]);
                            lemma_keep(deps, best@, k as int, i as int, j as int);
                        }
                    }
                },
                None => {
                    best.push((i, j));
                    proof {
                        lemma_first_of_name(deps, old_best, best@, i as int, j as int);
                    }
                },
            }
            j = j + 1;
        }
        proof {
            lemma_next_deployment(deps, best@, i as int, j as int);
        }
        i = i + 1;
    }
    let mut result = ChainContracts::new();
    let mut k: usize = 0;
    while k < best.len()
        invariant
            deps == active_deployments@,
            n == deps.len(),
            0 <= k <= best@.len(),
            winners_before(deps, best@, n as int, 0),
            forall|m: Seq<char>| #[trigger]
                result@.contains_key(m) <==> exists|k2: int|
                    0 <= k2 < k && winner_name(deps, best@, k2) == m,
            forall|k2: int|
                0 <= k2 < k ==> #[trigger] result@[winner_name(deps, best@, k2)] == record_address(
                    deps,
                    best@[k2].0 as int,
                    best@[k2].1 as int,
                ),
        decreases best@.len() - k,
    {
        let (bi, bj) = best[k];
        assert(is_latest_before(deps, bi as int, bj as int, n as int, 0));
        let contract = &active_deployments.deployments[bi].1.contracts[bj];
        assert(deps[bi as int].1.contracts[bj as int] == contract@);
        let ghost before = result@;
        result.insert(contract.name.clone(), contract.address.clone());
        proof {
            assert(winner_name(deps, best@, k as int) == contract.name@);
            assert forall|m: Seq<char>| #[trigger]
                result@.contains_key(m) <==> exists|k2: int|
                    0 <= k2 < k + 1 && winner_name(deps, best@, k2) == m by {
                if m != contract.name@ && result@.contains_key(m) {
                    assert(before.contains_key(m));
                }
            }
            assert forall|k2: int| 0 <= k2 < k + 1 implies #[trigger] result@[winner_name(
                deps,
                best@,
                k2,
            )] == record_address(deps, best@[k2].0 as int, best@[k2].1 as int) by {
                if k2 < k {
                    assert(winner_name(deps, best@, k2) != winner_name(deps, best@, k as int));
                }
            }
        }
        k = k + 1;
    }
    proof {
        assert forall|m: Seq<char>| #[trigger]
            result@.contains_key(m) <==> exists|i2: int, j2: int|
                is_record(deps, i2, j2) && record_name(deps, i2, j2) == m by {
            if result@.contains_key(m) {
                let k2 = choose|k2: int| 0 <= k2 < best@.len() && winner_name(deps, best@, k2) == m;
                assert(is_latest_before(deps, best@[k2].0 as int, best@[k2].1 as int, n as int, 0));
            }
            if exists|i2: int, j2: int| is_record(deps, i2, j2) && record_name(deps, i2, j2) == m {
                let (i2, j2) = choose|i2: int, j2: int|
                    is_record(deps, i2, j2) && record_name(deps, i2, j2) == m;
                assert(listed_after(n as int, 0, i2, j2));
            }
        }
        assert forall|m: Seq<char>| #[trigger] result@.contains_key(m) implies exists|
            i2: int,
            j2: int,
        |
            is_latest_record(deps, i2, j2) && record_name(deps, i2, j2) == m && record_address(
                deps,
                i2,
                j2,
            ) == result@[m] by {
            let k2 = choose|k2: int| 0 <= k2 < best@.len() && winner_name(deps, best@, k2) == m;
            assert(result@[winner_name(deps, best@, k2)] == record_address(deps, best@[k2].0 as int, best@[k2].1 as int));
            assert(is_latest_before(deps, best@[k2].0 as int, best@[k2].1 as int, n as int, 0));
        }
    }
    Ok(result)
}

/// Deployment `d` lists a contract named `n`.
pub open spec fn lists(d: DeploymentView, n: Seq<char>) -> bool {
    exists|j: int| 0 <= j < d.contracts.len() && (#[trigger] d.contracts[j]).0 == n
}

/// `a` is the address of the last contract named `n` that `d` lists.
pub open spec fn is_last_listed_address(d: DeploymentView, n: Seq<char>, a: Seq<char>) -> bool {
    exists|j: int|
        0 <= j < d.contracts.len() && d.contracts[j] == (n, a) && forall|j2: int|
            j < j2 < d.contracts.len() ==> (#[trigger] d.contracts[j2]).0 != n
}

/// The deployments of `deps` that list `n` carry pairwise distinct dates.
pub open spec fn dates_distinct_for(deps: Seq<(Seq<char>, DeploymentView)>, n: Seq<char>) -> bool {
    forall|i1: int, i2: int|
        0 <= i1 < deps.len() && 0 <= i2 < deps.len() && i1 != i2 && lists(deps[i1].1, n) && lists(
            deps[i2].1,
            n,
        ) ==> #[trigger] signature_date(deps[i1].0) != #[trigger] signature_date(deps[i2].0)
}

/// `d` is the deployment listing `n` whose date is strictly later than that of every
/// other deployment of `deps` listing `n`.
pub open spec fn is_strictly_latest_for(
    deps: Seq<(Seq<char>, DeploymentView)>,
    d: (Seq<char>, DeploymentView),
    n: Seq<char>,
) -> bool {
    &&& deps.contains(d)
    &&& lists(d.1, n)
    &&& forall|i: int|
        0 <= i < deps.len() && #[trigger] deps[i] != d && lists(deps[i].1, n) ==> date_le(
            signature_date(deps[i].0)->0,
            signature_date(d.0)->0,
        ) && signature_date(deps[i].0) != signature_date(d.0)
}

proof fn lemma_strictly_latest(
    deps: Seq<(Seq<char>, DeploymentView)>,
    r: Map<Seq<char>, Seq<char>>,
    n: Seq<char>,
) -> (d: (Seq<char>, DeploymentView))
    requires
        all_dated(deps),
        resolves_to(deps, r),
        dates_distinct_for(deps, n),
        r.contains_key(n),
    ensures
        is_strictly_latest_for(deps, d, n),
        is_last_listed_address(d.1, n, r[n]),
        forall|i: int| 0 <= i < deps.len() && #[trigger] deps[i] == d ==> lists(deps[i].1, n),
{
    let (i, j) = choose|i: int, j: int|
        is_latest_record(deps, i, j) && record_name(deps, i, j) == n && record_address(deps, i, j)
            == r[n];
    let d = deps[i];
    assert(deps[i].1.contracts[j] == (n, r[n]));
    assert(lists(d.1, n));
    assert(deps.contains(d));
    assert forall|j2: int| j < j2 < d.1.contracts.len() implies (#[trigger] d.1.contracts[j2]).0
        != n by {
        if d.1.contracts[j2].0 == n {
            assert(record_name(deps, i, j2) == n);
            assert(listed_after(i, j2, i, j));
        }
    }
    assert forall|i2: int|
        0 <= i2 < deps.len() && #[trigger] deps[i2] != d && lists(deps[i2].1, n) implies date_le(
        signature_date(deps[i2].0)->0,
        signature_date(d.0)->0,
    ) && signature_date(deps[i2].0) != signature_date(d.0) by {
        let j2 = choose|j2: int|
            0 <= j2 < deps[i2].1.contracts.len() && (#[trigger] deps[i2].1.contracts[j2]).0 == n;
        assert(record_name(deps, i2, j2) == n);
        assert(signature_date(deps[i2].0) is Some);
        assert(signature_date(deps[i].0) is Some);
    }
    assert forall|i2: int| 0 <= i2 < deps.len() && #[trigger] deps[i2] == d implies lists(
        deps[i2].1,
        n,
    ) by {}
    d
}

/// Latest wins whatever the order: when the deployments listing `n` carry pairwise
/// distinct dates, two orderings of the same deployments both resolve `n` to the address
/// that the strictly latest of them lists last.
pub proof fn lemma_latest_wins_in_any_order(
    deps1: Seq<(Seq<char>, DeploymentView)>,
    deps2: Seq<(Seq<char>, DeploymentView)>,
    r1: Map<Seq<char>, Seq<char>>,
    r2: Map<Seq<char>, Seq<char>>,
    n: Seq<char>,
)
    requires
        deps1.to_multiset() == deps2.to_multiset(),
        all_dated(deps1),
        resolves_to(deps1, r1),
        resolves_to(deps2, r2),
        dates_distinct_for(deps1, n),
    ensures
        r1.contains_key(n) == r2.contains_key(n),
        r1.contains_key(n) ==> r1[n] == r2[n] && exists|d: (Seq<char>, DeploymentView)|
            is_strictly_latest_for(deps1, d, n) && is_last_listed_address(d.1, n, r1[n]),
{
    assert forall|x: (Seq<char>, DeploymentView)| deps1.contains(x) <==> deps2.contains(x) by {
        vstd::seq_lib::to_multiset_contains(deps1, x);
        vstd::seq_lib::to_multiset_contains(deps2, x);
    }
    assert(all_dated(deps2)) by {
        assert forall|i: int| 0 <= i < deps2.len() implies (#[trigger] signature_date(
            deps2[i].0,
        )) is Some by {
            assert(deps2.contains(deps2[i]));
            let i1 = choose|i1: int| 0 <= i1 < deps1.len() && deps1[i1] == deps2[i];
            assert(signature_date(deps1[i1].0) is Some);
        }
    }
    if r1.contains_key(n) {
        let (i, j) = choose|i: int, j: int| is_record(deps1, i, j) && record_name(deps1, i, j) == n;
        assert(deps1.contains(deps1[i]));
        let i2 = choose|i2: int| 0 <= i2 < deps2.len() && deps2[i2] == deps1[i];
        assert(is_record(deps2, i2, j) && record_name(deps2, i2, j) == n);
    }
    if r2.contains_key(n) {
        let (i, j) = choose|i: int, j: int| is_record(deps2, i, j) && record_name(deps2, i, j) == n;
        assert(deps2.contains(deps2[i]));
        let i1 = choose|i1: int| 0 <= i1 < deps1.len() && deps1[i1] == deps2[i];
        assert(is_record(deps1, i1, j) && record_name(deps1, i1, j) == n);
    }
    if r1.contains_key(n) {
        let d = lemma_strictly_latest(deps1, r1, n);
        // the same deployment wins in the second order
        let (i, j) = choose|i: int, j: int|
            is_latest_record(deps2, i, j) && record_name(deps2, i, j) == n && record_address(
                deps2,
                i,
                j,
            ) == r2[n];
        let y = deps2[i];
        assert(deps2.contains(y));
        let iy = choose|iy: int| 0 <= iy < deps1.len() && deps1[iy] == y;
        assert(deps1[iy].1.contracts[j].0 == n);
        assert(lists(y.1, n));
        if y != d {
            assert(deps2.contains(d));
            let id = choose|id: int| 0 <= id < deps2.len() && deps2[id] == d;
            let jd = choose|jd: int| 0 <= jd < d.1.contracts.len() && (#[trigger] d.1.contracts[jd]).0 == n;
            assert(record_name(deps2, id, jd) == n);
            assert(date_le(deployment_date(deps2, id), deployment_date(deps2, i)));
            assert(signature_date(deps1[iy].0) is Some);
            assert(false);
        }
        assert forall|j2: int| j < j2 < y.1.contracts.len() implies (#[trigger] y.1.contracts[j2]).0
            != n by {
            if y.1.contracts[j2].0 == n {
                assert(record_name(deps2, i, j2) == n);
                assert(listed_after(i, j2, i, j));
            }
        }
        let jl = choose|jl: int|
            0 <= jl < d.1.contracts.len() && d.1.contracts[jl] == (n, r1[n]) && forall|j2: int|
                jl < j2 < d.1.contracts.len() ==> (#[trigger] d.1.contracts[j2]).0 != n;
        if jl < j {
            assert(d.1.contracts[j].0 == n);
        }
        if j < jl {
            assert(y.1.contracts[jl].0 == n);
        }
        assert(jl == j);
    }
}

/// Two deployments of the same date that both list `n`: resolution holds one address for
/// `n`, the last one that one of the two lists.
pub proof fn lemma_equal_dates_pick_one(
    deps: Seq<(Seq<char>, DeploymentView)>,
    r: Map<Seq<char>, Seq<char>>,
    n: Seq<char>,
)
    requires
        deps.len() == 2,
        all_dated(deps),
        signature_date(deps[0].0) == signature_date(deps[1].0),
        lists(deps[0].1, n),
        lists(deps[1].1, n),
        resolves_to(deps, r),
    ensures
        r.contains_key(n),
        is_last_listed_address(deps[0].1, n, r[n]) || is_last_listed_address(deps[1].1, n, r[n]),
{
    let j0 = choose|j: int| 0 <= j < deps[0].1.contracts.len() && (#[trigger] deps[0].1.contracts[j]).0 == n;
    assert(is_record(deps, 0, j0) && record_name(deps, 0, j0) == n);
    assert(r.contains_key(n));
    let (i, j) = choose|i: int, j: int|
        is_latest_record(deps, i, j) && record_name(deps, i, j) == n && record_address(deps, i, j)
            == r[n];
    assert(deps[i].1.contracts[j] == (n, r[n]));
    assert forall|j2: int| j < j2 < deps[i].1.contracts.len() implies (
    #[trigger] deps[i].1.contracts[j2]).0 != n by {
        if deps[i].1.contracts[j2].0 == n {
            assert(record_name(deps, i, j2) == n);
            assert(listed_after(i, j2, i, j));
        }
    }
    assert(is_last_listed_address(deps[i].1, n, r[n]));
}

/// Adds the resolution of the bucket `active` for `chain_id` to `chains`; an empty
/// bucket adds nothing. Fails on an undated signature, or when `chain_id` is already
/// there.
pub(crate) fn insert_resolved_chain(
    chains: &mut ChainDeployments,
    active: NetworkDeployments,
    chain_id: u64,
) -> (r: Result<(), ParseError>)
    ensures
        r is Ok <==> active@.len() == 0 || (all_dated(active@) && !old(chains)@.contains_key(
            chain_id,
        )),
        r matches Err(e) ==> if !all_dated(active@) {
            is_date_error(e, chain_id, active@)
        } else {
            e == (ParseError::ChainIdAlreadyExists { chain_id })
        },
        r is Ok && active@.len() == 0 ==> final(chains)@ == old(chains)@,
        r is Ok && active@.len() > 0 ==> final(chains)@ == old(chains)@.insert(
            chain_id,
            final(chains)@[chain_id],
        ) && resolves_to(active@, final(chains)@[chain_id]),
{
    if active.is_empty() {
        return Ok(());
    }
    let ghost deps = active@;
    match process_contracts_with_latest_deployments(active, chain_id) {
        Err(e) => Err(e),
        Ok(contracts) => {
            if chains.contains_key(&chain_id) {
                return Err(ParseError::ChainIdAlreadyExists { chain_id });
            }
            let ghost resolved = contracts@;
            chains.insert(chain_id, contracts);
            assert(final(chains)@[chain_id] == resolved);
            Ok(())
        },
    }
}

pub open spec fn bucket(
    nets: Seq<Network>,
    k: int,
    version: DeploymentVersion,
) -> Seq<(Seq<char>, DeploymentView)> {
    selected(nets[k].deployments@, version)
}

/// Network `k` has active deployments of `version`.
pub open spec fn contributes(nets: Seq<Network>, k: int, version: DeploymentVersion) -> bool {
    bucket(nets, k, version).len() > 0
}

/// Some record of network `k`, whatever its status or version, carries no date.
pub open spec fn has_undated_record(nets: Seq<Network>, k: int) -> bool {
    !all_dated(nets[k].deployments@)
}

/// Network `k` contributes to `version` under a chain id that an earlier contributing
/// network already holds.
pub open spec fn repeats_chain_id(nets: Seq<Network>, k: int, version: DeploymentVersion) -> bool {
    contributes(nets, k, version) && exists|k2: int|
        0 <= k2 < k && contributes(nets, k2, version) && #[trigger] nets[k2].chain_id
            == nets[k].chain_id
}

pub open spec fn fails_at(nets: Seq<Network>, k: int) -> bool {
    has_undated_record(nets, k) || repeats_chain_id(nets, k, DeploymentVersion::V2)
        || repeats_chain_id(nets, k, DeploymentVersion::V3)
}

/// The error that processing network `k` stops with: every signature of the network is
/// dated first, then its v2 bucket is registered before its v3 bucket.
pub open spec fn is_error_at(nets: Seq<Network>, k: int, e: ParseError) -> bool {
    if has_undated_record(nets, k) {
        is_date_error(e, nets[k].chain_id, nets[k].deployments@)
    } else {
        e == (ParseError::ChainIdAlreadyExists { chain_id: nets[k].chain_id })
    }
}

/// Checks that every signature of `deployments` carries a date, whatever the status or
/// version of its record; reports the first one that does not.
pub fn check_signature_dates(deployments: &NetworkDeployments, chain_id: u64) -> (r: Result<
    (),
    ParseError,
>)
    ensures
        r is Ok <==> all_dated(deployments@),
        r matches Err(e) ==> is_date_error(e, chain_id, deployments@),
{
    let ghost deps = deployments@;
    let mut i: usize = 0;
    while i < deployments.deployments.len()
        invariant
            deps == deployments@,
            0 <= i <= deps.len(),
            forall|k: int| 0 <= k < i ==> (#[trigger] signature_date(deps[k].0)) is Some,
        decreases deps.len() - i,
    {
        let signature = &deployments.deployments[i].0;
        assert(deps[i as int].0 == signature@);
        match parse_data_from_signature(signature.clone(), chain_id) {
            Ok(_) => {},
            Err(e) => {
                assert(is_first_undated(deps, signature@));
                return Err(e);
            },
        }
        i = i + 1;
    }
    Ok(())
}

/// Every bucket of a network whose signatures are all dated is dated too.
pub(crate) proof fn lemma_selected_dated(deps: Seq<(Seq<char>, DeploymentView)>, version: DeploymentVersion)
    requires
        all_dated(deps),
    ensures
        all_dated(selected(deps, version)),
{
    let sel = selected(deps, version);
    assert forall|i: int| 0 <= i < sel.len() implies (#[trigger] signature_date(sel[i].0)) is Some by {
        assert(sel.contains(sel[i]));
        deps.lemma_filter_contains_rev(selection(version), sel[i]);
        let j = choose|j: int| 0 <= j < deps.len() && deps[j] == sel[i];
        assert(signature_date(deps[j].0) is Some);
    }
}

/// `m` maps the chain id of each of the first `upto` networks that contributes to
/// `version` to the resolution of its bucket, and holds nothing else.
pub open spec fn aggregates_upto(
    nets: Seq<Network>,
    upto: int,
    version: DeploymentVersion,
    m: Map<u64, Map<Seq<char>, Seq<char>>>,
) -> bool {
    &&& forall|cid: u64| #[trigger]
        m.contains_key(cid) <==> exists|k: int|
            0 <= k < upto && contributes(nets, k, version) && nets[k].chain_id == cid
    &&& forall|k: int|
        0 <= k < upto && contributes(nets, k, version) ==> resolves_to(
            bucket(nets, k, version),
            m[#[trigger] nets[k].chain_id],
        )
}

pub open spec fn aggregates(
    nets: Seq<Network>,
    version: DeploymentVersion,
    m: Map<u64, Map<Seq<char>, Seq<char>>>,
) -> bool {
    aggregates_upto(nets, nets.len() as int, version, m)
}

pub(crate) proof fn lemma_aggregate_step(
    nets: Seq<Network>,
    k: int,
    version: DeploymentVersion,
    m: Map<u64, Map<Seq<char>, Seq<char>>>,
    m2: Map<u64, Map<Seq<char>, Seq<char>>>,
)
    requires
        0 <= k < nets.len(),
        aggregates_upto(nets, k, version, m),
        !contributes(nets, k, version) ==> m2 == m,
        contributes(nets, k, version) ==> !m.contains_key(nets[k].chain_id) && m2 == m.insert(
            nets[k].chain_id,
            m2[nets[k].chain_id],
        ) && resolves_to(bucket(nets, k, version), m2[nets[k].chain_id]),
    ensures
        aggregates_upto(nets, k + 1, version, m2),
        !repeats_chain_id(nets, k, version),
{
    if contributes(nets, k, version) {
        assert forall|cid: u64| #[trigger]
            m2.contains_key(cid) <==> exists|k2: int|
                0 <= k2 < k + 1 && contributes(nets, k2, version) && nets[k2].chain_id == cid by {
            if cid != nets[k].chain_id && m2.contains_key(cid) {
                assert(m.contains_key(cid));
            }
        }
        assert forall|k2: int|
            0 <= k2 < k + 1 && contributes(nets, k2, version) implies resolves_to(
            bucket(nets, k2, version),
            m2[#[trigger] nets[k2].chain_id],
        ) by {
            if k2 < k {
                assert(m.contains_key(nets[k2].chain_id));
            }
        }
        if repeats_chain_id(nets, k, version) {
            let k2 = choose|k2: int|
                0 <= k2 < k && contributes(nets, k2, version) && #[trigger] nets[k2].chain_id
                    == nets[k].chain_id;
            assert(m.contains_key(nets[k2].chain_id));
        }
    } else {
        assert forall|cid: u64| #[trigger]
            m2.contains_key(cid) <==> exists|k2: int|
                0 <= k2 < k + 1 && contributes(nets, k2, version) && nets[k2].chain_id == cid by {
            if exists|k2: int|
                0 <= k2 < k + 1 && contributes(nets, k2, version) && nets[k2].chain_id == cid {
                let k2 = choose|k2: int|
                    0 <= k2 < k + 1 && contributes(nets, k2, version) && nets[k2].chain_id == cid;
                assert(k2 < k);
            }
        }
    }
}

/// Two networks with distinct chain ids that both contribute to `version`: the address
/// book holds exactly their two chain ids, each with the resolution of its own bucket.
pub proof fn lemma_distinct_chains_both_kept(
    nets: Seq<Network>,
    version: DeploymentVersion,
    m: Map<u64, Map<Seq<char>, Seq<char>>>,
)
    requires
        nets.len() == 2,
        contributes(nets, 0, version),
        contributes(nets, 1, version),
        nets[0].chain_id != nets[1].chain_id,
        aggregates(nets, version, m),
    ensures
        m.dom() == set![nets[0].chain_id, nets[1].chain_id],
        resolves_to(bucket(nets, 0, version), m[nets[0].chain_id]),
        resolves_to(bucket(nets, 1, version), m[nets[1].chain_id]),
{
    assert(m.contains_key(nets[0].chain_id));
    assert(m.contains_key(nets[1].chain_id));
    assert(m.dom() =~= set![nets[0].chain_id, nets[1].chain_id]);
}

/// Two networks that share a chain id, carry only dated signatures and both contribute v2
/// deployments: the second one fails, and only with the duplicate chain id error, so
/// nothing is kept.
pub proof fn lemma_shared_chain_id_fails(nets: Seq<Network>)
    requires
        nets.len() == 2,
        nets[0].chain_id == nets[1].chain_id,
        contributes(nets, 0, DeploymentVersion::V2),
        contributes(nets, 1, DeploymentVersion::V2),
        all_dated(nets[0].deployments@),
        all_dated(nets[1].deployments@),
    ensures
        !fails_at(nets, 0),
        fails_at(nets, 1),
        forall|e: ParseError|
            is_error_at(nets, 1, e) <==> e == (ParseError::ChainIdAlreadyExists {
                chain_id: nets[1].chain_id,
            }),
{
    assert(nets[0].chain_id == nets[1].chain_id);
    assert(repeats_chain_id(nets, 1, DeploymentVersion::V2));
}

/// Builds the v2 and the v3 address books from the supported networks, in their order.
/// Each network contributes its active deployments of each version, resolved latest-wins,
/// under its chain id; a network without such deployments contributes nothing to that
/// version. Processing stops at the first network that holds an undated signature (in
/// any record) or whose chain id is already registered for a version it contributes to.
pub fn parse(networks: &Vec<Network>) -> (r: Result<
    (ProtocolDeployments, ProtocolDeployments),
    ParseError,
>)
    ensures
        r is Err <==> exists|k: int| 0 <= k < networks@.len() && fails_at(networks@, k),
        r matches Err(e) ==> exists|k: int|
            0 <= k < networks@.len() && fails_at(networks@, k) && (forall|k2: int|
                0 <= k2 < k ==> !fails_at(networks@, k2)) && is_error_at(networks@, k, e),
        r matches Ok((v2, v3)) ==> v2.protocol_name@ == "balancer-v2"@
            && v3.protocol_name@ == "balancer-v3"@ && aggregates(
            networks@,
            DeploymentVersion::V2,
            v2.chains@,
        ) && aggregates(networks@, DeploymentVersion::V3, v3.chains@),
{
    let ghost nets = networks@;
    let mut v2_chains = ChainDeployments::new();
    let mut v3_chains = ChainDeployments::new();
    let mut k: usize = 0;
    while k < networks.len()
        invariant
            nets == networks@,
            0 <= k <= nets.len(),
            forall|k2: int| 0 <= k2 < k ==> !fails_at(nets, k2),
            aggregates_upto(nets, k as int, DeploymentVersion::V2, v2_chains@),
            aggregates_upto(nets, k as int, DeploymentVersion::V3, v3_chains@),
        decreases nets.len() - k,
    {
        let network = &networks[k];
        let ghost before_v2 = v2_chains@;
        let ghost before_v3 = v3_chains@;
        assert(nets[k as int].chain_id == network.chain_id);
        match check_signature_dates(&network.deployments, network.chain_id) {
            Err(e) => {
                assert(fails_at(nets, k as int));
                assert(is_error_at(nets, k as int, e));
                return Err(e);
            },
            Ok(()) => {},
        }
        let active_v2 = filter_active_deployments_by_version(
            &network.deployments,
            DeploymentVersion::V2,
        );
        let active_v3 = filter_active_deployments_by_version(
            &network.deployments,
            DeploymentVersion::V3,
        );
        assert(active_v2@ == bucket(nets, k as int, DeploymentVersion::V2));
        assert(active_v3@ == bucket(nets, k as int, DeploymentVersion::V3));
        proof {
            lemma_selected_dated(network.deployments@, DeploymentVersion::V2);
            lemma_selected_dated(network.deployments@, DeploymentVersion::V3);
        }
        match insert_resolved_chain(&mut v2_chains, active_v2, network.chain_id) {
            Err(e) => {
                proof {
                    assert(before_v2.contains_key(network.chain_id));
                    let k2 = choose|k2: int|
                        0 <= k2 < k && contributes(nets, k2, DeploymentVersion::V2)
                            && nets[k2].chain_id == network.chain_id;
                    assert(repeats_chain_id(nets, k as int, DeploymentVersion::V2));
                    assert(fails_at(nets, k as int));
                    assert(is_error_at(nets, k as int, e));
                }
                return Err(e);
            },
            Ok(()) => {},
        }
        proof {
            lemma_aggregate_step(nets, k as int, DeploymentVersion::V2, before_v2, v2_chains@);
        }
        match insert_resolved_chain(&mut v3_chains, active_v3, network.chain_id) {
            Err(e) => {
                proof {
                    assert(before_v3.contains_key(network.chain_id));
                    let k2 = choose|k2: int|
                        0 <= k2 < k && contributes(nets, k2, DeploymentVersion::V3)
                            && nets[k2].chain_id == network.chain_id;
                    assert(repeats_chain_id(nets, k as int, DeploymentVersion::V3));
                    assert(fails_at(nets, k as int));
                    assert(is_error_at(nets, k as int, e));
                }
                return Err(e);
            },
            Ok(()) => {},
        }
        proof {
            lemma_aggregate_step(nets, k as int, DeploymentVersion::V3, before_v3, v3_chains@);
        }
        k = k + 1;
    }
    Ok(
        (
            ProtocolDeployments { protocol_name: "balancer-v2".to_string(), chains: v2_chains },
            ProtocolDeployments { protocol_name: "balancer-v3".to_string(), chains: v3_chains },
        ),
    )
}

} // verus!
