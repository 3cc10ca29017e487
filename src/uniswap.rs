//! Name-based resolution: each chain file lists its latest contracts by name, and a
//! static table of protocols says which names belong to which protocol.
use crate::types::{ChainContracts, ChainDeployments, ProtocolDeployments};
use vstd::prelude::*;
use vstd::string::StrSliceExecFns;

verus! {

#[derive(Debug)]
pub enum ParseError {
    InvalidChainId { value: String },
    ChainIdAlreadyExists { protocol_name: String, chain_id: u64 },
    MissingContracts { protocol_name: String, contracts: Vec<String> },
    DuplicateContracts { contract_name: String, protocols: Vec<String> },
}

/// A protocol and the contract names that belong to it.
pub struct ProtocolConfig {
    pub protocol_name: String,
    pub contracts: Vec<String>,
}

pub ghost struct ProtocolConfigView {
    pub protocol_name: Seq<char>,
    pub contracts: Seq<Seq<char>>,
}

impl View for ProtocolConfig {
    type V = ProtocolConfigView;

    open spec fn view(&self) -> ProtocolConfigView {
        ProtocolConfigView {
            protocol_name: self.protocol_name@,
            contracts: self.contracts@.map_values(|s: String| s@),
        }
    }
}

/// One chain file: its chain id as written, and its latest contracts by name.
pub struct UniswapDeployment {
    pub chain_id: String,
    pub latest: ChainContracts,
}

pub open spec fn is_decimal_digit(c: char) -> bool {
    '0' <= c <= '9'
}

/// The value of a string of decimal digits.
pub open spec fn decimal_value(s: Seq<char>) -> int
    decreases s.len(),
{
    if s.len() == 0 {
        0
    } else {
        10 * decimal_value(s.drop_last()) + (s.last() as int - '0' as int)
    }
}

/// The digits of an unsigned decimal numeral: the text after an optional leading `+`.
pub open spec fn numeral_digits(s: Seq<char>) -> Seq<char> {
    if s.len() > 0 && s[0] == '+' {
        s.drop_first()
    } else {
        s
    }
}

/// `s` reads as a `u64` in decimal: an optional `+`, then one or more digits whose value
/// fits in 64 bits.
pub open spec fn is_u64_numeral(s: Seq<char>) -> bool {
    let d = numeral_digits(s);
    d.len() > 0 && (forall|i: int| 0 <= i < d.len() ==> is_decimal_digit(#[trigger] d[i]))
        && decimal_value(d) <= u64::MAX
}

proof fn lemma_decimal_value_grows(s: Seq<char>, k: int)
    requires
        0 <= k <= s.len(),
        forall|i: int| 0 <= i < s.len() ==> is_decimal_digit(#[trigger] s[i]),
    ensures
        decimal_value(s.take(k)) <= decimal_value(s),
        0 <= decimal_value(s.take(k)),
    decreases s.len() - k,
{
    if k < s.len() {
        lemma_decimal_value_grows(s, k + 1);
        assert(s.take(k + 1).drop_last() =~= s.take(k));
        assert(s.take(k + 1).last() == s[k]);
    } else {
        assert(s.take(k) =~= s);
    }
    lemma_decimal_value_nonnegative(s.take(k));
}

proof fn lemma_decimal_value_nonnegative(s: Seq<char>)
    requires
        forall|i: int| 0 <= i < s.len() ==> is_decimal_digit(#[trigger] s[i]),
    ensures
        0 <= decimal_value(s),
    decreases s.len(),
{
    if s.len() > 0 {
        lemma_decimal_value_nonnegative(s.drop_last());
    }
}

/// Reads a chain id written as a decimal `u64`.
pub fn parse_chain_id(chain_id_str: &str) -> (r: Result<u64, ParseError>)
    ensures
        r is Ok <==> is_u64_numeral(chain_id_str@),
        r matches Ok(v) ==> v == decimal_value(numeral_digits(chain_id_str@)),
        r matches Err(e) ==> e matches ParseError::InvalidChainId { value } && value@
            == chain_id_str@,
{
    let ghost s = chain_id_str@;
    let n = chain_id_str.unicode_len();
    let mut start: usize = 0;
    if n > 0 && chain_id_str.get_char(0) == '+' {
        start = 1;
    }
    let ghost d = numeral_digits(s);
    assert(d =~= s.subrange(start as int, n as int));
    if start == n {
        return Err(ParseError::InvalidChainId { value: chain_id_str.to_string() });
    }
    let mut value: u64 = 0;
    let mut i: usize = start;
    while i < n
        invariant
            s == chain_id_str@,
            n == s.len(),
            start <= i <= n,
            d =~= s.subrange(start as int, n as int),
            d == numeral_digits(s),
            forall|k: int| 0 <= k < i - start ==> is_decimal_digit(#[trigger] d[k]),
            value == decimal_value(d.take(i - start)),
        decreases n - i,
    {
        let c = chain_id_str.get_char(i);
        assert(c == d[i - start]);
        if !('0' <= c && c <= '9') {
            assert(!is_decimal_digit(d[i - start]));
            return Err(ParseError::InvalidChainId { value: chain_id_str.to_string() });
        }
        let digit = (c as u32 - '0' as u32) as u64;
        assert(d.take(i - start + 1).drop_last() =~= d.take(i - start));
        assert(decimal_value(d.take(i - start + 1)) == 10 * value + digit);
        if value > 1844674407370955161 || (value == 1844674407370955161 && digit > 5) {
            proof {
                assert forall|k: int| 0 <= k < i - start + 1 implies is_decimal_digit(
                    #[trigger] d[k],
                ) by {}
                if forall|k: int| 0 <= k < d.len() ==> is_decimal_digit(#[trigger] d[k]) {
                    lemma_decimal_value_grows(d, i - start + 1);
                }
            }
            return Err(ParseError::InvalidChainId { value: chain_id_str.to_string() });
        }
        value = value * 10 + digit;
        i = i + 1;
    }
    assert(d.take(n - start) =~= d);
    Ok(value)
}

pub open spec fn configs_view(configs: Seq<ProtocolConfig>) -> Seq<ProtocolConfigView> {
    configs.map_values(|c: ProtocolConfig| c@)
}

/// Config `c` lists the contract name `n`.
pub open spec fn claims(c: ProtocolConfigView, n: Seq<char>) -> bool {
    c.contracts.contains(n)
}

/// No contract name is listed by two configs.
pub open spec fn is_exclusive(cfgs: Seq<ProtocolConfigView>) -> bool {
    forall|c1: int, c2: int, n: Seq<char>|
        0 <= c1 < c2 < cfgs.len() && #[trigger] claims(cfgs[c1], n) ==> !#[trigger] claims(
            cfgs[c2],
            n,
        )
}

pub open spec fn claiming(n: Seq<char>) -> spec_fn(ProtocolConfigView) -> bool {
    |c: ProtocolConfigView| claims(c, n)
}

/// The names of the protocols that list `n`, in config order.
pub open spec fn claimants(cfgs: Seq<ProtocolConfigView>, n: Seq<char>) -> Seq<Seq<char>> {
    cfgs.filter(claiming(n)).map_values(|c: ProtocolConfigView| c.protocol_name)
}

pub open spec fn strings_view(v: Seq<String>) -> Seq<Seq<char>> {
    v.map_values(|s: String| s@)
}

/// `e` reports a contract name listed by two configs, with every protocol listing it.
pub open spec fn is_duplicate_error(cfgs: Seq<ProtocolConfigView>, e: ParseError) -> bool {
    e matches ParseError::DuplicateContracts { contract_name, protocols } && (exists|
        c1: int,
        c2: int,
    |
        0 <= c1 < c2 < cfgs.len() && claims(cfgs[c1], contract_name@) && claims(
            cfgs[c2],
            contract_name@,
        )) && strings_view(protocols@) == claimants(cfgs, contract_name@)
}

fn config_lists(config: &ProtocolConfig, name: &String) -> (r: bool)
    ensures
        r == claims(config@, name@),
{
    let mut i: usize = 0;
    while i < config.contracts.len()
        invariant
            0 <= i <= config.contracts@.len(),
            forall|k: int| 0 <= k < i ==> config.contracts@[k]@ != name@,
        decreases config.contracts@.len() - i,
    {
        if config.contracts[i] == *name {
            assert(config@.contracts[i as int] == name@);
            return true;
        }
        i = i + 1;
    }
    proof {
        if claims(config@, name@) {
            let k = choose|k: int| 0 <= k < config@.contracts.len() && config@.contracts[k] == name@;
            assert(config.contracts@[k]@ == name@);
        }
    }
    false
}

fn claimants_of(configs: &Vec<ProtocolConfig>, name: &String) -> (r: Vec<String>)
    ensures
        strings_view(r@) == claimants(configs_view(configs@), name@),
{
    let ghost cfgs = configs_view(configs@);
    let mut r: Vec<String> = Vec::new();
    let mut c: usize = 0;
    while c < configs.len()
        invariant
            cfgs == configs_view(configs@),
            0 <= c <= configs@.len(),
            strings_view(r@) == cfgs.take(c as int).filter(claiming(name@)).map_values(
                |p: ProtocolConfigView| p.protocol_name,
            ),
        decreases configs@.len() - c,
    {
        proof {
            assert(cfgs.take(c + 1) =~= cfgs.take(c as int).push(cfgs[c as int]));
            cfgs.take(c as int).lemma_filter_push(cfgs[c as int], claiming(name@));
        }
        let ghost before = r@;
        if config_lists(&configs[c], name) {
            r.push(configs[c].protocol_name.clone());
            assert(claiming(name@)(cfgs[c as int]));
            assert(strings_view(r@) =~= strings_view(before).push(cfgs[c as int].protocol_name));
        } else {
            assert(!claiming(name@)(cfgs[c as int]));
        }
        c = c + 1;
    }
    assert(cfgs.take(c as int) =~= cfgs);
    r
}

/// Checks that no contract name is listed by two configs; otherwise reports one such
/// name with all the protocols that list it.
pub fn validate_protocol_configs_for_duplicate_definitions(configs: &Vec<ProtocolConfig>) -> (r:
    Result<(), ParseError>)
    ensures
        r is Ok <==> is_exclusive(configs_view(configs@)),
        r matches Err(e) ==> is_duplicate_error(configs_view(configs@), e),
{
    let ghost cfgs = configs_view(configs@);
    let count = configs.len();
    let mut c1: usize = 0;
    while c1 < count
        invariant
            count == cfgs.len(),
            cfgs == configs_view(configs@),
            0 <= c1 <= cfgs.len(),
            forall|a: int, b: int, n: Seq<char>|
                0 <= a < c1 && a < b < cfgs.len() && #[trigger] claims(cfgs[a], n) ==> !#[trigger] claims(
                    cfgs[b],
                    n,
                ),
        decreases cfgs.len() - c1,
    {
        assert(cfgs.len() == configs@.len());
        let names = &configs[c1].contracts;
        assert(cfgs[c1 as int].contracts == names@.map_values(|s: String| s@));
        let mut i: usize = 0;
        while i < names.len()
            invariant
                cfgs == configs_view(configs@),
                0 <= c1 < cfgs.len(),
                cfgs.len() == configs@.len(),
                count == cfgs.len(),
                names == configs@[c1 as int].contracts,
                cfgs[c1 as int].contracts == names@.map_values(|s: String| s@),
                0 <= i <= names@.len(),
                forall|a: int, b: int, n: Seq<char>|
                    0 <= a < c1 && a < b < cfgs.len() && #[trigger] claims(cfgs[a], n) ==> !#[trigger] claims(
                        cfgs[b],
                        n,
                    ),
                forall|k: int, b: int|
                    0 <= k < i && c1 < b < cfgs.len() ==> !#[trigger] claims(cfgs[b], #[trigger] names@[k]@),
            decreases names@.len() - i,
        {
            let name = &names[i];
            let mut c2: usize = c1 + 1;
            while c2 < count
                invariant
                    count == cfgs.len(),
                    cfgs == configs_view(configs@),
                    0 <= c1 < cfgs.len(),
                    c1 < c2 <= cfgs.len(),
                    names == configs@[c1 as int].contracts,
                    cfgs[c1 as int].contracts == names@.map_values(|s: String| s@),
                    0 <= i < names@.len(),
                    name == names@[i as int],
                    forall|b: int| c1 < b < c2 ==> !#[trigger] claims(cfgs[b], name@),
                decreases cfgs.len() - c2,
            {
                if config_lists(&configs[c2], name) {
                    let protocols = claimants_of(configs, name);
                    assert(cfgs[c1 as int].contracts[i as int] == name@);
                    assert(claims(cfgs[c1 as int], name@));
                    assert(claims(cfgs[c2 as int], name@));
                    return Err(
                        ParseError::DuplicateContracts { contract_name: name.clone(), protocols },
                    );
                }
                c2 = c2 + 1;
            }
            i = i + 1;
        }
        proof {
            assert forall|a: int, b: int, n: Seq<char>|
                0 <= a < c1 + 1 && a < b < cfgs.len() && #[trigger] claims(cfgs[a], n) implies !#[trigger] claims(
                cfgs[b],
                n,
            ) by {
                if a == c1 {
                    let k = choose|k: int| 0 <= k < cfgs[a].contracts.len() && cfgs[a].contracts[k] == n;
                    assert(names@[k]@ == n);
                }
            }
        }
        c1 = c1 + 1;
    }
    Ok(())
}

/// Config `c` is the first that lists `n`: `n` belongs to protocol `c`.
pub open spec fn owns(cfgs: Seq<ProtocolConfigView>, c: int, n: Seq<char>) -> bool {
    0 <= c < cfgs.len() && claims(cfgs[c], n) && forall|c2: int|
        0 <= c2 < c ==> !#[trigger] claims(cfgs[c2], n)
}

/// The contracts of `latest` that belong to protocol `c`; a name that no config lists
/// belongs to none.
pub open spec fn protocol_part(
    cfgs: Seq<ProtocolConfigView>,
    c: int,
    latest: Map<Seq<char>, Seq<char>>,
) -> Map<Seq<char>, Seq<char>> {
    Map::new(|n: Seq<char>| latest.contains_key(n) && owns(cfgs, c, n), |n: Seq<char>| latest[n])
}

fn owner_of(configs: &Vec<ProtocolConfig>, name: &String) -> (r: Option<usize>)
    ensures
        match r {
            Some(c) => owns(configs_view(configs@), c as int, name@),
            None => forall|c: int|
                0 <= c < configs@.len() ==> !#[trigger] claims(configs_view(configs@)[c], name@),
        },
{
    let ghost cfgs = configs_view(configs@);
    let mut c: usize = 0;
    while c < configs.len()
        invariant
            cfgs == configs_view(configs@),
            0 <= c <= configs@.len(),
            forall|c2: int| 0 <= c2 < c ==> !#[trigger] claims(cfgs[c2], name@),
        decreases configs@.len() - c,
    {
        if config_lists(&configs[c], name) {
            return Some(c);
        }
        c = c + 1;
    }
    None
}

/// The contracts of `latest` that belong to protocol `c`.
fn contracts_of_protocol(configs: &Vec<ProtocolConfig>, c: usize, latest: &ChainContracts) -> (r:
    ChainContracts)
    requires
        c < configs@.len(),
    ensures
        r@ == protocol_part(configs_view(configs@), c as int, latest@),
{
    let ghost cfgs = configs_view(configs@);
    let entries = latest.entries();
    let mut r = ChainContracts::new();
    let mut k: usize = 0;
    while k < entries.len()
        invariant
            cfgs == configs_view(configs@),
            c < configs@.len(),
            0 <= k <= entries@.len(),
            entries@.len() == latest@.len(),
            forall|i: int, j: int| 0 <= i < j < entries@.len() ==> entries@[i].0@ != entries@[j].0@,
            forall|n: Seq<char>| #[trigger]
                latest@.contains_key(n) <==> exists|i: int| 0 <= i < entries@.len() && entries@[i].0@ == n,
            forall|i: int| 0 <= i < entries@.len() ==> #[trigger] latest@[entries@[i].0@] == entries@[i].1@,
            forall|n: Seq<char>| #[trigger]
                r@.contains_key(n) <==> (exists|i: int| 0 <= i < k && entries@[i].0@ == n) && owns(cfgs, c as int, n),
            forall|n: Seq<char>| #[trigger] r@.contains_key(n) ==> r@[n] == latest@[n],
        decreases entries@.len() - k,
    {
        let name = &entries[k].0;
        let address = &entries[k].1;
        let ghost before = r@;
        match owner_of(configs, name) {
            Some(o) => {
                if o == c {
                    r.insert(name.clone(), address.clone());
                    assert(latest@[entries@[k as int].0@] == entries@[k as int].1@);
                } else {
                    assert(!owns(cfgs, c as int, name@)) by {
                        if o < c {
                            assert(claims(cfgs[o as int], name@));
                        } else {
                            assert(claims(cfgs[c as int], name@) ==> false);
                        }
                    }
                }
            },
            None => {
                assert(!owns(cfgs, c as int, name@));
            },
        }
        proof {
            assert forall|n: Seq<char>| #[trigger]
                r@.contains_key(n) <==> (exists|i: int| 0 <= i < k + 1 && entries@[i].0@ == n) && owns(cfgs, c as int, n) by {
                if n != name@ && (exists|i: int| 0 <= i < k + 1 && entries@[i].0@ == n) {
                    let i = choose|i: int| 0 <= i < k + 1 && entries@[i].0@ == n;
                    assert(i < k);
                }
            }
        }
        k = k + 1;
    }
    proof {
        assert forall|n: Seq<char>| #[trigger] r@.contains_key(n) <==> protocol_part(cfgs, c as int, latest@).contains_key(n) by {
            if latest@.contains_key(n) {
                let i = choose|i: int| 0 <= i < entries@.len() && entries@[i].0@ == n;
            }
        }
        assert(r@ =~= protocol_part(cfgs, c as int, latest@));
    }
    r
}

/// No config lists the contract name `n`.
pub open spec fn unclaimed(cfgs: Seq<ProtocolConfigView>, n: Seq<char>) -> bool {
    forall|c: int| 0 <= c < cfgs.len() ==> !#[trigger] claims(cfgs[c], n)
}

/// The contract names of `latest` that no config lists, each once: they belong to no
/// protocol and are left out of every address book.
pub fn unassigned_contracts(configs: &Vec<ProtocolConfig>, latest: &ChainContracts) -> (r: Vec<
    String,
>)
    ensures
        forall|x: int, y: int| 0 <= x < y < r@.len() ==> r@[x]@ != r@[y]@,
        forall|x: int|
            0 <= x < r@.len() ==> latest@.contains_key(#[trigger] r@[x]@) && unclaimed(
                configs_view(configs@),
                r@[x]@,
            ),
        forall|n: Seq<char>|
            #![trigger latest@.contains_key(n)]
            latest@.contains_key(n) && unclaimed(configs_view(configs@), n) ==> exists|x: int|
                0 <= x < r@.len() && r@[x]@ == n,
{
    let ghost cfgs = configs_view(configs@);
    let entries = latest.entries();
    let mut r: Vec<String> = Vec::new();
    let mut k: usize = 0;
    while k < entries.len()
        invariant
            cfgs == configs_view(configs@),
            cfgs.len() == configs@.len(),
            0 <= k <= entries@.len(),
            forall|i: int, j: int| 0 <= i < j < entries@.len() ==> entries@[i].0@ != entries@[j].0@,
            forall|n: Seq<char>| #[trigger]
                latest@.contains_key(n) <==> exists|i: int| 0 <= i < entries@.len() && entries@[i].0@ == n,
            forall|x: int, y: int| 0 <= x < y < r@.len() ==> r@[x]@ != r@[y]@,
            forall|x: int|
                #![trigger r@[x]]
                0 <= x < r@.len() ==> exists|i: int|
                    0 <= i < k && entries@[i].0@ == r@[x]@ && unclaimed(cfgs, r@[x]@),
            forall|i: int|
                #![trigger entries@[i]]
                0 <= i < k && unclaimed(cfgs, entries@[i].0@) ==> exists|x: int|
                    0 <= x < r@.len() && r@[x]@ == entries@[i].0@,
        decreases entries@.len() - k,
    {
        let name = &entries[k].0;
        let ghost before = r@;
        match owner_of(configs, name) {
            Some(c) => {
                assert(!unclaimed(cfgs, name@)) by {
                    assert(claims(cfgs[c as int], name@));
                }
            },
            None => {
                r.push(name.clone());
                assert forall|x: int| 0 <= x < before.len() implies before[x]@ != name@ by {
                    assert(before[x] == r@[x]);
                }
                assert(r@[before.len() as int]@ == name@);
                assert forall|x: int| #![trigger r@[x]] 0 <= x < r@.len() implies exists|i: int|
                    0 <= i < k + 1 && entries@[i].0@ == r@[x]@ && unclaimed(cfgs, r@[x]@) by {
                    if x < before.len() {
                        assert(before[x] == r@[x]);
                    } else {
                        assert(entries@[k as int].0@ == r@[x]@);
                    }
                }
                assert forall|i: int| #![trigger entries@[i]]
                    0 <= i < k + 1 && unclaimed(cfgs, entries@[i].0@) implies exists|x: int|
                    0 <= x < r@.len() && r@[x]@ == entries@[i].0@ by {
                    if i < k {
                        let x = choose|x: int| 0 <= x < before.len() && before[x]@ == entries@[i].0@;
                        assert(r@[x] == before[x]);
                    } else {
                        assert(r@[before.len() as int]@ == entries@[i].0@);
                    }
                }
            },
        }
        k = k + 1;
    }
    proof {
        assert forall|n: Seq<char>|
            #![trigger latest@.contains_key(n)]
            latest@.contains_key(n) && unclaimed(cfgs, n) implies exists|x: int|
                0 <= x < r@.len() && r@[x]@ == n by {
            let i = choose|i: int| 0 <= i < entries@.len() && entries@[i].0@ == n;
            assert(unclaimed(cfgs, entries@[i].0@));
        }
        assert forall|x: int| 0 <= x < r@.len() implies latest@.contains_key(#[trigger] r@[x]@) && unclaimed(
            cfgs,
            r@[x]@,
        ) by {}
    }
    r
}

pub open spec fn deployments_chain_id(deps: Seq<UniswapDeployment>, k: int) -> u64 {
    decimal_value(numeral_digits(deps[k].chain_id@)) as u64
}

pub open spec fn part_of(
    cfgs: Seq<ProtocolConfigView>,
    deps: Seq<UniswapDeployment>,
    k: int,
    c: int,
) -> Map<Seq<char>, Seq<char>> {
    protocol_part(cfgs, c, deps[k].latest@)
}

/// Chain file `k` holds contracts of protocol `c`.
pub open spec fn contributes(
    cfgs: Seq<ProtocolConfigView>,
    deps: Seq<UniswapDeployment>,
    k: int,
    c: int,
) -> bool {
    part_of(cfgs, deps, k, c).dom() != Set::<Seq<char>>::empty()
}

/// Chain file `k` holds contracts of protocol `c` under a chain id that an earlier file
/// holding contracts of `c` already has.
pub open spec fn repeats_at(
    cfgs: Seq<ProtocolConfigView>,
    deps: Seq<UniswapDeployment>,
    k: int,
    c: int,
) -> bool {
    contributes(cfgs, deps, k, c) && exists|k2: int|
        0 <= k2 < k && contributes(cfgs, deps, k2, c) && #[trigger] deployments_chain_id(deps, k2)
            == deployments_chain_id(deps, k)
}

pub open spec fn chain_fails_at(
    cfgs: Seq<ProtocolConfigView>,
    deps: Seq<UniswapDeployment>,
    k: int,
) -> bool {
    !is_u64_numeral(deps[k].chain_id@) || exists|c: int|
        0 <= c < cfgs.len() && #[trigger] repeats_at(cfgs, deps, k, c)
}

/// The error that processing chain file `k` stops with: its chain id is read first, then
/// its contracts are registered protocol by protocol.
pub open spec fn is_chain_error_at(
    cfgs: Seq<ProtocolConfigView>,
    deps: Seq<UniswapDeployment>,
    k: int,
    e: ParseError,
) -> bool {
    if !is_u64_numeral(deps[k].chain_id@) {
        e matches ParseError::InvalidChainId { value } && value@ == deps[k].chain_id@
    } else {
        exists|c: int|
            0 <= c < cfgs.len() && repeats_at(cfgs, deps, k, c) && (forall|c2: int|
                0 <= c2 < c ==> !#[trigger] repeats_at(cfgs, deps, k, c2)) && (e matches ParseError::ChainIdAlreadyExists {
                protocol_name,
                chain_id,
            } && protocol_name@ == cfgs[c].protocol_name && chain_id == deployments_chain_id(
                deps,
                k,
            ))
    }
}

/// `m` maps the chain id of each of the first `upto` chain files holding contracts of
/// protocol `c` to those contracts, and holds nothing else.
pub open spec fn aggregated_upto(
    cfgs: Seq<ProtocolConfigView>,
    deps: Seq<UniswapDeployment>,
    upto: int,
    c: int,
    m: Map<u64, Map<Seq<char>, Seq<char>>>,
) -> bool {
    &&& forall|cid: u64| #[trigger]
        m.contains_key(cid) <==> exists|k: int|
            0 <= k < upto && contributes(cfgs, deps, k, c) && deployments_chain_id(deps, k) == cid
    &&& forall|k: int|
        0 <= k < upto && contributes(cfgs, deps, k, c) ==> m[#[trigger] deployments_chain_id(deps, k)]
            == part_of(cfgs, deps, k, c)
}

proof fn lemma_chain_step(
    cfgs: Seq<ProtocolConfigView>,
    deps: Seq<UniswapDeployment>,
    k: int,
    c: int,
    m: Map<u64, Map<Seq<char>, Seq<char>>>,
    m2: Map<u64, Map<Seq<char>, Seq<char>>>,
)
    requires
        0 <= k < deps.len(),
        aggregated_upto(cfgs, deps, k, c, m),
        !contributes(cfgs, deps, k, c) ==> m2 == m,
        contributes(cfgs, deps, k, c) ==> !m.contains_key(deployments_chain_id(deps, k)) && m2
            == m.insert(deployments_chain_id(deps, k), part_of(cfgs, deps, k, c)),
    ensures
        aggregated_upto(cfgs, deps, k + 1, c, m2),
        !repeats_at(cfgs, deps, k, c),
{
    if contributes(cfgs, deps, k, c) {
        let cid = deployments_chain_id(deps, k);
        assert forall|x: u64| #[trigger]
            m2.contains_key(x) <==> exists|k2: int|
                0 <= k2 < k + 1 && contributes(cfgs, deps, k2, c) && deployments_chain_id(deps, k2) == x by {
            if x != cid && m2.contains_key(x) {
                assert(m.contains_key(x));
            }
        }
        assert forall|k2: int|
            0 <= k2 < k + 1 && contributes(cfgs, deps, k2, c) implies m2[#[trigger] deployments_chain_id(deps, k2)]
            == part_of(cfgs, deps, k2, c) by {
            if k2 < k {
                assert(m.contains_key(deployments_chain_id(deps, k2)));
            }
        }
        if repeats_at(cfgs, deps, k, c) {
            let k2 = choose|k2: int|
                0 <= k2 < k && contributes(cfgs, deps, k2, c) && #[trigger] deployments_chain_id(deps, k2)
                    == deployments_chain_id(deps, k);
            assert(m.contains_key(deployments_chain_id(deps, k2)));
        }
    } else {
        assert forall|x: u64| #[trigger]
            m2.contains_key(x) <==> exists|k2: int|
                0 <= k2 < k + 1 && contributes(cfgs, deps, k2, c) && deployments_chain_id(deps, k2) == x by {
            if exists|k2: int|
                0 <= k2 < k + 1 && contributes(cfgs, deps, k2, c) && deployments_chain_id(deps, k2) == x {
                let k2 = choose|k2: int|
                    0 <= k2 < k + 1 && contributes(cfgs, deps, k2, c) && deployments_chain_id(deps, k2) == x;
                assert(k2 < k);
            }
        }
    }
}

/// Some chain of `m` holds a contract named `n`.
pub open spec fn found_in(m: Map<u64, Map<Seq<char>, Seq<char>>>, n: Seq<char>) -> bool {
    exists|cid: u64| m.contains_key(cid) && #[trigger] m[cid].contains_key(n)
}

pub open spec fn not_found_in(m: Map<u64, Map<Seq<char>, Seq<char>>>) -> spec_fn(Seq<char>) -> bool {
    |n: Seq<char>| !found_in(m, n)
}

/// The names that `cfg` lists and that no chain of `m` holds, in the config's order.
pub open spec fn missing(cfg: ProtocolConfigView, m: Map<u64, Map<Seq<char>, Seq<char>>>) -> Seq<
    Seq<char>,
> {
    cfg.contracts.filter(not_found_in(m))
}

pub open spec fn books_view(v: Seq<ChainDeployments>) -> Seq<Map<u64, Map<Seq<char>, Seq<char>>>> {
    v.map_values(|d: ChainDeployments| d@)
}

/// Every protocol finds each name it lists on some chain.
pub open spec fn is_complete(
    cfgs: Seq<ProtocolConfigView>,
    ms: Seq<Map<u64, Map<Seq<char>, Seq<char>>>>,
) -> bool {
    forall|c: int| 0 <= c < cfgs.len() ==> #[trigger] missing(cfgs[c], ms[c]).len() == 0
}

/// `e` names the first protocol with missing contracts, and all of its missing names.
pub open spec fn is_missing_error(
    cfgs: Seq<ProtocolConfigView>,
    ms: Seq<Map<u64, Map<Seq<char>, Seq<char>>>>,
    e: ParseError,
) -> bool {
    exists|c: int|
        0 <= c < cfgs.len() && missing(cfgs[c], ms[c]).len() > 0 && (forall|c2: int|
            0 <= c2 < c ==> #[trigger] missing(cfgs[c2], ms[c2]).len() == 0) && (e matches ParseError::MissingContracts {
            protocol_name,
            contracts,
        } && protocol_name@ == cfgs[c].protocol_name && strings_view(contracts@) == missing(
            cfgs[c],
            ms[c],
        ))
}

fn is_found(chains: &ChainDeployments, name: &String) -> (r: bool)
    ensures
        r == found_in(chains@, name@),
{
    let entries = chains.entries();
    let mut i: usize = 0;
    while i < entries.len()
        invariant
            0 <= i <= entries@.len(),
            forall|k: u64| #[trigger]
                chains@.contains_key(k) <==> exists|j: int| 0 <= j < entries@.len() && entries@[j].0 == k,
            forall|j: int| 0 <= j < entries@.len() ==> #[trigger] chains@[entries@[j].0] == entries@[j].1@,
            forall|j: int| 0 <= j < i ==> !(#[trigger] entries@[j].1@).contains_key(name@),
        decreases entries@.len() - i,
    {
        if entries[i].1.contains_key(name.as_str()) {
            assert(chains@[entries@[i as int].0] == entries@[i as int].1@);
            assert(chains@.contains_key(entries@[i as int].0));
            return true;
        }
        i = i + 1;
    }
    proof {
        if found_in(chains@, name@) {
            let cid = choose|cid: u64| chains@.contains_key(cid) && #[trigger] chains@[cid].contains_key(name@);
            let j = choose|j: int| 0 <= j < entries@.len() && entries@[j].0 == cid;
            assert(chains@[entries@[j].0] == entries@[j].1@);
        }
    }
    false
}

/// Checks, protocol by protocol, that each contract name a protocol lists is held by
/// some chain of its address book; reports the first protocol that misses any, with all
/// the names it misses.
pub fn try_to_find_missing_contracts(
    configs: &Vec<ProtocolConfig>,
    protocol_chains: &Vec<ChainDeployments>,
) -> (r: Result<(), ParseError>)
    requires
        protocol_chains@.len() == configs@.len(),
    ensures
        r is Ok <==> is_complete(configs_view(configs@), books_view(protocol_chains@)),
        r matches Err(e) ==> is_missing_error(
            configs_view(configs@),
            books_view(protocol_chains@),
            e,
        ),
{
    let ghost cfgs = configs_view(configs@);
    let ghost ms = books_view(protocol_chains@);
    let mut c: usize = 0;
    while c < configs.len()
        invariant
            cfgs == configs_view(configs@),
            ms == books_view(protocol_chains@),
            protocol_chains@.len() == configs@.len(),
            0 <= c <= configs@.len(),
            forall|c2: int| 0 <= c2 < c ==> #[trigger] missing(cfgs[c2], ms[c2]).len() == 0,
        decreases configs@.len() - c,
    {
        let names = &configs[c].contracts;
        let chains = &protocol_chains[c];
        assert(ms[c as int] == chains@);
        assert(cfgs[c as int].contracts == names@.map_values(|s: String| s@));
        let mut absent: Vec<String> = Vec::new();
        let mut i: usize = 0;
        while i < names.len()
            invariant
                0 <= i <= names@.len(),
                strings_view(absent@) == strings_view(names@).take(i as int).filter(
                    not_found_in(chains@),
                ),
            decreases names@.len() - i,
        {
            proof {
                assert(strings_view(names@).take(i + 1) =~= strings_view(names@).take(i as int).push(names@[i as int]@));
                strings_view(names@).take(i as int).lemma_filter_push(names@[i as int]@, not_found_in(chains@));
            }
            let ghost before = absent@;
            if !is_found(chains, &names[i]) {
                absent.push(names[i].clone());
                assert(strings_view(absent@) =~= strings_view(before).push(names@[i as int]@));
            }
            i = i + 1;
        }
        assert(strings_view(names@).take(i as int) =~= strings_view(names@));
        assert(strings_view(names@) == cfgs[c as int].contracts);
        if absent.len() > 0 {
            let e = ParseError::MissingContracts {
                protocol_name: configs[c].protocol_name.clone(),
                contracts: absent,
            };
            assert(missing(cfgs[c as int], ms[c as int]).len() > 0);
            assert(is_missing_error(cfgs, ms, e));
            return Err(e);
        }
        c = c + 1;
    }
    Ok(())
}

/// One empty address book per protocol.
pub fn init_protocol_chains(configs: &Vec<ProtocolConfig>) -> (r: Vec<ChainDeployments>)
    ensures
        r@.len() == configs@.len(),
        forall|c: int| 0 <= c < r@.len() ==> (#[trigger] r@[c])@ == Map::<u64, Map<Seq<char>, Seq<char>>>::empty(),
{
    let mut r: Vec<ChainDeployments> = Vec::new();
    let mut c: usize = 0;
    while c < configs.len()
        invariant
            0 <= c <= configs@.len(),
            r@.len() == c,
            forall|c2: int| 0 <= c2 < c ==> (#[trigger] r@[c2])@ == Map::<u64, Map<Seq<char>, Seq<char>>>::empty(),
        decreases configs@.len() - c,
    {
        r.push(ChainDeployments::new());
        c = c + 1;
    }
    r
}

pub open spec fn has_chains() -> spec_fn((Seq<char>, Map<u64, Map<Seq<char>, Seq<char>>>)) -> bool {
    |p: (Seq<char>, Map<u64, Map<Seq<char>, Seq<char>>>)| p.1.dom() != Set::<u64>::empty()
}

/// Each protocol's name with its address book, in config order, leaving out the
/// protocols found on no chain.
pub open spec fn responses(
    cfgs: Seq<ProtocolConfigView>,
    ms: Seq<Map<u64, Map<Seq<char>, Seq<char>>>>,
) -> Seq<(Seq<char>, Map<u64, Map<Seq<char>, Seq<char>>>)> {
    Seq::new(cfgs.len(), |c: int| (cfgs[c].protocol_name, ms[c])).filter(has_chains())
}

pub open spec fn protocols_view(v: Seq<ProtocolDeployments>) -> Seq<
    (Seq<char>, Map<u64, Map<Seq<char>, Seq<char>>>),
> {
    v.map_values(|p: ProtocolDeployments| (p.protocol_name@, p.chains@))
}

/// The address books of the protocols found on some chain, in config order.
pub fn build_response(configs: &Vec<ProtocolConfig>, protocol_chains: Vec<ChainDeployments>) -> (r:
    Vec<ProtocolDeployments>)
    requires
        protocol_chains@.len() == configs@.len(),
    ensures
        protocols_view(r@) == responses(configs_view(configs@), books_view(protocol_chains@)),
{
    let ghost cfgs = configs_view(configs@);
    let ghost ms = books_view(protocol_chains@);
    let ghost whole = Seq::new(cfgs.len(), |c: int| (cfgs[c].protocol_name, ms[c]));
    let mut rest = protocol_chains;
    let mut r: Vec<ProtocolDeployments> = Vec::new();
    let mut c: usize = 0;
    while c < configs.len()
        invariant
            cfgs == configs_view(configs@),
            ms.len() == cfgs.len(),
            whole == Seq::new(cfgs.len(), |c: int| (cfgs[c].protocol_name, ms[c])),
            0 <= c <= configs@.len(),
            books_view(rest@) == ms.skip(c as int),
            rest@.len() == configs@.len() - c,
            cfgs.len() == configs@.len(),
            protocols_view(r@) == whole.take(c as int).filter(has_chains()),
        decreases configs@.len() - c,
    {
        proof {
            assert(whole.take(c + 1) =~= whole.take(c as int).push(whole[c as int]));
            whole.take(c as int).lemma_filter_push(whole[c as int], has_chains());
        }
        let ghost before_rest = rest@;
        let chains = rest.remove(0);
        assert(books_view(rest@) =~= ms.skip(c + 1)) by {
            assert(rest@ =~= before_rest.subrange(1, before_rest.len() as int));
            assert forall|x: int| 0 <= x < rest@.len() implies books_view(rest@)[x] == ms.skip(
                c + 1,
            )[x] by {
                assert(rest@[x] == before_rest[x + 1]);
                assert(books_view(before_rest)[x + 1] == ms.skip(c as int)[x + 1]);
            }
        }
        assert(chains@ == ms[c as int]) by {
            assert(books_view(before_rest)[0] == before_rest[0]@);
        }
        let ghost before = r@;
        if !chains.is_empty() {
            r.push(ProtocolDeployments { protocol_name: configs[c].protocol_name.clone(), chains });
            assert(protocols_view(r@) =~= protocols_view(before).push(whole[c as int]));
        }
        c = c + 1;
    }
    assert(whole.take(c as int) =~= whole);
    r
}

/// What resolving the chain files `deps` under the configs `cfgs` yields: configs that
/// share a name fail before anything else; then the first chain file with an unreadable
/// or repeated chain id fails; then the first protocol missing a name it lists fails;
/// otherwise the address books of the protocols found on some chain, in config order.
pub open spec fn parse_outcome(
    cfgs: Seq<ProtocolConfigView>,
    deps: Seq<UniswapDeployment>,
    r: Result<Vec<ProtocolDeployments>, ParseError>,
) -> bool {
    if !is_exclusive(cfgs) {
        r matches Err(e) && is_duplicate_error(cfgs, e)
    } else if exists|k: int| 0 <= k < deps.len() && #[trigger] chain_fails_at(cfgs, deps, k) {
        r matches Err(e) && exists|k: int|
            0 <= k < deps.len() && chain_fails_at(cfgs, deps, k) && (forall|k2: int|
                0 <= k2 < k ==> !#[trigger] chain_fails_at(cfgs, deps, k2)) && is_chain_error_at(
                cfgs,
                deps,
                k,
                e,
            )
    } else {
        exists|ms: Seq<Map<u64, Map<Seq<char>, Seq<char>>>>|
            ms.len() == cfgs.len() && (forall|c: int|
                0 <= c < cfgs.len() ==> aggregated_upto(cfgs, deps, deps.len() as int, c, #[trigger] ms[c]))
                && if is_complete(cfgs, ms) {
                r matches Ok(v) && protocols_view(v@) == responses(cfgs, ms)
            } else {
                r matches Err(e) && is_missing_error(cfgs, ms, e)
            }
    }
}

/// Two configs that list the same contract name: resolution fails with the duplicate
/// contracts error whatever the chain files hold, before any of them is looked at.
pub proof fn lemma_shared_name_fails_first(
    cfgs: Seq<ProtocolConfigView>,
    deps: Seq<UniswapDeployment>,
    r: Result<Vec<ProtocolDeployments>, ParseError>,
    c1: int,
    c2: int,
    n: Seq<char>,
)
    requires
        0 <= c1 < c2 < cfgs.len(),
        claims(cfgs[c1], n),
        claims(cfgs[c2], n),
        parse_outcome(cfgs, deps, r),
    ensures
        r matches Err(e) && is_duplicate_error(cfgs, e),
{
    assert(!is_exclusive(cfgs));
}

proof fn lemma_filter_single<A>(s: Seq<A>, p: spec_fn(A) -> bool, n: A)
    requires
        s.no_duplicates(),
        s.contains(n),
        p(n),
        forall|x: A| #[trigger] p(x) ==> x == n,
    ensures
        s.filter(p) == seq![n],
    decreases s.len(),
{
    broadcast use vstd::seq_lib::group_filter_ensures;

    let init = s.drop_last();
    assert(init.push(s.last()) =~= s);
    init.lemma_filter_push(s.last(), p);
    if s.last() == n {
        assert(!init.contains(n)) by {
            if init.contains(n) {
                let i = choose|i: int| 0 <= i < init.len() && init[i] == n;
                assert(s[i] == s[s.len() - 1]);
            }
        }
        if init.filter(p).len() > 0 {
            let y = init.filter(p)[0];
            assert(init.filter(p).contains(y));
            init.lemma_filter_contains_rev(p, y);
            assert(p(y));
        }
        assert(init.filter(p).push(n) =~= seq![n]);
    } else {
        let i = choose|i: int| 0 <= i < s.len() && s[i] == n;
        assert(init[i] == n);
        assert(init.no_duplicates()) by {
            assert forall|a: int, b: int| 0 <= a < init.len() && 0 <= b < init.len() && a != b implies init[a] != init[b] by {
                assert(init[a] == s[a] && init[b] == s[b]);
            }
        }
        lemma_filter_single(init, p, n);
    }
}

/// The only listed name that no chain of its protocol holds is `n`, listed once by
/// protocol `c`: the completeness check fails, and its error names protocol `c` and the
/// single contract `n`.
pub proof fn lemma_single_missing_name(
    cfgs: Seq<ProtocolConfigView>,
    ms: Seq<Map<u64, Map<Seq<char>, Seq<char>>>>,
    c: int,
    n: Seq<char>,
)
    requires
        ms.len() == cfgs.len(),
        is_exclusive(cfgs),
        0 <= c < cfgs.len(),
        claims(cfgs[c], n),
        cfgs[c].contracts.no_duplicates(),
        !found_in(ms[c], n),
        forall|c2: int, n2: Seq<char>|
            0 <= c2 < cfgs.len() && #[trigger] claims(cfgs[c2], n2) && n2 != n ==> found_in(
                ms[c2],
                n2,
            ),
    ensures
        !is_complete(cfgs, ms),
        forall|e: ParseError|
            #[trigger] is_missing_error(cfgs, ms, e) ==> (e matches ParseError::MissingContracts {
                protocol_name,
                contracts,
            } && protocol_name@ == cfgs[c].protocol_name && strings_view(contracts@) == seq![n]),
{
    broadcast use vstd::seq_lib::group_filter_ensures;

    assert forall|x: Seq<char>| #[trigger] not_found_in(ms[c])(x) && cfgs[c].contracts.contains(x) implies x == n by {
        if x != n {
            assert(claims(cfgs[c], x));
        }
    }
    assert(missing(cfgs[c], ms[c]) == seq![n]) by {
        // restricted to the names of the config, the predicate singles out `n`
        let p = |x: Seq<char>| not_found_in(ms[c])(x) && cfgs[c].contracts.contains(x);
        assert forall|x: Seq<char>| #[trigger] p(x) ==> x == n by {}
        lemma_filter_single(cfgs[c].contracts, p, n);
        assert(cfgs[c].contracts.filter(p) =~= cfgs[c].contracts.filter(not_found_in(ms[c]))) by {
            lemma_filter_same(cfgs[c].contracts, p, not_found_in(ms[c]));
        }
    }
    assert forall|c2: int| 0 <= c2 < cfgs.len() && c2 != c implies #[trigger] missing(cfgs[c2], ms[c2]).len() == 0 by {
        if missing(cfgs[c2], ms[c2]).len() > 0 {
            let x = missing(cfgs[c2], ms[c2])[0];
            assert(missing(cfgs[c2], ms[c2]).contains(x));
            cfgs[c2].contracts.lemma_filter_contains_rev(not_found_in(ms[c2]), x);
            assert(not_found_in(ms[c2])(x));
            assert(claims(cfgs[c2], x));
            if x == n {
                if c < c2 {
                    assert(claims(cfgs[c], n));
                } else {
                    assert(claims(cfgs[c2], n));
                }
            }
        }
    }
    assert(missing(cfgs[c], ms[c]).len() > 0);
    assert forall|e: ParseError| #[trigger] is_missing_error(cfgs, ms, e) implies (e matches ParseError::MissingContracts {
        protocol_name,
        contracts,
    } && protocol_name@ == cfgs[c].protocol_name && strings_view(contracts@) == seq![n]) by {
        let cf = choose|cf: int|
            0 <= cf < cfgs.len() && missing(cfgs[cf], ms[cf]).len() > 0 && (forall|c2: int|
                0 <= c2 < cf ==> #[trigger] missing(cfgs[c2], ms[c2]).len() == 0) && (e matches ParseError::MissingContracts {
                protocol_name,
                contracts,
            } && protocol_name@ == cfgs[cf].protocol_name && strings_view(contracts@) == missing(
                cfgs[cf],
                ms[cf],
            ));
        assert(cf == c);
    }
}

/// Two predicates that agree on the elements of `s` filter it alike.
proof fn lemma_filter_same<A>(s: Seq<A>, p: spec_fn(A) -> bool, q: spec_fn(A) -> bool)
    requires
        forall|i: int| 0 <= i < s.len() ==> (p(#[trigger] s[i]) <==> q(s[i])),
    ensures
        s.filter(p) == s.filter(q),
    decreases s.len(),
{
    if s.len() > 0 {
        let init = s.drop_last();
        assert(init.push(s.last()) =~= s);
        init.lemma_filter_push(s.last(), p);
        init.lemma_filter_push(s.last(), q);
        assert forall|i: int| 0 <= i < init.len() implies (p(#[trigger] init[i]) <==> q(init[i])) by {
            assert(init[i] == s[i]);
        }
        lemma_filter_same(init, p, q);
    } else {
        assert(s.filter(p) =~= s.filter(q)) by {
            reveal(Seq::filter);
        }
    }
}

/// A contract name that a protocol lists once and that no chain file holds, when every
/// other listed name is held by some chain file: resolution fails after aggregation with
/// the missing contracts error of that protocol, naming exactly that contract.
pub proof fn lemma_absent_name_reported(
    cfgs: Seq<ProtocolConfigView>,
    deps: Seq<UniswapDeployment>,
    r: Result<Vec<ProtocolDeployments>, ParseError>,
    c: int,
    n: Seq<char>,
)
    requires
        is_exclusive(cfgs),
        forall|k: int| 0 <= k < deps.len() ==> !#[trigger] chain_fails_at(cfgs, deps, k),
        0 <= c < cfgs.len(),
        claims(cfgs[c], n),
        cfgs[c].contracts.no_duplicates(),
        forall|k: int| 0 <= k < deps.len() ==> !(#[trigger] deps[k].latest@).contains_key(n),
        forall|c2: int, n2: Seq<char>|
            0 <= c2 < cfgs.len() && #[trigger] claims(cfgs[c2], n2) && n2 != n ==> exists|k: int|
                0 <= k < deps.len() && (#[trigger] deps[k].latest@).contains_key(n2),
        parse_outcome(cfgs, deps, r),
    ensures
        r matches Err(e) && (e matches ParseError::MissingContracts { protocol_name, contracts }
            && protocol_name@ == cfgs[c].protocol_name && strings_view(contracts@) == seq![n]),
{
    assert(!exists|k: int| 0 <= k < deps.len() && #[trigger] chain_fails_at(cfgs, deps, k));
    let ms = choose|ms: Seq<Map<u64, Map<Seq<char>, Seq<char>>>>|
        ms.len() == cfgs.len() && (forall|c: int|
            0 <= c < cfgs.len() ==> aggregated_upto(cfgs, deps, deps.len() as int, c, #[trigger] ms[c]))
            && if is_complete(cfgs, ms) {
            r matches Ok(v) && protocols_view(v@) == responses(cfgs, ms)
        } else {
            r matches Err(e) && is_missing_error(cfgs, ms, e)
        };
    // every listed name other than `n` is found in its protocol's book
    assert forall|c2: int, n2: Seq<char>|
        0 <= c2 < cfgs.len() && #[trigger] claims(cfgs[c2], n2) && n2 != n implies found_in(ms[c2], n2) by {
        let k = choose|k: int| 0 <= k < deps.len() && (#[trigger] deps[k].latest@).contains_key(n2);
        assert(owns(cfgs, c2, n2)) by {
            assert forall|c3: int| 0 <= c3 < c2 implies !#[trigger] claims(cfgs[c3], n2) by {
                if claims(cfgs[c3], n2) {
                    assert(claims(cfgs[c2], n2));
                }
            }
        }
        assert(part_of(cfgs, deps, k, c2).contains_key(n2));
        assert(part_of(cfgs, deps, k, c2).dom().contains(n2));
        assert(contributes(cfgs, deps, k, c2));
        assert(aggregated_upto(cfgs, deps, deps.len() as int, c2, ms[c2]));
        let cid = deployments_chain_id(deps, k);
        assert(ms[c2].contains_key(cid));
        assert(ms[c2][cid].contains_key(n2));
    }
    assert(!found_in(ms[c], n)) by {
        if found_in(ms[c], n) {
            let cid = choose|cid: u64| ms[c].contains_key(cid) && #[trigger] ms[c][cid].contains_key(n);
            assert(aggregated_upto(cfgs, deps, deps.len() as int, c, ms[c]));
            let k = choose|k: int|
                0 <= k < deps.len() && contributes(cfgs, deps, k, c) && deployments_chain_id(deps, k)
                    == cid;
            assert(ms[c][deployments_chain_id(deps, k)] == part_of(cfgs, deps, k, c));
            assert(deps[k].latest@.contains_key(n));
        }
    }
    lemma_single_missing_name(cfgs, ms, c, n);
    assert(is_missing_error(cfgs, ms, r->Err_0));
}

/// Two chain files with the same chain id that both hold contracts of protocol `c`, under
/// exclusive configs and readable chain ids: resolution fails at the second file with
/// the duplicate chain id error for that id.
pub proof fn lemma_repeated_chain_id_fails(
    cfgs: Seq<ProtocolConfigView>,
    deps: Seq<UniswapDeployment>,
    r: Result<Vec<ProtocolDeployments>, ParseError>,
    c: int,
)
    requires
        is_exclusive(cfgs),
        deps.len() == 2,
        is_u64_numeral(deps[0].chain_id@),
        is_u64_numeral(deps[1].chain_id@),
        deployments_chain_id(deps, 0) == deployments_chain_id(deps, 1),
        0 <= c < cfgs.len(),
        contributes(cfgs, deps, 0, c),
        contributes(cfgs, deps, 1, c),
        parse_outcome(cfgs, deps, r),
    ensures
        r matches Err(e) && (e matches ParseError::ChainIdAlreadyExists { chain_id, .. }
            && chain_id == deployments_chain_id(deps, 0)),
{
    assert(repeats_at(cfgs, deps, 1, c));
    assert(chain_fails_at(cfgs, deps, 1));
    assert(!chain_fails_at(cfgs, deps, 0));
    let e = r->Err_0;
    let k = choose|k: int|
        0 <= k < deps.len() && chain_fails_at(cfgs, deps, k) && (forall|k2: int|
            0 <= k2 < k ==> !#[trigger] chain_fails_at(cfgs, deps, k2)) && is_chain_error_at(
            cfgs,
            deps,
            k,
            e,
        );
    assert(k == 1);
}

/// Resolves the chain files `deployments` into one address book per protocol of
/// `configs`: each contract goes to the first protocol that lists its name, and is
/// dropped when none does.
pub fn parse_with_configs(
    configs: &Vec<ProtocolConfig>,
    deployments: &Vec<UniswapDeployment>,
) -> (r: Result<Vec<ProtocolDeployments>, ParseError>)
    ensures
        parse_outcome(configs_view(configs@), deployments@, r),
{
    let ghost cfgs = configs_view(configs@);
    let ghost deps = deployments@;
    match validate_protocol_configs_for_duplicate_definitions(configs) {
        Err(e) => return Err(e),
        Ok(()) => {},
    }
    let mut protocol_chains = init_protocol_chains(configs);
    let count = configs.len();
    let mut k: usize = 0;
    while k < deployments.len()
        invariant
            cfgs == configs_view(configs@),
            deps == deployments@,
            is_exclusive(cfgs),
            count == cfgs.len(),
            cfgs.len() == configs@.len(),
            protocol_chains@.len() == count,
            0 <= k <= deps.len(),
            forall|k2: int| 0 <= k2 < k ==> !#[trigger] chain_fails_at(cfgs, deps, k2),
            forall|c: int|
                0 <= c < count ==> aggregated_upto(cfgs, deps, k as int, c, (#[trigger] protocol_chains@[c])@),
        decreases deps.len() - k,
    {
        let deployment = &deployments[k];
        let chain_id = match parse_chain_id(deployment.chain_id.as_str()) {
            Ok(v) => v,
            Err(e) => {
                assert(chain_fails_at(cfgs, deps, k as int));
                assert(is_chain_error_at(cfgs, deps, k as int, e));
                return Err(e);
            },
        };
        assert(chain_id == deployments_chain_id(deps, k as int));
        let mut c: usize = 0;
        while c < count
            invariant
                cfgs == configs_view(configs@),
                deps == deployments@,
                count == cfgs.len(),
                cfgs.len() == configs@.len(),
                protocol_chains@.len() == count,
                0 <= k < deps.len(),
                deployment == deps[k as int],
                is_exclusive(cfgs),
                forall|k2: int| 0 <= k2 < k ==> !#[trigger] chain_fails_at(cfgs, deps, k2),
                is_u64_numeral(deps[k as int].chain_id@),
                chain_id == deployments_chain_id(deps, k as int),
                0 <= c <= count,
                forall|c2: int|
                    0 <= c2 < c ==> aggregated_upto(cfgs, deps, k + 1, c2, (#[trigger] protocol_chains@[c2])@),
                forall|c2: int| 0 <= c2 < c ==> !#[trigger] repeats_at(cfgs, deps, k as int, c2),
                forall|c2: int|
                    c <= c2 < count ==> aggregated_upto(cfgs, deps, k as int, c2, (#[trigger] protocol_chains@[c2])@),
            decreases count - c,
        {
            let part = contracts_of_protocol(configs, c, &deployment.latest);
            assert(part@ == part_of(cfgs, deps, k as int, c as int));
            let ghost before = protocol_chains@;
            let ghost m = before[c as int]@;
            assert(aggregated_upto(cfgs, deps, k as int, c as int, m));
            if part.is_empty() {
                proof {
                    lemma_chain_step(cfgs, deps, k as int, c as int, m, m);
                }
            } else {
                let mut chains = protocol_chains.remove(c);
                assert(chains@ == m);
                if chains.contains_key(&chain_id) {
                    proof {
                        let k2 = choose|k2: int|
                            0 <= k2 < k && contributes(cfgs, deps, k2, c as int)
                                && deployments_chain_id(deps, k2) == chain_id;
                        assert(repeats_at(cfgs, deps, k as int, c as int));
                        assert(chain_fails_at(cfgs, deps, k as int));
                    }
                    let e = ParseError::ChainIdAlreadyExists {
                        protocol_name: configs[c].protocol_name.clone(),
                        chain_id,
                    };
                    assert(is_chain_error_at(cfgs, deps, k as int, e));
                    return Err(e);
                }
                let ghost part_view = part@;
                chains.insert(chain_id, part);
                proof {
                    lemma_chain_step(cfgs, deps, k as int, c as int, m, chains@);
                }
                protocol_chains.insert(c, chains);
                assert(protocol_chains@ =~= before.update(c as int, chains));
            }
            c = c + 1;
        }
        proof {
            assert(!chain_fails_at(cfgs, deps, k as int));
        }
        k = k + 1;
    }
    let ghost ms = books_view(protocol_chains@);
    assert forall|c: int| 0 <= c < cfgs.len() implies aggregated_upto(
        cfgs,
        deps,
        deps.len() as int,
        c,
        #[trigger] ms[c],
    ) by {
        assert(ms[c] == protocol_chains@[c]@);
    }
    assert(!exists|k: int| 0 <= k < deps.len() && #[trigger] chain_fails_at(cfgs, deps, k));
    let r = match try_to_find_missing_contracts(configs, &protocol_chains) {
        Err(e) => Err(e),
        Ok(()) => Ok(build_response(configs, protocol_chains)),
    };
    assert(ms.len() == cfgs.len());
    assert(if is_complete(cfgs, ms) {
        r matches Ok(v) && protocols_view(v@) == responses(cfgs, ms)
    } else {
        r matches Err(e) && is_missing_error(cfgs, ms, e)
    });
    r
}

/// The protocols that the registry is resolved into, and the contracts of each.
pub open spec fn known_protocols() -> Seq<ProtocolConfigView> {
    seq![
        ProtocolConfigView {
            protocol_name: "uniswap-v2"@,
            contracts: seq![
                "UniswapV2Factory"@,
                "UniswapV2Router02"@,
            ],
        },
        ProtocolConfigView {
            protocol_name: "uniswap-v3"@,
            contracts: seq![
                "UniswapV3Factory"@,
                "SwapRouter"@,
                "SwapRouter02"@,
                "NonfungiblePositionManager"@,
                "NonfungibleTokenPositionDescriptor"@,
                "NFTDescriptor"@,
                "Quoter"@,
                "QuoterV2"@,
                "TickLens"@,
                "V3Migrator"@,
            ],
        },
        ProtocolConfigView {
            protocol_name: "uniswap-v4"@,
            contracts: seq![
                "PoolManager"@,
                "PositionManager"@,
                "StateView"@,
                "PositionDescriptor"@,
                "V4Quoter"@,
                "WETHHook"@,
                "WstETHHook"@,
                "WstETHRoutingHook"@,
            ],
        },
        ProtocolConfigView {
            protocol_name: "universal-router"@,
            contracts: seq![
                "UniversalRouter"@,
            ],
        },
        ProtocolConfigView {
            protocol_name: "permit2"@,
            contracts: seq![
                "Permit2"@,
            ],
        },
    ]
}

/// The protocol table: each protocol with the contract names that belong to it.
pub fn protocol_configs() -> (r: Vec<ProtocolConfig>)
    ensures
        configs_view(r@) == known_protocols(),
{
    let mut configs: Vec<ProtocolConfig> = Vec::new();
    let mut c0: Vec<String> = Vec::new();
    c0.push("UniswapV2Factory".to_string());
    c0.push("UniswapV2Router02".to_string());
    configs.push(ProtocolConfig { protocol_name: "uniswap-v2".to_string(), contracts: c0 });
    assert(configs@[0]@.contracts =~= known_protocols()[0].contracts);
    assert(configs@[0]@ == known_protocols()[0]);
    let mut c1: Vec<String> = Vec::new();
    c1.push("UniswapV3Factory".to_string());
    c1.push("SwapRouter".to_string());
    c1.push("SwapRouter02".to_string());
    c1.push("NonfungiblePositionManager".to_string());
    c1.push("NonfungibleTokenPositionDescriptor".to_string());
    c1.push("NFTDescriptor".to_string());
    c1.push("Quoter".to_string());
    c1.push("QuoterV2".to_string());
    c1.push("TickLens".to_string());
    c1.push("V3Migrator".to_string());
    configs.push(ProtocolConfig { protocol_name: "uniswap-v3".to_string(), contracts: c1 });
    assert(configs@[1]@.contracts =~= known_protocols()[1].contracts);
    assert(configs@[1]@ == known_protocols()[1]);
    let mut c2: Vec<String> = Vec::new();
    c2.push("PoolManager".to_string());
    c2.push("PositionManager".to_string());
    c2.push("StateView".to_string());
    c2.push("PositionDescriptor".to_string());
    c2.push("V4Quoter".to_string());
    c2.push("WETHHook".to_string());
    c2.push("WstETHHook".to_string());
    c2.push("WstETHRoutingHook".to_string());
    configs.push(ProtocolConfig { protocol_name: "uniswap-v4".to_string(), contracts: c2 });
    assert(configs@[2]@.contracts =~= known_protocols()[2].contracts);
    assert(configs@[2]@ == known_protocols()[2]);
    let mut c3: Vec<String> = Vec::new();
    c3.push("UniversalRouter".to_string());
    configs.push(ProtocolConfig { protocol_name: "universal-router".to_string(), contracts: c3 });
    assert(configs@[3]@.contracts =~= known_protocols()[3].contracts);
    assert(configs@[3]@ == known_protocols()[3]);
    let mut c4: Vec<String> = Vec::new();
    c4.push("Permit2".to_string());
    configs.push(ProtocolConfig { protocol_name: "permit2".to_string(), contracts: c4 });
    assert(configs@[4]@.contracts =~= known_protocols()[4].contracts);
    assert(configs@[4]@ == known_protocols()[4]);
    assert(configs_view(configs@) =~= known_protocols());
    configs
}

/// Checks the protocol table for contract names that two protocols list.
pub fn validate_protocol_table() -> (r: Result<(), ParseError>)
    ensures
        r is Ok <==> is_exclusive(known_protocols()),
        r matches Err(e) ==> is_duplicate_error(known_protocols(), e),
{
    let configs = protocol_configs();
    validate_protocol_configs_for_duplicate_definitions(&configs)
}

/// Resolves the chain files into the address books of the protocol table.
pub fn parse(deployments: &Vec<UniswapDeployment>) -> (r: Result<
    Vec<ProtocolDeployments>,
    ParseError,
>)
    ensures
        parse_outcome(known_protocols(), deployments@, r),
{
    let configs = protocol_configs();
    parse_with_configs(&configs, deployments)
}

} // verus!
