//! The resolved address book: per chain, contract name to address; per protocol, chain
//! id to the contracts of that chain.
use vstd::prelude::*;

verus! {

pub type ChainId = u64;

pub type ContractName = String;

pub type ContractAddress = String;

/// The map that an association list with distinct keys stands for.
pub open spec fn map_of<K, V>(entries: Seq<(K, V)>) -> Map<K, V>
    decreases entries.len(),
{
    if entries.len() == 0 {
        Map::empty()
    } else {
        map_of(entries.drop_last()).insert(entries.last().0, entries.last().1)
    }
}

pub open spec fn keys_distinct<K, V>(entries: Seq<(K, V)>) -> bool {
    forall|i: int, j: int| 0 <= i < j < entries.len() ==> entries[i].0 != entries[j].0
}

pub proof fn lemma_map_of<K, V>(entries: Seq<(K, V)>)
    requires
        keys_distinct(entries),
    ensures
        map_of(entries).dom().finite(),
        map_of(entries).len() == entries.len(),
        forall|k: K| #[trigger]
            map_of(entries).contains_key(k) <==> exists|i: int|
                0 <= i < entries.len() && entries[i].0 == k,
        forall|i: int|
            0 <= i < entries.len() ==> #[trigger] map_of(entries)[entries[i].0] == entries[i].1,
    decreases entries.len(),
{
    if entries.len() > 0 {
        let init = entries.drop_last();
        lemma_map_of(init);
        assert forall|i: int| 0 <= i < init.len() implies init[i].0 != entries.last().0 by {
            assert(init[i] == entries[i]);
        }
        assert(!map_of(init).contains_key(entries.last().0));
        assert forall|k: K| #[trigger]
            map_of(entries).contains_key(k) <==> exists|i: int|
                0 <= i < entries.len() && entries[i].0 == k by {
            if map_of(entries).contains_key(k) && k != entries.last().0 {
                let i = choose|i: int| 0 <= i < init.len() && init[i].0 == k;
                assert(entries[i] == init[i]);
            }
            if exists|i: int| 0 <= i < entries.len() && entries[i].0 == k {
                let i = choose|i: int| 0 <= i < entries.len() && entries[i].0 == k;
                if i < init.len() {
                    assert(init[i] == entries[i]);
                }
            }
        }
        assert forall|i: int| 0 <= i < entries.len() implies #[trigger] map_of(
            entries,
        )[entries[i].0] == entries[i].1 by {
            if i < init.len() {
                assert(init[i] == entries[i]);
            }
        }
    }
}

/// Contract name to address, for one chain: names are unique.
pub struct ChainContracts {
    entries: Vec<(String, String)>,
}

pub open spec fn contract_entries_view(entries: Seq<(String, String)>) -> Seq<
    (Seq<char>, Seq<char>),
> {
    entries.map_values(|e: (String, String)| (e.0@, e.1@))
}

impl View for ChainContracts {
    type V = Map<Seq<char>, Seq<char>>;

    closed spec fn view(&self) -> Map<Seq<char>, Seq<char>> {
        map_of(contract_entries_view(self.entries@))
    }
}

impl ChainContracts {
    #[verifier::type_invariant]
    closed spec fn inv(&self) -> bool {
        keys_distinct(contract_entries_view(self.entries@))
    }

    pub fn new() -> (r: ChainContracts)
        ensures
            r@ == Map::<Seq<char>, Seq<char>>::empty(),
    {
        let r = ChainContracts { entries: Vec::new() };
        assert(contract_entries_view(r.entries@) =~= Seq::empty());
        r
    }

    /// Index of the entry named `name`, if there is one.
    fn position(&self, name: &String) -> (r: Option<usize>)
        ensures
            match r {
                Some(i) => i < self.entries@.len() && self.entries@[i as int].0@ == name@,
                None => forall|i: int|
                    0 <= i < self.entries@.len() ==> self.entries@[i].0@ != name@,
            },
    {
        let mut i: usize = 0;
        while i < self.entries.len()
            invariant
                0 <= i <= self.entries@.len(),
                forall|k: int| 0 <= k < i ==> self.entries@[k].0@ != name@,
            decreases self.entries@.len() - i,
        {
            if self.entries[i].0 == *name {
                return Some(i);
            }
            i = i + 1;
        }
        None
    }

    proof fn lemma_view(&self)
        requires
            keys_distinct(contract_entries_view(self.entries@)),
        ensures
            self@.dom().finite(),
            self@.len() == self.entries@.len(),
            forall|k: Seq<char>| #[trigger]
                self@.contains_key(k) <==> exists|i: int|
                    0 <= i < self.entries@.len() && self.entries@[i].0@ == k,
            forall|i: int|
                0 <= i < self.entries@.len() ==> #[trigger] self@[self.entries@[i].0@]
                    == self.entries@[i].1@,
    {
        let ev = contract_entries_view(self.entries@);
        lemma_map_of(ev);
        assert forall|k: Seq<char>| #[trigger]
            self@.contains_key(k) <==> exists|i: int|
                0 <= i < self.entries@.len() && self.entries@[i].0@ == k by {
            if self@.contains_key(k) {
                let i = choose|i: int| 0 <= i < ev.len() && ev[i].0 == k;
                assert(ev[i].0 == self.entries@[i].0@);
            }
            if exists|i: int| 0 <= i < self.entries@.len() && self.entries@[i].0@ == k {
                let i = choose|i: int| 0 <= i < self.entries@.len() && self.entries@[i].0@ == k;
                assert(ev[i].0 == self.entries@[i].0@);
            }
        }
        assert forall|i: int| 0 <= i < self.entries@.len() implies #[trigger] self@[self.entries@[
            i
        ].0@] == self.entries@[i].1@ by {
            assert(ev[i] == (self.entries@[i].0@, self.entries@[i].1@));
        }
    }

    pub fn len(&self) -> (r: usize)
        ensures
            r == self@.len(),
    {
        proof {
            use_type_invariant(self);
            self.lemma_view();
        }
        self.entries.len()
    }

    pub fn is_empty(&self) -> (r: bool)
        ensures
            r <==> self@.dom() =~= Set::<Seq<char>>::empty(),
    {
        proof {
            use_type_invariant(self);
            self.lemma_view();
            if self.entries@.len() > 0 {
                assert(self@.contains_key(self.entries@[0].0@));
            }
        }
        self.entries.len() == 0
    }

    pub fn contains_key(&self, name: &str) -> (r: bool)
        ensures
            r == self@.contains_key(name@),
    {
        proof {
            use_type_invariant(self);
            self.lemma_view();
        }
        let key = name.to_string();
        self.position(&key).is_some()
    }

    pub fn get(&self, name: &str) -> (r: Option<&String>)
        ensures
            match r {
                Some(a) => self@.contains_key(name@) && a@ == self@[name@],
                None => !self@.contains_key(name@),
            },
    {
        proof {
            use_type_invariant(self);
            self.lemma_view();
        }
        let key = name.to_string();
        match self.position(&key) {
            Some(i) => Some(&self.entries[i].1),
            None => None,
        }
    }

    /// Sets the address of `name`, replacing any earlier one.
    pub fn insert(&mut self, name: String, address: String)
        ensures
            final(self)@ == old(self)@.insert(name@, address@),
    {
        proof {
            use_type_invariant(&*self);
            self.lemma_view();
        }
        let ghost old_view = self@;
        let ghost old_entries = self.entries@;
        let ghost name_view = name@;
        let ghost address_view = address@;
        proof {
            let ev = contract_entries_view(old_entries);
            assert forall|a: int, b: int| 0 <= a < b < old_entries.len() implies old_entries[a].0@
                != old_entries[b].0@ by {
                assert(ev[a].0 == old_entries[a].0@);
                assert(ev[b].0 == old_entries[b].0@);
            }
        }
        let found = self.position(&name);
        let mut taken = ChainContracts::new();
        std::mem::swap(self, &mut taken);
        let ChainContracts { mut entries } = taken;
        match found {
            Some(i) => {
                entries.set(i, (name, address));
            },
            None => {
                entries.push((name, address));
            },
        }
        let ghost ev = contract_entries_view(entries@);
        assert(keys_distinct(ev)) by {
            assert forall|a: int, b: int| 0 <= a < b < ev.len() implies ev[a].0 != ev[b].0 by {
                assert(ev[a].0 == entries@[a].0@);
                assert(ev[b].0 == entries@[b].0@);
                if a < old_entries.len() && b < old_entries.len() {
                    if found != Some(a as usize) && found != Some(b as usize) {
                        assert(entries@[a] == old_entries[a]);
                        assert(entries@[b] == old_entries[b]);
                    }
                }
            }
        }
        let updated = ChainContracts { entries };
        proof {
            updated.lemma_view();
            assert forall|k: Seq<char>| #[trigger]
                updated@.contains_key(k) == old_view.insert(name_view, address_view).contains_key(
                    k,
                ) by {
                if old_view.contains_key(k) && k != name_view {
                    let i = choose|i: int| 0 <= i < old_entries.len() && old_entries[i].0@ == k;
                    assert(entries@[i] == old_entries[i]);
                }
                if updated@.contains_key(k) && k != name_view {
                    let i = choose|i: int| 0 <= i < entries@.len() && entries@[i].0@ == k;
                    assert(entries@[i] == old_entries[i]);
                }
                match found {
                    Some(i) => assert(entries@[i as int].0@ == name_view),
                    None => assert(entries@[old_entries.len() as int].0@ == name_view),
                }
            }
            assert forall|k: Seq<char>| #[trigger] updated@.contains_key(k) implies updated@[k]
                == old_view.insert(name_view, address_view)[k] by {
                let i = choose|i: int| 0 <= i < entries@.len() && entries@[i].0@ == k;
                assert(updated@[entries@[i].0@] == entries@[i].1@);
                if k != name_view {
                    assert(entries@[i] == old_entries[i]);
                    assert(old_view[old_entries[i].0@] == old_entries[i].1@);
                }
            }
            assert(updated@ =~= old_view.insert(name_view, address_view));
        }
        *self = updated;
    }

    /// The entries, one per contract name.
    pub fn entries(&self) -> (r: &Vec<(String, String)>)
        ensures
            r@.len() == self@.len(),
            forall|i: int, j: int| 0 <= i < j < r@.len() ==> r@[i].0@ != r@[j].0@,
            forall|k: Seq<char>| #[trigger]
                self@.contains_key(k) <==> exists|i: int| 0 <= i < r@.len() && r@[i].0@ == k,
            forall|i: int| 0 <= i < r@.len() ==> #[trigger] self@[r@[i].0@] == r@[i].1@,
    {
        proof {
            use_type_invariant(self);
            self.lemma_view();
            let ev = contract_entries_view(self.entries@);
            assert forall|i: int, j: int| 0 <= i < j < self.entries@.len() implies self.entries@[
                i
            ].0@ != self.entries@[j].0@ by {
                assert(ev[i].0 == self.entries@[i].0@);
                assert(ev[j].0 == self.entries@[j].0@);
            }
        }
        &self.entries
    }
}

/// Chain id to the resolved contracts of that chain: chain ids are unique.
pub struct ChainDeployments {
    entries: Vec<(u64, ChainContracts)>,
}

pub open spec fn chain_entries_view(entries: Seq<(u64, ChainContracts)>) -> Seq<(u64, Map<Seq<char>, Seq<char>>)> {
    entries.map_values(|e: (u64, ChainContracts)| (e.0, e.1@))
}

impl View for ChainDeployments {
    type V = Map<u64, Map<Seq<char>, Seq<char>>>;

    closed spec fn view(&self) -> Map<u64, Map<Seq<char>, Seq<char>>> {
        map_of(chain_entries_view(self.entries@))
    }
}

impl ChainDeployments {
    #[verifier::type_invariant]
    closed spec fn inv(&self) -> bool {
        keys_distinct(chain_entries_view(self.entries@))
    }

    pub fn new() -> (r: ChainDeployments)
        ensures
            r@ == Map::<u64, Map<Seq<char>, Seq<char>>>::empty(),
    {
        let r = ChainDeployments { entries: Vec::new() };
        assert(chain_entries_view(r.entries@) =~= Seq::empty());
        r
    }

    /// Index of the entry for `chain_id`, if there is one.
    fn position(&self, chain_id: u64) -> (r: Option<usize>)
        ensures
            match r {
                Some(i) => i < self.entries@.len() && self.entries@[i as int].0 == chain_id,
                None => forall|i: int|
                    0 <= i < self.entries@.len() ==> self.entries@[i].0 != chain_id,
            },
    {
        let mut i: usize = 0;
        while i < self.entries.len()
            invariant
                0 <= i <= self.entries@.len(),
                forall|k: int| 0 <= k < i ==> self.entries@[k].0 != chain_id,
            decreases self.entries@.len() - i,
        {
            if self.entries[i].0 == chain_id {
                return Some(i);
            }
            i = i + 1;
        }
        None
    }

    proof fn lemma_view(&self)
        requires
            keys_distinct(chain_entries_view(self.entries@)),
        ensures
            self@.dom().finite(),
            self@.len() == self.entries@.len(),
            forall|k: u64| #[trigger]
                self@.contains_key(k) <==> exists|i: int|
                    0 <= i < self.entries@.len() && self.entries@[i].0 == k,
            forall|i: int|
                0 <= i < self.entries@.len() ==> #[trigger] self@[self.entries@[i].0]
                    == self.entries@[i].1@,
    {
        let ev = chain_entries_view(self.entries@);
        lemma_map_of(ev);
        assert forall|k: u64| #[trigger]
            self@.contains_key(k) <==> exists|i: int|
                0 <= i < self.entries@.len() && self.entries@[i].0 == k by {
            if self@.contains_key(k) {
                let i = choose|i: int| 0 <= i < ev.len() && ev[i].0 == k;
                assert(ev[i].0 == self.entries@[i].0);
            }
            if exists|i: int| 0 <= i < self.entries@.len() && self.entries@[i].0 == k {
                let i = choose|i: int| 0 <= i < self.entries@.len() && self.entries@[i].0 == k;
                assert(ev[i].0 == self.entries@[i].0);
            }
        }
        assert forall|i: int| 0 <= i < self.entries@.len() implies #[trigger] self@[self.entries@[
            i
        ].0] == self.entries@[i].1@ by {
            assert(ev[i] == (self.entries@[i].0, self.entries@[i].1@));
        }
    }

    pub fn len(&self) -> (r: usize)
        ensures
            r == self@.len(),
    {
        proof {
            use_type_invariant(self);
            self.lemma_view();
        }
        self.entries.len()
    }

    pub fn is_empty(&self) -> (r: bool)
        ensures
            r <==> self@.dom() =~= Set::<u64>::empty(),
    {
        proof {
            use_type_invariant(self);
            self.lemma_view();
            if self.entries@.len() > 0 {
                assert(self@.contains_key(self.entries@[0].0));
            }
        }
        self.entries.len() == 0
    }

    pub fn contains_key(&self, chain_id: &u64) -> (r: bool)
        ensures
            r == self@.contains_key(*chain_id),
    {
        proof {
            use_type_invariant(self);
            self.lemma_view();
        }
        self.position(*chain_id).is_some()
    }

    pub fn get(&self, chain_id: &u64) -> (r: Option<&ChainContracts>)
        ensures
            match r {
                Some(c) => self@.contains_key(*chain_id) && c@ == self@[*chain_id],
                None => !self@.contains_key(*chain_id),
            },
    {
        proof {
            use_type_invariant(self);
            self.lemma_view();
        }
        match self.position(*chain_id) {
            Some(i) => Some(&self.entries[i].1),
            None => None,
        }
    }

    /// Sets the contracts of `chain_id`, replacing any earlier ones.
    pub fn insert(&mut self, chain_id: u64, contracts: ChainContracts)
        ensures
            final(self)@ == old(self)@.insert(chain_id, contracts@),
    {
        proof {
            use_type_invariant(&*self);
            self.lemma_view();
        }
        let ghost old_view = self@;
        let ghost old_entries = self.entries@;
        let ghost name_view = chain_id;
        let ghost address_view = contracts@;
        proof {
            let ev = chain_entries_view(old_entries);
            assert forall|a: int, b: int| 0 <= a < b < old_entries.len() implies old_entries[a].0
                != old_entries[b].0 by {
                assert(ev[a].0 == old_entries[a].0);
                assert(ev[b].0 == old_entries[b].0);
            }
        }
        let found = self.position(chain_id);
        let mut taken = ChainDeployments::new();
        std::mem::swap(self, &mut taken);
        let ChainDeployments { mut entries } = taken;
        match found {
            Some(i) => {
                entries.set(i, (chain_id, contracts));
            },
            None => {
                entries.push((chain_id, contracts));
            },
        }
        let ghost ev = chain_entries_view(entries@);
        assert(keys_distinct(ev)) by {
            assert forall|a: int, b: int| 0 <= a < b < ev.len() implies ev[a].0 != ev[b].0 by {
                assert(ev[a].0 == entries@[a].0);
                assert(ev[b].0 == entries@[b].0);
                if a < old_entries.len() && b < old_entries.len() {
                    if found != Some(a as usize) && found != Some(b as usize) {
                        assert(entries@[a] == old_entries[a]);
                        assert(entries@[b] == old_entries[b]);
                    }
                }
            }
        }
        let updated = ChainDeployments { entries };
        proof {
            updated.lemma_view();
            assert forall|k: u64| #[trigger]
                updated@.contains_key(k) == old_view.insert(name_view, address_view).contains_key(
                    k,
                ) by {
                if old_view.contains_key(k) && k != name_view {
                    let i = choose|i: int| 0 <= i < old_entries.len() && old_entries[i].0 == k;
                    assert(entries@[i] == old_entries[i]);
                }
                if updated@.contains_key(k) && k != name_view {
                    let i = choose|i: int| 0 <= i < entries@.len() && entries@[i].0 == k;
                    assert(entries@[i] == old_entries[i]);
                }
                match found {
                    Some(i) => assert(entries@[i as int].0 == name_view),
                    None => assert(entries@[old_entries.len() as int].0 == name_view),
                }
            }
            assert forall|k: u64| #[trigger] updated@.contains_key(k) implies updated@[k]
                == old_view.insert(name_view, address_view)[k] by {
                let i = choose|i: int| 0 <= i < entries@.len() && entries@[i].0 == k;
                assert(updated@[entries@[i].0] == entries@[i].1@);
                if k != name_view {
                    assert(entries@[i] == old_entries[i]);
                    assert(old_view[old_entries[i].0] == old_entries[i].1@);
                }
            }
            assert(updated@ =~= old_view.insert(name_view, address_view));
        }
        *self = updated;
    }

    /// The entries, one per chain id.
    pub fn entries(&self) -> (r: &Vec<(u64, ChainContracts)>)
        ensures
            r@.len() == self@.len(),
            forall|i: int, j: int| 0 <= i < j < r@.len() ==> r@[i].0 != r@[j].0,
            forall|k: u64| #[trigger]
                self@.contains_key(k) <==> exists|i: int| 0 <= i < r@.len() && r@[i].0 == k,
            forall|i: int| 0 <= i < r@.len() ==> #[trigger] self@[r@[i].0] == r@[i].1@,
    {
        proof {
            use_type_invariant(self);
            self.lemma_view();
            let ev = chain_entries_view(self.entries@);
            assert forall|i: int, j: int| 0 <= i < j < self.entries@.len() implies self.entries@[
                i
            ].0 != self.entries@[j].0 by {
                assert(ev[i].0 == self.entries@[i].0);
                assert(ev[j].0 == self.entries@[j].0);
            }
        }
        &self.entries
    }
}

/// The address book of one protocol: its name and, per chain id, its resolved contracts.
pub struct ProtocolDeployments {
    pub protocol_name: String,
    pub chains: ChainDeployments,
}

/// The resolved contracts of one protocol on one chain.
pub struct ProtocolDeployment {
    pub name: String,
    pub chain_id: ChainId,
    pub contracts: ChainContracts,
}

impl ProtocolDeployment {
    pub fn new(name: &str, chain_id: u64, contracts: ChainContracts) -> (r: ProtocolDeployment)
        ensures
            r.name@ == name@,
            r.chain_id == chain_id,
            r.contracts@ == contracts@,
    {
        ProtocolDeployment { name: name.to_string(), chain_id, contracts }
    }
}

} // verus!
