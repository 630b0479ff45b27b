//! The brokers of the cluster, with their addresses and roles.
use crate::name_map::NameMap;
use crate::text::{decimal, decimal_text, lemma_decimal_injective, owned, same_text};
use vstd::prelude::*;
use vstd::string::*;

verus! {

/// What a node does in the cluster.
#[derive(Debug, Clone, Copy, PartialEq, Eq, Structural)]
pub enum ProcessRole {
    Broker,
    Controller,
}

/// What is known of a node.
pub struct Broker {
    pub node_id: u32,
    pub addr: Option<String>,
    pub roles: Option<Vec<ProcessRole>>,
}

/// What is known of a node, as values.
pub struct BrokerView {
    pub addr: Option<Seq<char>>,
    pub roles: Option<Seq<ProcessRole>>,
}

impl Broker {
    pub open spec fn view(self) -> BrokerView {
        BrokerView {
            addr: match self.addr {
                Some(a) => Some(a@),
                None => None,
            },
            roles: match self.roles {
                Some(r) => Some(r@),
                None => None,
            },
        }
    }
}

/// The nodes that are known by an address or by their roles.
pub struct BrokerRegistry {
    pub brokers: NameMap<Broker>,
}

/// The name under which a node is kept.
pub open spec fn node_name(id: u32) -> Seq<char> {
    decimal(id as nat)
}

/// Whether the numbers rise.
pub open spec fn rising(s: Seq<u32>) -> bool {
    forall|i: int, j: int| 0 <= i < j < s.len() ==> s[i] < s[j]
}

/// The roles that a list stands for: an empty list is of a node whose roles are unknown, and
/// such a node counts as having both.
pub open spec fn roles_meant(roles: Seq<ProcessRole>) -> Seq<ProcessRole> {
    if roles.len() == 0 {
        seq![ProcessRole::Broker, ProcessRole::Controller]
    } else {
        roles
    }
}

/// Whether partitions may be given to the node: it is a broker, or its roles are unknown.
pub open spec fn eligible(m: Map<u32, BrokerView>, id: u32) -> bool {
    m.contains_key(id) ==> (m[id].roles matches Some(r) ==> r.contains(ProcessRole::Broker))
}

/// The node's address, if it is known.
pub open spec fn address_of(m: Map<u32, BrokerView>, id: u32) -> Option<Seq<char>> {
    if m.contains_key(id) {
        m[id].addr
    } else {
        None
    }
}

/// Whether some node is known by this address.
pub open spec fn discovered(m: Map<u32, BrokerView>, addr: Seq<char>) -> bool {
    exists|id: u32| #[trigger] address_of(m, id) == Some(addr)
}

/// The nodes that partitions may be given to.
pub open spec fn available(m: Map<u32, BrokerView>, id: u32, self_id: u32, self_is_broker: bool) -> bool {
    (address_of(m, id) is Some && eligible(m, id)) || (self_is_broker && id == self_id)
}

/// Puts `x` into a rising list, once.
pub fn insert_rising(v: &mut Vec<u32>, x: u32)
    requires
        rising(old(v)@),
    ensures
        rising(final(v)@),
        forall|y: u32| #[trigger] final(v)@.contains(y) <==> old(v)@.contains(y) || y == x,
        final(v)@.len() <= old(v)@.len() + 1,
{
    let mut i: usize = 0;
    while i < v.len() && v[i] < x
        invariant
            i <= v.len(),
            rising(v@),
            v@ == old(v)@,
            forall|j: int| 0 <= j < i ==> v@[j] < x,
        decreases v.len() - i,
    {
        i = i + 1;
    }
    let ghost before = v@;
    if i < v.len() && v[i] == x {
        assert(before[i as int] == x);
        return ;
    }
    v.insert(i, x);
    proof {
        assert forall|y: u32| #[trigger] v@.contains(y) <==> before.contains(y) || y == x by {
            if before.contains(y) {
                let k = choose|k: int| 0 <= k < before.len() && before[k] == y;
                if k < i {
                    assert(v@[k] == y);
                } else {
                    assert(v@[k + 1] == y);
                }
            }
            if y == x {
                assert(v@[i as int] == y);
            }
            if v@.contains(y) {
                let k = choose|k: int| 0 <= k < v@.len() && v@[k] == y;
                if k < i {
                    assert(before[k] == y);
                } else if k > i {
                    assert(before[k - 1] == y);
                }
            }
        }
    }
}

/// Whether `role` is among the roles.
pub fn has_role(roles: &[ProcessRole], role: ProcessRole) -> (r: bool)
    ensures
        r == roles@.contains(role),
{
    let mut i: usize = 0;
    while i < roles.len()
        invariant
            i <= roles.len(),
            forall|j: int| 0 <= j < i ==> roles@[j] != role,
        decreases roles.len() - i,
    {
        if roles[i] == role {
            return true;
        }
        i = i + 1;
    }
    false
}

/// A rising list is determined by what it holds.
pub proof fn lemma_rising_unique(a: Seq<u32>, b: Seq<u32>)
    requires
        rising(a),
        rising(b),
        forall|x: u32| a.contains(x) <==> b.contains(x),
    ensures
        a == b,
    decreases a.len(),
{
    if a.len() == 0 {
        if b.len() > 0 {
            assert(b.contains(b[0]));
        }
        assert(a =~= b);
    } else {
        assert(a.contains(a[0]));
        let k = choose|k: int| 0 <= k < b.len() && b[k] == a[0];
        assert(b.contains(b[0]));
        let j = choose|j: int| 0 <= j < a.len() && a[j] == b[0];
        assert(a[0] == b[0]);
        let a2 = a.skip(1);
        let b2 = b.skip(1);
        assert forall|x: u32| a2.contains(x) <==> b2.contains(x) by {
            if a2.contains(x) {
                let i = choose|i: int| 0 <= i < a2.len() && a2[i] == x;
                assert(a[i + 1] == x);
                assert(b.contains(x));
                let m = choose|m: int| 0 <= m < b.len() && b[m] == x;
                assert(b2[m - 1] == x);
            }
            if b2.contains(x) {
                let i = choose|i: int| 0 <= i < b2.len() && b2[i] == x;
                assert(b[i + 1] == x);
                assert(b.contains(x));
                assert(a.contains(x));
                let m = choose|m: int| 0 <= m < a.len() && a[m] == x;
                assert(a2[m - 1] == x);
            }
        }
        lemma_rising_unique(a2, b2);
        assert(a =~= seq![a[0]] + a2);
        assert(b =~= seq![b[0]] + b2);
    }
}

impl BrokerRegistry {
    pub open spec fn wf(self) -> bool {
        &&& self.brokers.wf()
        &&& forall|k: Seq<char>| #[trigger]
            self.brokers@.contains_key(k) ==> k == node_name(self.brokers@[k].node_id)
    }

    /// The nodes by their numbers.
    pub open spec fn view(self) -> Map<u32, BrokerView> {
        Map::new(
            |id: u32| self.brokers@.contains_key(node_name(id)),
            |id: u32| self.brokers@[node_name(id)]@,
        )
    }

    pub fn new() -> (r: Self)
        ensures
            r.wf(),
            r@ == Map::<u32, BrokerView>::empty(),
    {
        let r = BrokerRegistry { brokers: NameMap::new() };
        assert(r@ =~= Map::<u32, BrokerView>::empty());
        r
    }

    /// How many nodes are known.
    pub fn len(&self) -> (r: usize)
        requires
            self.wf(),
        ensures
            self@.dom().finite(),
            r == self@.dom().len(),
    {
        let r: usize = self.brokers.len();
        proof {
            let names = self.brokers.names();
            let ids = self.brokers.values().map_values(|b: Broker| b.node_id);
            assert forall|i: int| 0 <= i < ids.len() implies names[i] == node_name(
                #[trigger] ids[i],
            ) by {
                assert(self.brokers@.contains_key(names[i]));
            }
            assert(ids.no_duplicates()) by {
                assert forall|i: int, j: int| 0 <= i < j < ids.len() implies ids[i] != ids[j] by {
                    assert(names[i] == node_name(ids[i]));
                    assert(names[j] == node_name(ids[j]));
                }
            }
            assert forall|id: u32| #[trigger] ids.contains(id) <==> self@.contains_key(id) by {
                if ids.contains(id) {
                    let i = choose|i: int| 0 <= i < ids.len() && ids[i] == id;
                    assert(names[i] == node_name(ids[i]));
                    assert(names.contains(names[i]));
                }
                if self@.contains_key(id) {
                    assert(names.contains(node_name(id)));
                    let i = choose|i: int| 0 <= i < names.len() && names[i] == node_name(id);
                    assert(names[i] == node_name(ids[i]));
                    lemma_decimal_injective(id as nat, ids[i] as nat);
                }
            }
            ids.unique_seq_to_set();
            assert(ids.to_set() =~= self@.dom());
        }
        r
    }

    fn put(&mut self, broker: Broker)
        requires
            old(self).wf(),
        ensures
            final(self).wf(),
            final(self)@ == old(self)@.insert(broker.node_id, broker@),
    {
        let id: u32 = broker.node_id;
        self.brokers.insert(decimal_text(id as u64), broker);
        proof {
            assert forall|x: u32| node_name(x) == node_name(id) implies x == id by {
                lemma_decimal_injective(x as nat, id as nat);
            }
            assert(self@ =~= old(self)@.insert(id, broker@));
        }
    }

    fn find(&self, node_id: u32) -> (r: Option<&Broker>)
        requires
            self.wf(),
        ensures
            match r {
                Some(b) => self@.contains_key(node_id) && b@ == self@[node_id],
                None => !self@.contains_key(node_id),
            },
    {
        let name: String = decimal_text(node_id as u64);
        self.brokers.get(name.as_str())
    }

    /// Notes a node's address.
    pub fn register_broker_address(&mut self, node_id: u32, bind_addr: String)
        requires
            old(self).wf(),
        ensures
            final(self).wf(),
            final(self)@ == old(self)@.insert(
                node_id,
                BrokerView {
                    addr: Some(bind_addr@),
                    roles: if old(self)@.contains_key(node_id) {
                        old(self)@[node_id].roles
                    } else {
                        None
                    },
                },
            ),
    {
        let roles: Option<Vec<ProcessRole>> = match self.find(node_id) {
            Some(b) => match &b.roles {
                Some(r) => Some(vstd::slice::slice_to_vec(r.as_slice())),
                None => None,
            },
            None => None,
        };
        self.put(Broker { node_id, addr: Some(bind_addr), roles });
    }

    /// Notes a node's roles. An empty list means that they are unknown.
    pub fn register_broker_roles(&mut self, node_id: u32, roles: Vec<ProcessRole>)
        requires
            old(self).wf(),
        ensures
            final(self).wf(),
            final(self)@ == old(self)@.insert(
                node_id,
                BrokerView {
                    addr: address_of(old(self)@, node_id),
                    roles: Some(roles_meant(roles@)),
                },
            ),
    {
        let addr: Option<String> = match self.find(node_id) {
            Some(b) => match &b.addr {
                Some(a) => Some(owned(a.as_str())),
                None => None,
            },
            None => None,
        };
        let mut meant: Vec<ProcessRole> = roles;
        if meant.len() == 0 {
            meant.push(ProcessRole::Broker);
            meant.push(ProcessRole::Controller);
            assert(meant@ =~= seq![ProcessRole::Broker, ProcessRole::Controller]);
        }
        self.put(Broker { node_id, addr, roles: Some(meant) });
    }

    /// Forgets a node.
    pub fn unregister_broker_address(&mut self, node_id: u32)
        requires
            old(self).wf(),
        ensures
            final(self).wf(),
            final(self)@ == old(self)@.remove(node_id),
    {
        let name: String = decimal_text(node_id as u64);
        let _ = self.brokers.remove(name.as_str());
        proof {
            assert forall|x: u32| node_name(x) == node_name(node_id) implies x == node_id by {
                lemma_decimal_injective(x as nat, node_id as nat);
            }
            assert(self@ =~= old(self)@.remove(node_id));
        }
    }

    /// Whether partitions may be given to a node.
    pub fn is_broker_eligible(&self, node_id: u32) -> (r: bool)
        requires
            self.wf(),
        ensures
            r == eligible(self@, node_id),
    {
        match self.find(node_id) {
            Some(b) => match &b.roles {
                Some(roles) => has_role(roles.as_slice(), ProcessRole::Broker),
                None => true,
            },
            None => true,
        }
    }

    pub fn get_broker_address(&self, node_id: u32) -> (r: Option<String>)
        requires
            self.wf(),
        ensures
            match r {
                Some(a) => address_of(self@, node_id) == Some(a@),
                None => address_of(self@, node_id) is None,
            },
    {
        match self.find(node_id) {
            Some(b) => match &b.addr {
                Some(a) => Some(owned(a.as_str())),
                None => None,
            },
            None => None,
        }
    }

    /// The roles of a node, if they are known.
    pub fn get_broker_roles(&self, node_id: u32) -> (r: Option<Vec<ProcessRole>>)
        requires
            self.wf(),
        ensures
            match r {
                Some(x) => self@.contains_key(node_id) && self@[node_id].roles == Some(x@),
                None => self@.contains_key(node_id) ==> self@[node_id].roles is None,
            },
    {
        match self.find(node_id) {
            Some(b) => match &b.roles {
                Some(x) => Some(vstd::slice::slice_to_vec(x.as_slice())),
                None => None,
            },
            None => None,
        }
    }

    /// The nodes whose address is known, rising, and of them only those that partitions may be
    /// given to, if so asked.
    fn known_ids(&self, only_eligible: bool) -> (r: Vec<u32>)
        requires
            self.wf(),
        ensures
            rising(r@),
            forall|id: u32| #[trigger]
                r@.contains(id) <==> address_of(self@, id) is Some && (only_eligible ==> eligible(
                    self@,
                    id,
                )),
    {
        let mut ids: Vec<u32> = Vec::new();
        let n: usize = self.brokers.len();
        let mut i: usize = 0;
        while i < n
            invariant
                self.wf(),
                i <= n == self.brokers.names().len(),
                n == self.brokers.values().len(),
                forall|j: int|
                    0 <= j < n ==> self.brokers@.contains_key(#[trigger] self.brokers.names()[j])
                        && self.brokers@[self.brokers.names()[j]] == self.brokers.values()[j],
                rising(ids@),
                forall|id: u32| #[trigger]
                    ids@.contains(id) ==> address_of(self@, id) is Some && (only_eligible
                        ==> eligible(self@, id)),
                forall|j: int|
                    #![trigger self.brokers.names()[j]]
                    0 <= j < i ==> {
                        let id = self.brokers@[self.brokers.names()[j]].node_id;
                        address_of(self@, id) is Some && (only_eligible ==> eligible(self@, id))
                            ==> ids@.contains(id)
                    },
            decreases n - i,
        {
            let b: &Broker = self.brokers.value_at(i);
            let ghost name = self.brokers.names()[i as int];
            assert(name == node_name(b.node_id));
            assert(self@[b.node_id] == b@);
            if b.addr.is_some() && (!only_eligible || self.is_broker_eligible(b.node_id)) {
                insert_rising(&mut ids, b.node_id);
            }
            i = i + 1;
        }
        assert forall|id: u32| address_of(self@, id) is Some && (only_eligible ==> eligible(
            self@,
            id,
        )) implies ids@.contains(id) by {
            assert(self.brokers.names().contains(node_name(id)));
            let j = choose|j: int|
                0 <= j < self.brokers.names().len() && self.brokers.names()[j] == node_name(id);
            let other = self.brokers@[self.brokers.names()[j]].node_id;
            lemma_decimal_injective(id as nat, other as nat);
        }
        ids
    }

    /// All nodes whose address is known, by rising number.
    pub fn broker_endpoints(&self) -> (r: Vec<(u32, String)>)
        requires
            self.wf(),
        ensures
            forall|i: int, j: int| 0 <= i < j < r@.len() ==> r@[i].0 < r@[j].0,
            forall|i: int|
                0 <= i < r@.len() ==> address_of(self@, (#[trigger] r@[i]).0) == Some(r@[i].1@),
            forall|id: u32| #[trigger]
                address_of(self@, id) is Some ==> exists|i: int| 0 <= i < r@.len() && r@[i].0 == id,
    {
        let ids: Vec<u32> = self.known_ids(false);
        let mut out: Vec<(u32, String)> = Vec::new();
        let mut i: usize = 0;
        while i < ids.len()
            invariant
                self.wf(),
                i <= ids.len(),
                rising(ids@),
                forall|id: u32| #[trigger]
                    ids@.contains(id) <==> address_of(self@, id) is Some,
                out@.len() == i,
                forall|k: int|
                    #![trigger out@[k]]
                    0 <= k < i ==> out@[k].0 == ids@[k] && address_of(self@, ids@[k]) == Some(
                        out@[k].1@,
                    ),
            decreases ids.len() - i,
        {
            assert(ids@.contains(ids@[i as int]));
            match self.get_broker_address(ids[i]) {
                Some(a) => {
                    out.push((ids[i], a));
                },
                None => {},
            }
            i = i + 1;
        }
        assert forall|id: u32| #[trigger] address_of(self@, id) is Some implies exists|i: int|
            0 <= i < out@.len() && out@[i].0 == id by {
            assert(ids@.contains(id));
            let k = choose|k: int| 0 <= k < ids@.len() && ids@[k] == id;
            assert(out@[k].0 == id);
        }
        out
    }

    /// The nodes that partitions may be given to, by rising number. This node is among them if
    /// it is a broker, though its address may not be known.
    pub fn available_broker_ids(&self, self_id: u32, self_is_broker: bool) -> (r: Vec<u32>)
        requires
            self.wf(),
        ensures
            rising(r@),
            forall|id: u32| #[trigger]
                r@.contains(id) <==> available(self@, id, self_id, self_is_broker),
    {
        let mut ids: Vec<u32> = self.known_ids(true);
        if self_is_broker {
            insert_rising(&mut ids, self_id);
        }
        ids
    }

    /// Whether some node is known by this address.
    pub fn knows_address(&self, addr: &str) -> (r: bool)
        requires
            self.wf(),
        ensures
            r == discovered(self@, addr@),
    {
        let n: usize = self.brokers.len();
        let mut i: usize = 0;
        while i < n
            invariant
                self.wf(),
                i <= n == self.brokers.names().len(),
                n == self.brokers.values().len(),
                forall|j: int|
                    0 <= j < n ==> self.brokers@.contains_key(#[trigger] self.brokers.names()[j])
                        && self.brokers@[self.brokers.names()[j]] == self.brokers.values()[j],
                forall|j: int|
                    0 <= j < i ==> (#[trigger] self.brokers.values()[j])@.addr != Some(addr@),
            decreases n - i,
        {
            let b: &Broker = self.brokers.value_at(i);
            let ghost name = self.brokers.names()[i as int];
            match &b.addr {
                Some(a) => {
                    if same_text(a.as_str(), addr) {
                        assert(name == node_name(b.node_id));
                        assert(address_of(self@, b.node_id) == Some(addr@));
                        return true;
                    }
                },
                None => {},
            }
            i = i + 1;
        }
        assert forall|id: u32| #[trigger] address_of(self@, id) != Some(addr@) by {
            if self@.contains_key(id) {
                assert(self.brokers.names().contains(node_name(id)));
                let j = choose|j: int|
                    0 <= j < self.brokers.names().len() && self.brokers.names()[j] == node_name(id);
                assert(self@[id] == self.brokers.values()[j]@);
            }
        }
        false
    }
}

} // verus!
