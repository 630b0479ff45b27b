//! The rules of access control, kept so that those about a resource are found at once.
//!
//! A rule about exactly one resource is kept under that resource's kind and name, any other rule
//! under the kind alone.
use crate::acl::{
    allowed, applies, by_name, concerns, has_rule, is_super_user, matches_rule, passes, star,
    AclBinding, AclPermissionType, ResourcePatternType, Rule,
};
use crate::keys::{name_numbered, numbered_key, numbered_key_is_injective};
use crate::name_map::NameMap;
use crate::text::same_text;
use vstd::prelude::*;
use vstd::string::*;

verus! {

/// All rules.
pub struct AclManager {
    pub literal: NameMap<Vec<AclBinding>>,
    pub patterned: NameMap<Vec<AclBinding>>,
}

pub open spec fn rules_of(bucket: Seq<AclBinding>) -> Seq<Rule> {
    bucket.map_values(|b: AclBinding| b@)
}

/// The rules under a key.
pub open spec fn rules_at(m: Map<Seq<char>, Vec<AclBinding>>, k: Seq<char>) -> Seq<Rule> {
    if m.contains_key(k) {
        rules_of(m[k]@)
    } else {
        Seq::empty()
    }
}

/// The key that a rule is kept under.
pub open spec fn bucket_of(b: Rule) -> Seq<char> {
    if by_name(b) {
        numbered_key(b.resource_type as nat, b.resource_name)
    } else {
        numbered_key(b.resource_type as nat, Seq::empty())
    }
}

/// Each rule is kept under its own key, and once.
pub open spec fn well_kept(m: Map<Seq<char>, Vec<AclBinding>>, named: bool) -> bool {
    forall|k: Seq<char>| #[trigger] bucket_ok(m, k, named)
}

pub open spec fn bucket_ok(m: Map<Seq<char>, Vec<AclBinding>>, k: Seq<char>, named: bool) -> bool {
    let rules = rules_at(m, k);
    &&& rules.no_duplicates()
    &&& forall|i: int|
        0 <= i < rules.len() ==> by_name(#[trigger] rules[i]) == named && bucket_of(rules[i]) == k
}

fn find_rule(bucket: &Vec<AclBinding>, b: &AclBinding) -> (r: Option<usize>)
    ensures
        match r {
            Some(i) => i < bucket@.len() && rules_of(bucket@)[i as int] == b@,
            None => !rules_of(bucket@).contains(b@),
        },
{
    let mut i: usize = 0;
    while i < bucket.len()
        invariant
            i <= bucket@.len(),
            forall|j: int| 0 <= j < i ==> rules_of(bucket@)[j] != b@,
        decreases bucket@.len() - i,
    {
        if bucket[i].same(b) {
            return Some(i);
        }
        i = i + 1;
    }
    None
}

fn find_in(m: &NameMap<Vec<AclBinding>>, key: &str, b: &AclBinding) -> (r: bool)
    requires
        m.wf(),
    ensures
        r == rules_at(m@, key@).contains(b@),
{
    match m.get(key) {
        Some(bucket) => match find_rule(bucket, b) {
            Some(i) => {
                assert(rules_of(bucket@)[i as int] == b@);
                true
            },
            None => false,
        },
        None => false,
    }
}

/// Adds a rule under a key, unless it is there.
fn add_to(m: &mut NameMap<Vec<AclBinding>>, key: String, b: AclBinding) -> (r: bool)
    requires
        old(m).wf(),
    ensures
        final(m).wf(),
        r == !rules_at(old(m)@, key@).contains(b@),
        rules_at(final(m)@, key@) == (if r {
            rules_at(old(m)@, key@).push(b@)
        } else {
            rules_at(old(m)@, key@)
        }),
        forall|k: Seq<char>| k != key@ ==> #[trigger] rules_at(final(m)@, k) == rules_at(old(m)@, k),
{
    match m.find(key.as_str()) {
        Some(i) => {
            let found: bool = match find_rule(m.value_at(i), &b) {
                Some(j) => {
                    assert(rules_of(m.values()[i as int]@)[j as int] == b@);
                    true
                },
                None => false,
            };
            if found {
                false
            } else {
                let ghost before = m@;
                let bucket: &mut Vec<AclBinding> = m.value_mut(i);
                let ghost rules = rules_of(bucket@);
                bucket.push(b);
                assert(rules_of(bucket@) =~= rules.push(b@));
                true
            }
        },
        None => {
            let mut bucket: Vec<AclBinding> = Vec::new();
            bucket.push(b);
            assert(rules_of(bucket@) =~= Seq::<Rule>::empty().push(b@));
            m.insert(key, bucket);
            true
        },
    }
}

/// Takes a rule out from under a key, if it is there.
fn remove_from(m: &mut NameMap<Vec<AclBinding>>, key: &str, b: &AclBinding) -> (r: bool)
    requires
        old(m).wf(),
        rules_at(old(m)@, key@).no_duplicates(),
    ensures
        final(m).wf(),
        r == rules_at(old(m)@, key@).contains(b@),
        rules_at(final(m)@, key@).no_duplicates(),
        forall|x: Rule| #[trigger]
            rules_at(final(m)@, key@).contains(x) <==> rules_at(old(m)@, key@).contains(x) && x
                != b@,
        forall|k: Seq<char>| k != key@ ==> #[trigger] rules_at(final(m)@, k) == rules_at(old(m)@, k),
{
    match m.find(key) {
        Some(i) => {
            match find_rule(m.value_at(i), b) {
                Some(j) => {
                    let bucket: &mut Vec<AclBinding> = m.value_mut(i);
                    let ghost rules = rules_of(bucket@);
                    let _ = bucket.remove(j);
                    proof {
                        let after = rules_of(bucket@);
                        assert(after =~= rules.remove(j as int));
                        assert(rules[j as int] == b@);
                        assert forall|x: Rule| #[trigger] after.contains(x) <==> rules.contains(x)
                            && x != b@ by {
                            if rules.contains(x) && x != b@ {
                                let p = choose|p: int| 0 <= p < rules.len() && rules[p] == x;
                                assert(after[if p < j { p } else { p - 1 }] == x);
                            }
                            if after.contains(x) {
                                let p = choose|p: int| 0 <= p < after.len() && after[p] == x;
                                let q = if p < j { p } else { p + 1 };
                                assert(rules[q] == x);
                            }
                        }
                        assert(after.no_duplicates()) by {
                            assert forall|p: int, q: int|
                                0 <= p < after.len() && 0 <= q < after.len() && p != q implies after[p]
                                != after[q] by {
                                let p1 = if p < j { p } else { p + 1 };
                                let q1 = if q < j { q } else { q + 1 };
                                assert(after[p] == rules[p1] && after[q] == rules[q1]);
                            }
                        }
                    }
                    true
                },
                None => false,
            }
        },
        None => false,
    }
}

impl AclManager {
    pub open spec fn wf(self) -> bool {
        &&& self.literal.wf()
        &&& self.patterned.wf()
        &&& well_kept(self.literal@, true)
        &&& well_kept(self.patterned@, false)
    }

    /// The rules.
    pub open spec fn view(self) -> Set<Rule> {
        Set::new(
            |b: Rule|
                if by_name(b) {
                    rules_at(self.literal@, bucket_of(b)).contains(b)
                } else {
                    rules_at(self.patterned@, bucket_of(b)).contains(b)
                },
        )
    }

    pub fn new() -> (r: Self)
        ensures
            r.wf(),
            r@ == Set::<Rule>::empty(),
    {
        let r = AclManager { literal: NameMap::new(), patterned: NameMap::new() };
        assert(r@ =~= Set::<Rule>::empty());
        r
    }

    /// The key that a rule about exactly one resource is kept under.
    fn bucket_key(binding: &AclBinding) -> (r: Option<String>)
        ensures
            match r {
                Some(k) => by_name(binding@) && k@ == bucket_of(binding@),
                None => !by_name(binding@),
            },
    {
        proof {
            reveal_strlit("*");
            assert("*"@ =~= star());
        }
        if binding.pattern_type == ResourcePatternType::Literal.code() && !same_text(
            binding.resource_name.as_str(),
            "*",
        ) {
            Some(name_numbered(binding.resource_type as u64, binding.resource_name.as_str()))
        } else {
            None
        }
    }

    /// The key that all other rules about a kind of resource are kept under.
    fn type_key(resource_type: u8) -> (r: String)
        ensures
            r@ == numbered_key(resource_type as nat, Seq::empty()),
    {
        proof {
            reveal_strlit("");
            assert(""@ =~= Seq::<char>::empty());
        }
        name_numbered(resource_type as u64, "")
    }

    /// Adds a rule. Returns whether it was new.
    pub fn add_acl(&mut self, binding: AclBinding) -> (r: bool)
        requires
            old(self).wf(),
        ensures
            final(self).wf(),
            r == !old(self)@.contains(binding@),
            final(self)@ == old(self)@.insert(binding@),
    {
        let ghost b = binding@;
        let ghost before = *self;
        let r: bool = match Self::bucket_key(&binding) {
            Some(key) => add_to(&mut self.literal, key, binding),
            None => add_to(&mut self.patterned, Self::type_key(binding.resource_type), binding),
        };
        proof {
            let k = bucket_of(b);
            let (m0, m1) = if by_name(b) {
                (before.literal@, self.literal@)
            } else {
                (before.patterned@, self.patterned@)
            };
            assert(bucket_ok(m0, k, by_name(b)));
            if r {
                lemma_pushed(rules_at(m0, k), b);
            }
            assert forall|x: Seq<char>| #[trigger] bucket_ok(m1, x, by_name(b)) by {
                assert(bucket_ok(m0, x, by_name(b)));
            }
            assert(well_kept(m1, by_name(b)));
            assert forall|x: Rule| self@.contains(x) == before@.insert(b).contains(x) by {
                if by_name(x) == by_name(b) && bucket_of(x) == k {
                    assert(rules_at(m1, k).contains(x) == (rules_at(m0, k).contains(x) || x == b));
                }
            }
            assert(self@ =~= before@.insert(b));
        }
        r
    }

    /// Removes a rule. Returns whether it was there.
    pub fn remove_acl(&mut self, binding: &AclBinding) -> (r: bool)
        requires
            old(self).wf(),
        ensures
            final(self).wf(),
            r == old(self)@.contains(binding@),
            final(self)@ == old(self)@.remove(binding@),
    {
        let ghost b = binding@;
        let ghost before = *self;
        proof {
            assert(bucket_ok(self.literal@, bucket_of(b), true));
            assert(bucket_ok(self.patterned@, bucket_of(b), false));
        }
        let r: bool = match Self::bucket_key(binding) {
            Some(key) => remove_from(&mut self.literal, key.as_str(), binding),
            None => {
                let key: String = Self::type_key(binding.resource_type);
                remove_from(&mut self.patterned, key.as_str(), binding)
            },
        };
        proof {
            let k = bucket_of(b);
            let (m0, m1) = if by_name(b) {
                (before.literal@, self.literal@)
            } else {
                (before.patterned@, self.patterned@)
            };
            assert forall|x: Seq<char>| #[trigger] bucket_ok(m1, x, by_name(b)) by {
                assert(bucket_ok(m0, x, by_name(b)));
                if x == k {
                    let rules = rules_at(m1, k);
                    assert forall|i: int| 0 <= i < rules.len() implies by_name(#[trigger] rules[i])
                        == by_name(b) && bucket_of(rules[i]) == k by {
                        assert(rules.contains(rules[i]));
                        assert(rules_at(m0, k).contains(rules[i]));
                    }
                }
            }
            assert(well_kept(m1, by_name(b)));
            assert forall|x: Rule| self@.contains(x) == before@.remove(b).contains(x) by {
                if by_name(x) == by_name(b) && bucket_of(x) == k {
                    assert(rules_at(m1, k).contains(x) == (rules_at(m0, k).contains(x) && x != b));
                }
            }
            assert(self@ =~= before@.remove(b));
        }
        r
    }

    /// Whether a rule is there.
    pub fn contains(&self, binding: &AclBinding) -> (r: bool)
        requires
            self.wf(),
        ensures
            r == self@.contains(binding@),
    {
        match Self::bucket_key(binding) {
            Some(key) => find_in(&self.literal, key.as_str(), binding),
            None => {
                let key: String = Self::type_key(binding.resource_type);
                find_in(&self.patterned, key.as_str(), binding)
            },
        }
    }

    /// Whether there is no rule.
    pub fn is_empty(&self) -> (r: bool)
        requires
            self.wf(),
        ensures
            r == (self@ == Set::<Rule>::empty()),
    {
        let a: bool = all_empty(&self.literal);
        let b: bool = all_empty(&self.patterned);
        proof {
            if a && b {
                assert(self@ =~= Set::<Rule>::empty());
            } else if !a {
                let (k, x) = choose|k: Seq<char>, x: Rule| #[trigger] rules_at(self.literal@, k).contains(x);
                assert(bucket_ok(self.literal@, k, true));
                let i = choose|i: int|
                    0 <= i < rules_at(self.literal@, k).len() && rules_at(self.literal@, k)[i] == x;
                assert(by_name(rules_at(self.literal@, k)[i]));
                assert(self@.contains(x));
            } else {
                let (k, x) = choose|k: Seq<char>, x: Rule| #[trigger] rules_at(self.patterned@, k).contains(x);
                assert(bucket_ok(self.patterned@, k, false));
                let i = choose|i: int|
                    0 <= i < rules_at(self.patterned@, k).len() && rules_at(self.patterned@, k)[i]
                        == x;
                assert(!by_name(rules_at(self.patterned@, k)[i]));
                assert(self@.contains(x));
            }
        }
        a && b
    }

    /// Whether a rule with that permission concerns the resource and applies.
    fn check_rules(
        &self,
        permission: AclPermissionType,
        principal: &str,
        host: &str,
        operation: u8,
        resource_type: u8,
        resource_name: &str,
    ) -> (r: bool)
        requires
            self.wf(),
        ensures
            r == has_rule(
                self@,
                permission,
                principal@,
                host@,
                operation,
                resource_type,
                resource_name@,
            ),
    {
        let name_key: String = name_numbered(resource_type as u64, resource_name);
        let type_key: String = Self::type_key(resource_type);
        let a: Option<usize> = match self.literal.get(name_key.as_str()) {
            Some(bucket) => find_applying(
                bucket,
                permission,
                principal,
                host,
                operation,
                resource_type,
                resource_name,
            ),
            None => None,
        };
        let b: Option<usize> = match self.patterned.get(type_key.as_str()) {
            Some(bucket) => find_applying(
                bucket,
                permission,
                principal,
                host,
                operation,
                resource_type,
                resource_name,
            ),
            None => None,
        };
        proof {
            let la = rules_at(self.literal@, name_key@);
            let lb = rules_at(self.patterned@, type_key@);
            assert(bucket_ok(self.literal@, name_key@, true));
            assert(bucket_ok(self.patterned@, type_key@, false));
            if a is Some {
                let x = la[a->0 as int];
                numbered_key_is_injective(
                    x.resource_type as nat,
                    x.resource_name,
                    resource_type as nat,
                    resource_name@,
                );
                assert(la.contains(x));
                assert(self@.contains(x));
            }
            if b is Some {
                let x = lb[b->0 as int];
                numbered_key_is_injective(
                    x.resource_type as nat,
                    Seq::empty(),
                    resource_type as nat,
                    Seq::empty(),
                );
                assert(lb.contains(x));
                assert(self@.contains(x));
            }
            if has_rule(
                self@,
                permission,
                principal@,
                host@,
                operation,
                resource_type,
                resource_name@,
            ) {
                let x = choose|x: Rule| #[trigger]
                    self@.contains(x) && x.permission_type == permission.number() && concerns(
                        x,
                        resource_type,
                        resource_name@,
                    ) && applies(
                        x,
                        principal@,
                        host@,
                        operation,
                        resource_type,
                        resource_name@,
                    );
                if by_name(x) {
                    let i = choose|i: int| 0 <= i < la.len() && la[i] == x;
                    assert(la[i] == x);
                } else {
                    let i = choose|i: int| 0 <= i < lb.len() && lb[i] == x;
                    assert(lb[i] == x);
                }
            }
        }
        a.is_some() || b.is_some()
    }

    /// Whether `principal`, at `host`, may do what it wants.
    pub fn authorize(
        &self,
        principal: &str,
        host: &str,
        operation: u8,
        resource_type: u8,
        resource_name: &str,
        super_users: &[String],
        acls_enabled: bool,
    ) -> (r: bool)
        requires
            self.wf(),
        ensures
            r == allowed(
                self@,
                principal@,
                host@,
                operation,
                resource_type,
                resource_name@,
                super_users@,
                acls_enabled,
            ),
    {
        if !acls_enabled {
            return true;
        }
        if check_super_user(principal, super_users) {
            return true;
        }
        if self.is_empty() {
            return false;
        }
        if self.check_rules(
            AclPermissionType::Deny,
            principal,
            host,
            operation,
            resource_type,
            resource_name,
        ) {
            return false;
        }
        self.check_rules(
            AclPermissionType::Allow,
            principal,
            host,
            operation,
            resource_type,
            resource_name,
        )
    }
}

fn check_super_user(principal: &str, super_users: &[String]) -> (r: bool)
    ensures
        r == is_super_user(principal@, super_users@),
{
    proof {
        reveal_strlit("*");
        assert("*"@ =~= star());
    }
    let mut i: usize = 0;
    while i < super_users.len()
        invariant
            i <= super_users@.len(),
            "*"@ == star(),
            forall|j: int|
                0 <= j < i ==> (#[trigger] super_users@[j])@ != principal@ && super_users@[j]@
                    != star(),
        decreases super_users@.len() - i,
    {
        if same_text(super_users[i].as_str(), principal) || same_text(super_users[i].as_str(), "*") {
            assert(super_users@[i as int]@ == principal@ || super_users@[i as int]@ == star());
            return true;
        }
        i = i + 1;
    }
    false
}

fn find_applying(
    bucket: &Vec<AclBinding>,
    permission: AclPermissionType,
    principal: &str,
    host: &str,
    operation: u8,
    resource_type: u8,
    resource_name: &str,
) -> (r: Option<usize>)
    ensures
        match r {
            Some(i) => i < bucket@.len() && ({
                let b = rules_of(bucket@)[i as int];
                b.permission_type == permission.number() && applies(
                    b,
                    principal@,
                    host@,
                    operation,
                    resource_type,
                    resource_name@,
                )
            }),
            None => forall|i: int|
                0 <= i < bucket@.len() ==> !((#[trigger] rules_of(bucket@)[i]).permission_type
                    == permission.number() && applies(
                    rules_of(bucket@)[i],
                    principal@,
                    host@,
                    operation,
                    resource_type,
                    resource_name@,
                )),
        },
{
    let mut i: usize = 0;
    while i < bucket.len()
        invariant
            i <= bucket@.len(),
            forall|j: int|
                0 <= j < i ==> !((#[trigger] rules_of(bucket@)[j]).permission_type
                    == permission.number() && applies(
                    rules_of(bucket@)[j],
                    principal@,
                    host@,
                    operation,
                    resource_type,
                    resource_name@,
                )),
        decreases bucket@.len() - i,
    {
        if bucket[i].permission_type == permission.code() && matches_rule(
            &bucket[i],
            principal,
            host,
            operation,
            resource_type,
            resource_name,
        ) {
            return Some(i);
        }
        i = i + 1;
    }
    None
}

fn all_empty(m: &NameMap<Vec<AclBinding>>) -> (r: bool)
    requires
        m.wf(),
    ensures
        r ==> forall|k: Seq<char>, x: Rule| !#[trigger] rules_at(m@, k).contains(x),
        !r ==> exists|k: Seq<char>, x: Rule| #[trigger] rules_at(m@, k).contains(x),
{
    let n: usize = m.len();
    let mut i: usize = 0;
    while i < n
        invariant
            i <= n,
            n == m.names().len(),
            n == m.values().len(),
            m.wf(),
            forall|j: int|
                0 <= j < n ==> m@.contains_key(#[trigger] m.names()[j]) && m@[m.names()[j]]
                    == m.values()[j],
            forall|j: int| 0 <= j < i ==> (#[trigger] m.values()[j])@.len() == 0,
        decreases n - i,
    {
        if m.value_at(i).len() > 0 {
            proof {
                let k = m.names()[i as int];
                let x = rules_at(m@, k)[0];
                assert(rules_at(m@, k).contains(x));
            }
            return false;
        }
        i = i + 1;
    }
    proof {
        assert forall|k: Seq<char>, x: Rule| !#[trigger] rules_at(m@, k).contains(x) by {
            if m@.contains_key(k) {
                assert(m.names().contains(k));
                let j = choose|j: int| 0 <= j < m.names().len() && m.names()[j] == k;
                assert(m.values()[j]@.len() == 0);
            }
        }
    }
    true
}

proof fn lemma_pushed(rules: Seq<Rule>, b: Rule)
    requires
        rules.no_duplicates(),
        !rules.contains(b),
    ensures
        rules.push(b).no_duplicates(),
        forall|x: Rule| #[trigger] rules.push(b).contains(x) <==> rules.contains(x) || x == b,
{
    assert forall|x: Rule| #[trigger] rules.push(b).contains(x) <==> rules.contains(x) || x == b by {
        if rules.contains(x) {
            let i = choose|i: int| 0 <= i < rules.len() && rules[i] == x;
            assert(rules.push(b)[i] == x);
        }
        if x == b {
            assert(rules.push(b)[rules.len() as int] == x);
        }
    }
}

/// Some key of `m` holds the rule.
pub open spec fn kept_in(m: Map<Seq<char>, Vec<AclBinding>>, x: Rule) -> bool {
    rules_at(m, bucket_of(x)).contains(x)
}

/// Appends the rules that `filter` lets through.
fn collect_passing(
    m: &NameMap<Vec<AclBinding>>,
    filter: &AclBinding,
    out: &mut Vec<AclBinding>,
    named: bool,
)
    requires
        m.wf(),
        well_kept(m@, named),
        rules_of(old(out)@).no_duplicates(),
        forall|x: Rule| #[trigger] rules_of(old(out)@).contains(x) ==> by_name(x) != named,
    ensures
        rules_of(final(out)@).no_duplicates(),
        forall|x: Rule| #[trigger]
            rules_of(final(out)@).contains(x) <==> rules_of(old(out)@).contains(x) || (by_name(x)
                == named && kept_in(m@, x) && passes(filter@, x)),
{
    let n: usize = m.len();
    let ghost names = m.names();
    let ghost start = rules_of(out@);
    let mut i: usize = 0;
    while i < n
        invariant
            i <= n,
            n == names.len(),
            names == m.names(),
            n == m.values().len(),
            m.wf(),
            names.no_duplicates(),
            well_kept(m@, named),
            start == rules_of(old(out)@),
            forall|x: Rule| #[trigger] start.contains(x) ==> by_name(x) != named,
            forall|j: int|
                0 <= j < n ==> m@.contains_key(#[trigger] names[j]) && m@[names[j]]
                    == m.values()[j],
            rules_of(out@).no_duplicates(),
            forall|x: Rule| #[trigger]
                rules_of(out@).contains(x) <==> start.contains(x) || (by_name(x) == named
                    && kept_in(m@, x) && passes(filter@, x) && names.take(i as int).contains(
                    bucket_of(x),
                )),
        decreases n - i,
    {
        let bucket: &Vec<AclBinding> = m.value_at(i);
        let ghost k = names[i as int];
        let ghost rules = rules_of(bucket@);
        proof {
            assert(m@.contains_key(k));
            assert(rules == rules_at(m@, k));
            assert(bucket_ok(m@, k, named));
            assert(!names.take(i as int).contains(k)) by {
                if names.take(i as int).contains(k) {
                    let j = choose|j: int| 0 <= j < i && names.take(i as int)[j] == k;
                    assert(names[j] == names[i as int]);
                }
            }
            assert forall|x: Rule| names.take(i + 1).contains(bucket_of(x)) <==> names.take(
                i as int,
            ).contains(bucket_of(x)) || bucket_of(x) == k by {
                if names.take(i as int).contains(bucket_of(x)) {
                    let j = choose|j: int| 0 <= j < i && names.take(i as int)[j] == bucket_of(x);
                    assert(names.take(i + 1)[j] == bucket_of(x));
                }
                if bucket_of(x) == k {
                    assert(names.take(i + 1)[i as int] == bucket_of(x));
                }
                let taken = names.take(i + 1);
                if taken.contains(bucket_of(x)) {
                    let j = choose|j: int| 0 <= j < taken.len() && taken[j] == bucket_of(x);
                    if j < i {
                        assert(names.take(i as int)[j] == bucket_of(x));
                    }
                }
            }
        }
        let ghost before = rules_of(out@);
        let mut j: usize = 0;
        while j < bucket.len()
            invariant
                j <= bucket@.len(),
                rules == rules_of(bucket@),
                rules.no_duplicates(),
                before.no_duplicates(),
                forall|x: Rule| #[trigger] before.contains(x) ==> !rules.contains(x),
                rules_of(out@).no_duplicates(),
                forall|x: Rule| #[trigger]
                    rules_of(out@).contains(x) <==> before.contains(x) || (rules.take(
                        j as int,
                    ).contains(x) && passes(filter@, x)),
            decreases bucket@.len() - j,
        {
            let ghost cur = rules_of(out@);
            let ghost x0 = rules[j as int];
            proof {
                assert(rules.take(j + 1) =~= rules.take(j as int).push(x0));
                assert(rules.contains(x0));
                assert(!rules.take(j as int).contains(x0)) by {
                    if rules.take(j as int).contains(x0) {
                        let a = choose|a: int| 0 <= a < j && rules.take(j as int)[a] == x0;
                        assert(rules[a] == rules[j as int]);
                    }
                }
                assert forall|x: Rule| #[trigger] rules.take(j + 1).contains(x) <==> rules.take(
                    j as int,
                ).contains(x) || x == x0 by {
                    if rules.take(j as int).contains(x) {
                        let a = choose|a: int| 0 <= a < j && rules.take(j as int)[a] == x;
                        assert(rules.take(j + 1)[a] == x);
                    }
                    if x == x0 {
                        assert(rules.take(j + 1)[j as int] == x);
                    }
                }
            }
            if crate::acl::check_passes(filter, &bucket[j]) {
                out.push(bucket[j].copy());
                proof {
                    assert(!cur.contains(x0));
                    lemma_pushed(cur, x0);
                    assert(rules_of(out@) =~= cur.push(x0));
                }
            }
            j = j + 1;
        }
        proof {
            assert(rules.take(j as int) =~= rules);
            assert forall|x: Rule| #[trigger] rules_of(out@).contains(x) <==> start.contains(x) || (
            by_name(x) == named && kept_in(m@, x) && passes(filter@, x) && names.take(
                i + 1,
            ).contains(bucket_of(x))) by {
                if rules.contains(x) {
                    let a = choose|a: int| 0 <= a < rules.len() && rules[a] == x;
                    assert(by_name(rules[a]) == named && bucket_of(rules[a]) == k);
                }
            }
        }
        i = i + 1;
    }
    proof {
        assert(names.take(n as int) =~= names);
        assert forall|x: Rule| kept_in(m@, x) implies names.contains(bucket_of(x)) by {
            assert(m@.contains_key(bucket_of(x)));
        }
    }
}

impl AclManager {
    /// The rules that `filter` lets through, each once.
    pub fn list_acls(&self, filter: &AclBinding) -> (r: Vec<AclBinding>)
        requires
            self.wf(),
        ensures
            rules_of(r@).no_duplicates(),
            forall|x: Rule| #[trigger]
                rules_of(r@).contains(x) <==> self@.contains(x) && passes(filter@, x),
    {
        let mut out: Vec<AclBinding> = Vec::new();
        assert(rules_of(out@) =~= Seq::empty());
        collect_passing(&self.literal, filter, &mut out, true);
        collect_passing(&self.patterned, filter, &mut out, false);
        out
    }
}

/// A rule that denies beats every rule that allows.
pub proof fn deny_beats_allow(
    rules: Set<Rule>,
    principal: Seq<char>,
    host: Seq<char>,
    operation: u8,
    resource_type: u8,
    resource_name: Seq<char>,
    super_users: Seq<String>,
)
    requires
        has_rule(
            rules,
            AclPermissionType::Deny,
            principal,
            host,
            operation,
            resource_type,
            resource_name,
        ),
        !is_super_user(principal, super_users),
    ensures
        !allowed(
            rules,
            principal,
            host,
            operation,
            resource_type,
            resource_name,
            super_users,
            true,
        ),
{
}

/// Without any rule nobody but a super user may do anything.
pub proof fn default_is_deny(
    principal: Seq<char>,
    host: Seq<char>,
    operation: u8,
    resource_type: u8,
    resource_name: Seq<char>,
    super_users: Seq<String>,
)
    ensures
        allowed(
            Set::<Rule>::empty(),
            principal,
            host,
            operation,
            resource_type,
            resource_name,
            super_users,
            true,
        ) == is_super_user(principal, super_users),
{
}

/// Rules about other kinds of resources, or about exactly one other resource, do not matter.
pub proof fn other_resources_do_not_matter(
    rules: Set<Rule>,
    b: Rule,
    principal: Seq<char>,
    host: Seq<char>,
    operation: u8,
    resource_type: u8,
    resource_name: Seq<char>,
    super_users: Seq<String>,
    acls_enabled: bool,
)
    requires
        !concerns(b, resource_type, resource_name),
    ensures
        allowed(
            rules.insert(b),
            principal,
            host,
            operation,
            resource_type,
            resource_name,
            super_users,
            acls_enabled,
        ) == allowed(
            rules,
            principal,
            host,
            operation,
            resource_type,
            resource_name,
            super_users,
            acls_enabled,
        ),
{
    assert forall|permission: AclPermissionType| has_rule(
        rules.insert(b),
        permission,
        principal,
        host,
        operation,
        resource_type,
        resource_name,
    ) == has_rule(
        rules,
        permission,
        principal,
        host,
        operation,
        resource_type,
        resource_name,
    ) by {
        if has_rule(
            rules,
            permission,
            principal,
            host,
            operation,
            resource_type,
            resource_name,
        ) {
            let x = choose|x: Rule| #[trigger]
                rules.contains(x) && x.permission_type == permission.number() && concerns(
                    x,
                    resource_type,
                    resource_name,
                ) && applies(x, principal, host, operation, resource_type, resource_name);
            assert(rules.insert(b).contains(x));
        }
        if has_rule(
            rules.insert(b),
            permission,
            principal,
            host,
            operation,
            resource_type,
            resource_name,
        ) {
            let x = choose|x: Rule| #[trigger]
                rules.insert(b).contains(x) && x.permission_type == permission.number() && concerns(
                    x,
                    resource_type,
                    resource_name,
                ) && applies(x, principal, host, operation, resource_type, resource_name);
            assert(rules.contains(x));
        }
    }
}

} // verus!
