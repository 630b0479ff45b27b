//! Access control: who may do what with which resource, from where.
use crate::glob::{glob, glob_match};
use crate::ip::{cidr_contains, in_cidr, ip_address, parse_ip};
use crate::text::{chars_of, find_char, matches_at, same_text, stands_at};
use vstd::prelude::*;
use vstd::string::*;

verus! {

/// The kinds of resources.
#[derive(Debug, Clone, Copy, PartialEq, Eq, Hash, Structural)]
pub enum ResourceType {
    Unknown,
    Any,
    Topic,
    Group,
    Cluster,
    TransactionalId,
    User,
}

/// How the resource name of a rule is read.
#[derive(Debug, Clone, Copy, PartialEq, Eq, Hash, Structural)]
pub enum ResourcePatternType {
    Unknown,
    Any,
    Match,
    Literal,
    Prefixed,
}

/// What can be done with a resource.
#[derive(Debug, Clone, Copy, PartialEq, Eq, Hash, Structural)]
pub enum AclOperation {
    Unknown,
    Any,
    All,
    Read,
    Write,
    Create,
    Delete,
    Alter,
    Describe,
    ClusterAction,
    DescribeConfigs,
    AlterConfigs,
    IdempotentWrite,
}

/// Whether a rule allows or denies.
#[derive(Debug, Clone, Copy, PartialEq, Eq, Hash, Structural)]
pub enum AclPermissionType {
    Unknown,
    Any,
    Deny,
    Allow,
}

impl ResourceType {
    /// The number that stands for the kind in messages.
    pub fn code(self) -> (r: u8)
        ensures
            r == self.number(),
    {
        match self {
            ResourceType::Unknown => 0,
            ResourceType::Any => 1,
            ResourceType::Topic => 2,
            ResourceType::Group => 3,
            ResourceType::Cluster => 4,
            ResourceType::TransactionalId => 5,
            ResourceType::User => 6,
        }
    }

    pub open spec fn number(self) -> u8 {
        match self {
            ResourceType::Unknown => 0,
            ResourceType::Any => 1,
            ResourceType::Topic => 2,
            ResourceType::Group => 3,
            ResourceType::Cluster => 4,
            ResourceType::TransactionalId => 5,
            ResourceType::User => 6,
        }
    }
}

impl From<u8> for ResourceType {
    fn from(v: u8) -> (r: Self) {
        match v {
            1 => ResourceType::Any,
            2 => ResourceType::Topic,
            3 => ResourceType::Group,
            4 => ResourceType::Cluster,
            5 => ResourceType::TransactionalId,
            6 => ResourceType::User,
            _ => ResourceType::Unknown,
        }
    }
}

impl vstd::std_specs::convert::FromSpecImpl<u8> for ResourceType {
    open spec fn obeys_from_spec() -> bool {
        true
    }

    open spec fn from_spec(v: u8) -> Self {
        if v == 1 {
            ResourceType::Any
        } else if v == 2 {
            ResourceType::Topic
        } else if v == 3 {
            ResourceType::Group
        } else if v == 4 {
            ResourceType::Cluster
        } else if v == 5 {
            ResourceType::TransactionalId
        } else if v == 6 {
            ResourceType::User
        } else {
            ResourceType::Unknown
        }
    }
}

impl ResourcePatternType {
    /// The number that stands for the kind in messages.
    pub fn code(self) -> (r: u8)
        ensures
            r == self.number(),
    {
        match self {
            ResourcePatternType::Unknown => 0,
            ResourcePatternType::Any => 1,
            ResourcePatternType::Match => 2,
            ResourcePatternType::Literal => 3,
            ResourcePatternType::Prefixed => 4,
        }
    }

    pub open spec fn number(self) -> u8 {
        match self {
            ResourcePatternType::Unknown => 0,
            ResourcePatternType::Any => 1,
            ResourcePatternType::Match => 2,
            ResourcePatternType::Literal => 3,
            ResourcePatternType::Prefixed => 4,
        }
    }
}

impl From<u8> for ResourcePatternType {
    fn from(v: u8) -> (r: Self) {
        match v {
            1 => ResourcePatternType::Any,
            2 => ResourcePatternType::Match,
            3 => ResourcePatternType::Literal,
            4 => ResourcePatternType::Prefixed,
            _ => ResourcePatternType::Unknown,
        }
    }
}

impl vstd::std_specs::convert::FromSpecImpl<u8> for ResourcePatternType {
    open spec fn obeys_from_spec() -> bool {
        true
    }

    open spec fn from_spec(v: u8) -> Self {
        if v == 1 {
            ResourcePatternType::Any
        } else if v == 2 {
            ResourcePatternType::Match
        } else if v == 3 {
            ResourcePatternType::Literal
        } else if v == 4 {
            ResourcePatternType::Prefixed
        } else {
            ResourcePatternType::Unknown
        }
    }
}

impl AclOperation {
    /// The number that stands for the operation in messages.
    pub fn code(self) -> (r: u8)
        ensures
            r == self.number(),
    {
        match self {
            AclOperation::Unknown => 0,
            AclOperation::Any => 1,
            AclOperation::All => 2,
            AclOperation::Read => 3,
            AclOperation::Write => 4,
            AclOperation::Create => 5,
            AclOperation::Delete => 6,
            AclOperation::Alter => 7,
            AclOperation::Describe => 8,
            AclOperation::ClusterAction => 9,
            AclOperation::DescribeConfigs => 10,
            AclOperation::AlterConfigs => 11,
            AclOperation::IdempotentWrite => 12,
        }
    }

    pub open spec fn number(self) -> u8 {
        match self {
            AclOperation::Unknown => 0,
            AclOperation::Any => 1,
            AclOperation::All => 2,
            AclOperation::Read => 3,
            AclOperation::Write => 4,
            AclOperation::Create => 5,
            AclOperation::Delete => 6,
            AclOperation::Alter => 7,
            AclOperation::Describe => 8,
            AclOperation::ClusterAction => 9,
            AclOperation::DescribeConfigs => 10,
            AclOperation::AlterConfigs => 11,
            AclOperation::IdempotentWrite => 12,
        }
    }
}

impl From<u8> for AclOperation {
    fn from(v: u8) -> (r: Self) {
        match v {
            1 => AclOperation::Any,
            2 => AclOperation::All,
            3 => AclOperation::Read,
            4 => AclOperation::Write,
            5 => AclOperation::Create,
            6 => AclOperation::Delete,
            7 => AclOperation::Alter,
            8 => AclOperation::Describe,
            9 => AclOperation::ClusterAction,
            10 => AclOperation::DescribeConfigs,
            11 => AclOperation::AlterConfigs,
            12 => AclOperation::IdempotentWrite,
            _ => AclOperation::Unknown,
        }
    }
}

impl vstd::std_specs::convert::FromSpecImpl<u8> for AclOperation {
    open spec fn obeys_from_spec() -> bool {
        true
    }

    open spec fn from_spec(v: u8) -> Self {
        if v == 1 {
            AclOperation::Any
        } else if v == 2 {
            AclOperation::All
        } else if v == 3 {
            AclOperation::Read
        } else if v == 4 {
            AclOperation::Write
        } else if v == 5 {
            AclOperation::Create
        } else if v == 6 {
            AclOperation::Delete
        } else if v == 7 {
            AclOperation::Alter
        } else if v == 8 {
            AclOperation::Describe
        } else if v == 9 {
            AclOperation::ClusterAction
        } else if v == 10 {
            AclOperation::DescribeConfigs
        } else if v == 11 {
            AclOperation::AlterConfigs
        } else if v == 12 {
            AclOperation::IdempotentWrite
        } else {
            AclOperation::Unknown
        }
    }
}

impl AclPermissionType {
    /// The number that stands for the permission in messages.
    pub fn code(self) -> (r: u8)
        ensures
            r == self.number(),
    {
        match self {
            AclPermissionType::Unknown => 0,
            AclPermissionType::Any => 1,
            AclPermissionType::Deny => 2,
            AclPermissionType::Allow => 3,
        }
    }

    pub open spec fn number(self) -> u8 {
        match self {
            AclPermissionType::Unknown => 0,
            AclPermissionType::Any => 1,
            AclPermissionType::Deny => 2,
            AclPermissionType::Allow => 3,
        }
    }
}

impl From<u8> for AclPermissionType {
    fn from(v: u8) -> (r: Self) {
        match v {
            1 => AclPermissionType::Any,
            2 => AclPermissionType::Deny,
            3 => AclPermissionType::Allow,
            _ => AclPermissionType::Unknown,
        }
    }
}

impl vstd::std_specs::convert::FromSpecImpl<u8> for AclPermissionType {
    open spec fn obeys_from_spec() -> bool {
        true
    }

    open spec fn from_spec(v: u8) -> Self {
        if v == 1 {
            AclPermissionType::Any
        } else if v == 2 {
            AclPermissionType::Deny
        } else if v == 3 {
            AclPermissionType::Allow
        } else {
            AclPermissionType::Unknown
        }
    }
}

/// A rule.
///
/// Its host is a star, an address, or a range of addresses (`"10.0.0.0/8"`).
#[derive(Debug, Clone, PartialEq, Eq, Hash)]
pub struct AclBinding {
    pub resource_type: u8,
    pub resource_name: String,
    pub pattern_type: u8,
    pub principal: String,
    pub host: String,
    pub operation: u8,
    pub permission_type: u8,
}

/// What a rule says.
pub struct Rule {
    pub resource_type: u8,
    pub resource_name: Seq<char>,
    pub pattern_type: u8,
    pub principal: Seq<char>,
    pub host: Seq<char>,
    pub operation: u8,
    pub permission_type: u8,
}

impl AclBinding {
    pub open spec fn view(self) -> Rule {
        Rule {
            resource_type: self.resource_type,
            resource_name: self.resource_name@,
            pattern_type: self.pattern_type,
            principal: self.principal@,
            host: self.host@,
            operation: self.operation,
            permission_type: self.permission_type,
        }
    }

    /// Whether two rules say the same.
    pub fn same(&self, other: &AclBinding) -> (r: bool)
        ensures
            r == (self@ == other@),
    {
        self.resource_type == other.resource_type && self.pattern_type == other.pattern_type
            && self.operation == other.operation && self.permission_type == other.permission_type
            && same_text(self.resource_name.as_str(), other.resource_name.as_str()) && same_text(
            self.principal.as_str(),
            other.principal.as_str(),
        ) && same_text(self.host.as_str(), other.host.as_str())
    }

    /// A copy of the rule.
    pub fn copy(&self) -> (r: AclBinding)
        ensures
            r@ == self@,
    {
        AclBinding {
            resource_type: self.resource_type,
            resource_name: self.resource_name.clone(),
            pattern_type: self.pattern_type,
            principal: self.principal.clone(),
            host: self.host.clone(),
            operation: self.operation,
            permission_type: self.permission_type,
        }
    }
}

/// The text that stands for any text.
pub open spec fn star() -> Seq<char> {
    seq!['*']
}

fn is_star(s: &str) -> (r: bool)
    ensures
        r == (s@ == star()),
{
    proof {
        reveal_strlit("*");
        assert("*"@ =~= star());
    }
    same_text(s, "*")
}

/// Whether the rule is about exactly one resource, which it can be found by.
pub open spec fn by_name(b: Rule) -> bool {
    b.pattern_type == ResourcePatternType::Literal.number() && b.resource_name != star()
}

/// Whether the rule has to be looked at when the resource is used.
pub open spec fn concerns(b: Rule, resource_type: u8, resource_name: Seq<char>) -> bool {
    b.resource_type == resource_type && (by_name(b) ==> b.resource_name == resource_name)
}

/// Whether the rule covers a host.
pub open spec fn covers_host(b: Rule, host: Seq<char>) -> bool {
    b.host == star() || b.host == host || (b.host.contains('/') && (ip_address(host) matches Some(ip)
        && in_cidr(b.host, ip)))
}

/// Whether the rule covers a resource name. One with the pattern type `Any` covers every name.
pub open spec fn covers_name(b: Rule, name: Seq<char>) -> bool {
    ||| b.resource_name == star()
    ||| b.pattern_type == ResourcePatternType::Any.number()
    ||| if b.pattern_type == ResourcePatternType::Prefixed.number() {
        stands_at(name, b.resource_name, 0)
    } else if b.pattern_type == ResourcePatternType::Match.number() {
        glob(b.resource_name, name)
    } else {
        b.resource_name == name
    }
}

/// Whether the rule applies to what `principal`, at `host`, wants to do.
pub open spec fn applies(
    b: Rule,
    principal: Seq<char>,
    host: Seq<char>,
    operation: u8,
    resource_type: u8,
    resource_name: Seq<char>,
) -> bool {
    &&& b.resource_type == ResourceType::Any.number() || b.resource_type == resource_type
    &&& b.operation == AclOperation::Any.number() || b.operation == AclOperation::All.number()
        || b.operation == operation
    &&& b.principal == star() || b.principal == principal
    &&& covers_host(b, host)
    &&& covers_name(b, resource_name)
}

/// Whether `rules` hold one with that permission which concerns the resource and applies.
pub open spec fn has_rule(
    rules: Set<Rule>,
    permission: AclPermissionType,
    principal: Seq<char>,
    host: Seq<char>,
    operation: u8,
    resource_type: u8,
    resource_name: Seq<char>,
) -> bool {
    exists|b: Rule| #[trigger]
        rules.contains(b) && b.permission_type == permission.number() && concerns(
            b,
            resource_type,
            resource_name,
        ) && applies(b, principal, host, operation, resource_type, resource_name)
}

pub open spec fn is_super_user(principal: Seq<char>, super_users: Seq<String>) -> bool {
    exists|i: int|
        0 <= i < super_users.len() && ((#[trigger] super_users[i])@ == principal
            || super_users[i]@ == star())
}

/// Whether `principal`, at `host`, may do what it wants: yes where access is not controlled or
/// it is a super user, and otherwise where some rule allows it and none denies it.
pub open spec fn allowed(
    rules: Set<Rule>,
    principal: Seq<char>,
    host: Seq<char>,
    operation: u8,
    resource_type: u8,
    resource_name: Seq<char>,
    super_users: Seq<String>,
    acls_enabled: bool,
) -> bool {
    ||| !acls_enabled
    ||| is_super_user(principal, super_users)
    ||| {
        &&& !has_rule(
            rules,
            AclPermissionType::Deny,
            principal,
            host,
            operation,
            resource_type,
            resource_name,
        )
        &&& has_rule(
            rules,
            AclPermissionType::Allow,
            principal,
            host,
            operation,
            resource_type,
            resource_name,
        )
    }
}

/// Whether `filter` lets a rule through. Zero, one, an empty text and a star let everything
/// through; the pattern type is not looked at.
pub open spec fn passes(filter: Rule, b: Rule) -> bool {
    &&& filter.resource_type <= 1 || filter.resource_type == b.resource_type
    &&& open_text(filter.resource_name) || filter.resource_name == b.resource_name
    &&& open_text(filter.principal) || filter.principal == b.principal
    &&& open_text(filter.host) || filter.host == b.host
    &&& filter.operation <= 1 || filter.operation == b.operation
    &&& filter.permission_type <= 1 || filter.permission_type == b.permission_type
}

pub open spec fn open_text(s: Seq<char>) -> bool {
    s.len() == 0 || s == star()
}

fn is_open(s: &str) -> (r: bool)
    ensures
        r == open_text(s@),
{
    s.is_empty() || is_star(s)
}

pub fn check_passes(filter: &AclBinding, b: &AclBinding) -> (r: bool)
    ensures
        r == passes(filter@, b@),
{
    (filter.resource_type <= 1 || filter.resource_type == b.resource_type) && (is_open(
        filter.resource_name.as_str(),
    ) || same_text(filter.resource_name.as_str(), b.resource_name.as_str())) && (is_open(
        filter.principal.as_str(),
    ) || same_text(filter.principal.as_str(), b.principal.as_str())) && (is_open(
        filter.host.as_str(),
    ) || same_text(filter.host.as_str(), b.host.as_str())) && (filter.operation <= 1
        || filter.operation == b.operation) && (filter.permission_type <= 1
        || filter.permission_type == b.permission_type)
}

/// Whether a rule applies.
pub fn matches_rule(
    rule: &AclBinding,
    principal: &str,
    host: &str,
    operation: u8,
    resource_type: u8,
    resource_name: &str,
) -> (r: bool)
    ensures
        r == applies(rule@, principal@, host@, operation, resource_type, resource_name@),
{
    if rule.resource_type != ResourceType::Any.code() && rule.resource_type != resource_type {
        return false;
    }
    if rule.operation != AclOperation::Any.code() && rule.operation != AclOperation::All.code()
        && rule.operation != operation {
        return false;
    }
    if !is_star(rule.principal.as_str()) && !same_text(rule.principal.as_str(), principal) {
        return false;
    }
    if !is_star(rule.host.as_str()) && !same_text(rule.host.as_str(), host) {
        let rule_host: Vec<char> = chars_of(rule.host.as_str());
        let host_chars: Vec<char> = chars_of(host);
        let ranged: bool = match find_char(rule_host.as_slice(), '/') {
            Some(i) => {
                assert(rule_host@[i as int] == '/');
                true
            },
            None => {
                assert(!rule_host@.contains('/'));
                false
            },
        };
        let in_range: bool = match parse_ip(host_chars.as_slice()) {
            Some(ip) => cidr_contains(rule.host.as_str(), ip),
            None => false,
        };
        if !ranged || !in_range {
            return false;
        }
    }
    if is_star(rule.resource_name.as_str()) {
        return true;
    }
    let pattern: ResourcePatternType = ResourcePatternType::from(rule.pattern_type);
    match pattern {
        ResourcePatternType::Prefixed => {
            let name: Vec<char> = chars_of(resource_name);
            let prefix: Vec<char> = chars_of(rule.resource_name.as_str());
            matches_at(name.as_slice(), prefix.as_slice(), 0)
        },
        ResourcePatternType::Match => glob_match(rule.resource_name.as_str(), resource_name),
        ResourcePatternType::Any => true,
        _ => same_text(rule.resource_name.as_str(), resource_name),
    }
}

} // verus!
