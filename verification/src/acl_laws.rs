//! Who may do what under the rules.
use crate::acl::{
    allowed, applies, concerns, covers_name, is_super_user, passes, star, AclOperation,
    AclPermissionType, ResourcePatternType, ResourceType, Rule,
};
use crate::glob::glob;
use crate::text::stands_at;
use vstd::prelude::*;

verus! {

/// Whether a rule names a resource: by its own name, by a star, or by how the name begins.
pub open spec fn names_resource(b: Rule, name: Seq<char>) -> bool {
    ||| b.resource_name == seq!['*']
    ||| b.pattern_type == 1
    ||| b.pattern_type == 3 && b.resource_name == name
    ||| b.pattern_type == 4 && b.resource_name.len() <= name.len() && name.take(
        b.resource_name.len() as int,
    ) == b.resource_name
    ||| b.pattern_type == 2 && glob(b.resource_name, name)
}

/// Whether a rule is about what somebody at a host wants to do to a resource: it names the kind
/// and the resource, it names the principal or everybody, the host or every host, and the
/// operation or every operation.
pub open spec fn is_about(
    b: Rule,
    principal: Seq<char>,
    host: Seq<char>,
    operation: u8,
    resource_type: u8,
    resource_name: Seq<char>,
) -> bool {
    &&& b.resource_type == resource_type
    &&& names_resource(b, resource_name)
    &&& b.principal == principal || b.principal == seq!['*']
    &&& b.host == host || b.host == seq!['*']
    &&& b.operation == operation || b.operation == 1 || b.operation == 2
}

proof fn lemma_about(
    b: Rule,
    principal: Seq<char>,
    host: Seq<char>,
    operation: u8,
    resource_type: u8,
    resource_name: Seq<char>,
)
    requires
        is_about(b, principal, host, operation, resource_type, resource_name),
    ensures
        concerns(b, resource_type, resource_name),
        applies(b, principal, host, operation, resource_type, resource_name),
{
    if b.pattern_type == 4 && b.resource_name.len() <= resource_name.len() && resource_name.take(
        b.resource_name.len() as int,
    ) == b.resource_name {
        assert(resource_name.subrange(0, b.resource_name.len() as int) =~= resource_name.take(
            b.resource_name.len() as int,
        ));
        assert(stands_at(resource_name, b.resource_name, 0));
    }
    assert(covers_name(b, resource_name));
}

/// Somebody may do what a rule allows, as long as no rule denies anything.
pub proof fn who_is_allowed_may(
    rules: Set<Rule>,
    b: Rule,
    principal: Seq<char>,
    host: Seq<char>,
    operation: u8,
    resource_type: u8,
    resource_name: Seq<char>,
    super_users: Seq<String>,
    acls_enabled: bool,
)
    requires
        rules.contains(b),
        b.permission_type == 3,
        is_about(b, principal, host, operation, resource_type, resource_name),
        forall|d: Rule| #[trigger] rules.contains(d) ==> d.permission_type != 2,
    ensures
        allowed(
            rules,
            principal,
            host,
            operation,
            resource_type,
            resource_name,
            super_users,
            acls_enabled,
        ),
{
    lemma_about(b, principal, host, operation, resource_type, resource_name);
    assert(rules.contains(b));
}

/// Nobody may do what a rule denies, whatever another rule allows, unless access is not controlled
/// or it is a super user.
pub proof fn who_is_denied_may_not(
    rules: Set<Rule>,
    b: Rule,
    principal: Seq<char>,
    host: Seq<char>,
    operation: u8,
    resource_type: u8,
    resource_name: Seq<char>,
    super_users: Seq<String>,
)
    requires
        rules.contains(b),
        b.permission_type == 2,
        is_about(b, principal, host, operation, resource_type, resource_name),
        forall|i: int|
            0 <= i < super_users.len() ==> (#[trigger] super_users[i])@ != principal
                && super_users[i]@ != seq!['*'],
    ensures
        !allowed(
            rules,
            principal,
            host,
            operation,
            resource_type,
            resource_name,
            super_users,
            true,
        ),
{
    lemma_about(b, principal, host, operation, resource_type, resource_name);
    assert(rules.contains(b));
    assert(!is_super_user(principal, super_users));
}

/// Whoever may do something is a super user, or has a rule that allows it: one about this kind of
/// resource and this resource, for this principal or for everybody, for this operation or for
/// every one, and for this host, every host, or a range of hosts.
pub proof fn nobody_may_without_a_rule(
    rules: Set<Rule>,
    principal: Seq<char>,
    host: Seq<char>,
    operation: u8,
    resource_type: u8,
    resource_name: Seq<char>,
    super_users: Seq<String>,
)
    requires
        allowed(
            rules,
            principal,
            host,
            operation,
            resource_type,
            resource_name,
            super_users,
            true,
        ),
        !is_super_user(principal, super_users),
    ensures
        exists|b: Rule|
            {
                &&& #[trigger] rules.contains(b)
                &&& b.permission_type == 3
                &&& b.resource_type == resource_type
                &&& b.principal == principal || b.principal == seq!['*']
                &&& b.operation == operation || b.operation == 1 || b.operation == 2
                &&& b.host == host || b.host == seq!['*'] || b.host.contains('/')
                &&& b.pattern_type == 3 ==> b.resource_name == resource_name || b.resource_name
                    == seq!['*']
                &&& b.pattern_type == 4 && b.resource_name != seq!['*'] ==> b.resource_name.len()
                    <= resource_name.len() && resource_name.take(b.resource_name.len() as int)
                    == b.resource_name
            },
{
    let b = choose|b: Rule| #[trigger]
        rules.contains(b) && b.permission_type == AclPermissionType::Allow.number() && concerns(
            b,
            resource_type,
            resource_name,
        ) && applies(b, principal, host, operation, resource_type, resource_name);
    assert(rules.contains(b));
    if b.pattern_type == 4 && b.resource_name != star() {
        assert(stands_at(resource_name, b.resource_name, 0));
        assert(resource_name.take(b.resource_name.len() as int) =~= resource_name.subrange(
            0,
            b.resource_name.len() as int,
        ));
    }
}

/// Super users are those who are listed, and everybody if a star is.
pub proof fn super_users_are_listed(principal: Seq<char>, super_users: Seq<String>, i: int)
    ensures
        0 <= i < super_users.len() && super_users[i]@ == principal ==> is_super_user(
            principal,
            super_users,
        ),
        0 <= i < super_users.len() && super_users[i]@ == seq!['*'] ==> is_super_user(
            principal,
            super_users,
        ),
        is_super_user(principal, super_users) ==> exists|k: int|
            0 <= k < super_users.len() && ((#[trigger] super_users[k])@ == principal
                || super_users[k]@ == seq!['*']),
{
}

/// Where access is not controlled everybody may do everything.
pub proof fn everything_is_allowed_without_control(
    rules: Set<Rule>,
    principal: Seq<char>,
    host: Seq<char>,
    operation: u8,
    resource_type: u8,
    resource_name: Seq<char>,
    super_users: Seq<String>,
)
    ensures
        allowed(
            rules,
            principal,
            host,
            operation,
            resource_type,
            resource_name,
            super_users,
            false,
        ),
{
}

/// A filter finds the rules that agree with everything it names, and what it leaves open does not
/// matter. It finds the rule that it was made of.
pub proof fn a_filter_finds_what_it_names(filter: Rule, b: Rule)
    ensures
        passes(filter, b) ==> {
            &&& filter.resource_type > 1 ==> b.resource_type == filter.resource_type
            &&& filter.operation > 1 ==> b.operation == filter.operation
            &&& filter.permission_type > 1 ==> b.permission_type == filter.permission_type
            &&& filter.resource_name.len() > 0 && filter.resource_name != seq!['*']
                ==> b.resource_name == filter.resource_name
            &&& filter.principal.len() > 0 && filter.principal != seq!['*'] ==> b.principal
                == filter.principal
            &&& filter.host.len() > 0 && filter.host != seq!['*'] ==> b.host == filter.host
        },
        passes(b, b),
        filter.resource_type <= 1 && filter.operation <= 1 && filter.permission_type <= 1 && (
        filter.resource_name.len() == 0 || filter.resource_name == seq!['*']) && (
        filter.principal.len() == 0 || filter.principal == seq!['*']) && (filter.host.len() == 0
            || filter.host == seq!['*']) ==> passes(filter, b),
        passes(filter, b) && b.resource_type == filter.resource_type && b.operation
            == filter.operation && b.permission_type == filter.permission_type && b.resource_name
            == filter.resource_name && b.principal == filter.principal && b.host == filter.host
            ==> passes(b, filter),
{
}

/// Patterns that match two texts match, put together, the texts put together.
pub proof fn patterns_go_together(p: Seq<char>, t: Seq<char>, q: Seq<char>, u: Seq<char>)
    requires
        glob(p, t),
        glob(q, u),
    ensures
        glob(p + q, t + u),
    decreases p.len(), t.len(),
{
    if p.len() == 0 {
        assert(p + q =~= q);
        assert(t + u =~= u);
    } else {
        assert((p + q).skip(1) =~= p.skip(1) + q);
        assert((p + q)[0] == p[0]);
        if p[0] == '*' {
            if glob(p.skip(1), t) {
                patterns_go_together(p.skip(1), t, q, u);
            } else {
                assert((t + u).skip(1) =~= t.skip(1) + u);
                patterns_go_together(p, t.skip(1), q, u);
            }
        } else {
            assert((t + u).skip(1) =~= t.skip(1) + u);
            assert((t + u)[0] == t[0]);
            patterns_go_together(p.skip(1), t.skip(1), q, u);
        }
    }
}

/// A pattern that ends in a star and has no other matches exactly the texts that begin as it
/// does.
pub proof fn a_star_at_the_end_matches_beginnings(p: Seq<char>, t: Seq<char>)
    requires
        forall|i: int| 0 <= i < p.len() ==> p[i] != '*',
    ensures
        glob(p.push('*'), t) <==> p.len() <= t.len() && t.take(p.len() as int) == p,
    decreases p.len(),
{
    let q = p.push('*');
    if p.len() == 0 {
        assert(q =~= seq!['*']);
        crate::glob::star_matches_all(t);
        assert(t.take(0) =~= p);
    } else {
        assert(q[0] == p[0]);
        assert(q.skip(1) =~= p.skip(1).push('*'));
        assert forall|i: int| 0 <= i < p.skip(1).len() implies p.skip(1)[i] != '*' by {
            assert(p.skip(1)[i] == p[i + 1]);
        }
        if t.len() > 0 {
            let rest = t.skip(1);
            let n = p.len() - 1;
            a_star_at_the_end_matches_beginnings(p.skip(1), rest);
            if p.len() <= t.len() && t.take(p.len() as int) == p {
                assert(t.take(p.len() as int)[0] == p[0]);
                assert(rest.take(n) =~= t.take(p.len() as int).skip(1));
            }
            if p[0] == t[0] && n <= rest.len() && rest.take(n) == p.skip(1) {
                assert forall|i: int| 0 <= i < p.len() implies t.take(p.len() as int)[i]
                    == p[i] by {
                    if i > 0 {
                        assert(rest.take(n)[i - 1] == p.skip(1)[i - 1]);
                    }
                }
                assert(t.take(p.len() as int) =~= p);
            }
        }
    }
}

/// The numbers that stand for kinds, patterns, operations and permissions each stand for one.
pub proof fn numbers_stand_for_one_thing(
    a: ResourceType,
    b: ResourceType,
    c: ResourcePatternType,
    d: ResourcePatternType,
    e: AclOperation,
    f: AclOperation,
    g: AclPermissionType,
    h: AclPermissionType,
)
    ensures
        a.number() == b.number() ==> a == b,
        c.number() == d.number() ==> c == d,
        e.number() == f.number() ==> e == f,
        g.number() == h.number() ==> g == h,
{
}

} // verus!
