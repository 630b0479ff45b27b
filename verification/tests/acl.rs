use bifrox_server::acl::{
    matches_rule, AclBinding, AclOperation, AclPermissionType, ResourcePatternType, ResourceType,
};
use bifrox_server::acl_manager::AclManager;
use bifrox_server::glob::glob_match;

fn binding(
    resource_type: ResourceType,
    resource_name: &str,
    pattern_type: ResourcePatternType,
    principal: &str,
    host: &str,
    operation: AclOperation,
    permission_type: AclPermissionType,
) -> AclBinding {
    AclBinding {
        resource_type: resource_type.code(),
        resource_name: resource_name.to_string(),
        pattern_type: pattern_type.code(),
        principal: principal.to_string(),
        host: host.to_string(),
        operation: operation.code(),
        permission_type: permission_type.code(),
    }
}

fn allows(
    mgr: &AclManager,
    principal: &str,
    host: &str,
    operation: AclOperation,
    resource: ResourceType,
    name: &str,
) -> bool {
    mgr.authorize(principal, host, operation.code(), resource.code(), name, &[], true)
}

#[test]
fn glob_match_supports_wildcard_anywhere() {
    assert!(glob_match("*", "anything"));
    assert!(glob_match("orders-*", "orders-2024"));
    assert!(glob_match("*-eu", "orders-eu"));
    assert!(glob_match("orders-*-eu", "orders-42-eu"));
    assert!(!glob_match("orders-*-eu", "orders-42-us"));
    assert!(glob_match("exact", "exact"));
    assert!(!glob_match("exact", "exactly"));
}

#[test]
fn literal_deny_beats_literal_allow() {
    let mut mgr = AclManager::new();
    mgr.add_acl(binding(
        ResourceType::Topic,
        "orders",
        ResourcePatternType::Literal,
        "*",
        "*",
        AclOperation::Read,
        AclPermissionType::Allow,
    ));
    mgr.add_acl(binding(
        ResourceType::Topic,
        "orders",
        ResourcePatternType::Literal,
        "User:bob",
        "*",
        AclOperation::Read,
        AclPermissionType::Deny,
    ));

    assert!(mgr.authorize(
        "User:alice",
        "10.0.0.1",
        AclOperation::Read.code(),
        ResourceType::Topic.code(),
        "orders",
        &[],
        true,
    ));
    assert!(!mgr.authorize(
        "User:bob",
        "10.0.0.1",
        AclOperation::Read.code(),
        ResourceType::Topic.code(),
        "orders",
        &[],
        true,
    ));
}

#[test]
fn prefixed_and_match_patterns_apply_across_matching_names() {
    let mut mgr = AclManager::new();
    mgr.add_acl(binding(
        ResourceType::Topic,
        "orders-",
        ResourcePatternType::Prefixed,
        "*",
        "*",
        AclOperation::Write,
        AclPermissionType::Allow,
    ));
    mgr.add_acl(binding(
        ResourceType::Topic,
        "*-eu",
        ResourcePatternType::Match,
        "*",
        "*",
        AclOperation::Read,
        AclPermissionType::Allow,
    ));

    let topic = ResourceType::Topic;
    assert!(allows(&mgr, "User:x", "1.2.3.4", AclOperation::Write, topic, "orders-2024"));
    assert!(allows(&mgr, "User:x", "1.2.3.4", AclOperation::Read, topic, "payments-eu"));
    assert!(!allows(&mgr, "User:x", "1.2.3.4", AclOperation::Read, topic, "payments-us"));
}

#[test]
fn cidr_host_restricts_by_ip_range() {
    let mut mgr = AclManager::new();
    mgr.add_acl(binding(
        ResourceType::Cluster,
        "*",
        ResourcePatternType::Literal,
        "*",
        "10.0.0.0/8",
        AclOperation::ClusterAction,
        AclPermissionType::Allow,
    ));

    let action = AclOperation::ClusterAction;
    let cluster = ResourceType::Cluster;
    assert!(allows(&mgr, "User:x", "10.1.2.3", action, cluster, "bifrox-cluster"));
    assert!(!allows(&mgr, "User:x", "192.168.1.1", action, cluster, "bifrox-cluster"));
}

#[test]
fn remove_and_list_acls_round_trip_across_both_buckets() {
    let mut mgr = AclManager::new();
    let literal = binding(
        ResourceType::Group,
        "my-group",
        ResourcePatternType::Literal,
        "User:a",
        "*",
        AclOperation::Read,
        AclPermissionType::Allow,
    );
    let prefixed = binding(
        ResourceType::Group,
        "svc-",
        ResourcePatternType::Prefixed,
        "User:a",
        "*",
        AclOperation::Read,
        AclPermissionType::Allow,
    );
    assert!(mgr.add_acl(literal.clone()));
    assert!(mgr.add_acl(prefixed.clone()));
    assert!(
        !mgr.add_acl(literal.clone()),
        "duplicate insert should report false"
    );

    let all = mgr.list_acls(&binding(
        ResourceType::Any,
        "",
        ResourcePatternType::Any,
        "",
        "",
        AclOperation::Any,
        AclPermissionType::Any,
    ));
    assert_eq!(all.len(), 2);

    assert!(mgr.remove_acl(&literal));
    assert!(!mgr.contains(&literal));
    assert!(mgr.contains(&prefixed));
    assert!(!mgr.is_empty());

    assert!(mgr.remove_acl(&prefixed));
    assert!(mgr.is_empty());
}

#[test]
fn without_rules_only_super_users_are_allowed() {
    let mgr = AclManager::new();
    let read = AclOperation::Read.code();
    let topic = ResourceType::Topic.code();
    let supers = vec!["User:root".to_string()];
    assert!(mgr.authorize("User:root", "h", read, topic, "t", &supers, true));
    assert!(!mgr.authorize("User:bob", "h", read, topic, "t", &supers, true));
    assert!(mgr.authorize("User:bob", "h", read, topic, "t", &supers, false));
}

#[test]
fn a_rule_on_another_resource_changes_nothing() {
    let mut mgr = AclManager::new();
    mgr.add_acl(binding(
        ResourceType::Topic,
        "a",
        ResourcePatternType::Literal,
        "*",
        "*",
        AclOperation::All,
        AclPermissionType::Allow,
    ));
    assert!(allows(&mgr, "User:x", "h", AclOperation::Write, ResourceType::Topic, "a"));
    assert!(!allows(&mgr, "User:x", "h", AclOperation::Write, ResourceType::Topic, "b"));
    assert!(!allows(&mgr, "User:x", "h", AclOperation::Write, ResourceType::Group, "a"));
}

#[test]
fn one_rule_matches_by_principal_host_and_operation() {
    let rule = binding(
        ResourceType::Topic,
        "t",
        ResourcePatternType::Literal,
        "User:a",
        "10.0.0.0/8",
        AclOperation::Read,
        AclPermissionType::Allow,
    );
    let read = AclOperation::Read.code();
    let topic = ResourceType::Topic.code();
    assert!(matches_rule(&rule, "User:a", "10.1.1.1", read, topic, "t"));
    assert!(!matches_rule(&rule, "User:b", "10.1.1.1", read, topic, "t"));
    assert!(!matches_rule(&rule, "User:a", "11.1.1.1", read, topic, "t"));
    assert!(!matches_rule(&rule, "User:a", "10.1.1.1", AclOperation::Write.code(), topic, "t"));
    assert!(!matches_rule(&rule, "User:a", "10.1.1.1", read, topic, "u"));
}

#[test]
fn codes_stand_for_what_they_came_from() {
    assert_eq!(AclOperation::from(3), AclOperation::Read);
    assert_eq!(AclOperation::Read.code(), 3);
    assert_eq!(ResourceType::from(2), ResourceType::Topic);
    assert_eq!(ResourceType::from(200), ResourceType::Unknown);
    assert_eq!(AclPermissionType::from(3).code(), 3);
}

#[test]
fn a_rule_of_any_pattern_covers_every_name() {
    let rule = |pattern: ResourcePatternType, permission: AclPermissionType| {
        binding(ResourceType::Topic, "orders", pattern, "*", "*", AclOperation::Read, permission)
    };
    let read = AclOperation::Read.code();
    let topic = ResourceType::Topic.code();
    let any = rule(ResourcePatternType::Any, AclPermissionType::Allow);
    assert!(matches_rule(&any, "User:x", "1.2.3.4", read, topic, "payments"));
    let glob = rule(ResourcePatternType::Match, AclPermissionType::Allow);
    assert!(!matches_rule(&glob, "User:x", "1.2.3.4", read, topic, "payments"));

    let mut mgr = AclManager::new();
    mgr.add_acl(binding(
        ResourceType::Topic,
        "*",
        ResourcePatternType::Literal,
        "*",
        "*",
        AclOperation::Read,
        AclPermissionType::Allow,
    ));
    let may = |mgr: &AclManager| {
        allows(mgr, "User:x", "h", AclOperation::Read, ResourceType::Topic, "payments")
    };
    assert!(may(&mgr));
    mgr.add_acl(rule(ResourcePatternType::Any, AclPermissionType::Deny));
    assert!(!may(&mgr));
}
