use staff_perms::{has_perm, has_perm_str, parse_all, Permission};

fn strings(tokens: &[&str]) -> Vec<String> {
    tokens.iter().map(|t| t.to_string()).collect()
}

#[test]
fn test_has_perm() {
    assert!(has_perm_str(&["global.*".to_string()], "test")); // global.* implies test[.*]
    assert!(!has_perm_str(&["rpc.*".to_string()], "global.*")); // rpc.* does not imply global.* as rpc != global
    assert!(has_perm_str(&["global.test".to_string()], "rpc.test")); // global.test implies rpc.test
    assert!(!has_perm_str(
        &["global.test".to_string()],
        "rpc.view_bot_queue"
    )); // global.test does not imply rpc.view_bot_queue as global = rpc, test != view_bot_queue
    assert!(has_perm_str(
        &["global.*".to_string()],
        "rpc.view_bot_queue"
    )); // global.* implies rpc.view_bot_queue
    assert!(has_perm_str(&["rpc.*".to_string()], "rpc.ViewBotQueue")); // rpc.* implies rpc.view_bot_queue
    assert!(!has_perm_str(
        &["rpc.BotClaim".to_string()],
        "rpc.ViewBotQueue"
    )); // rpc.BotClaim does not implies rpc.ViewBotQueue as BotClaim != ViewBotQueue
    assert!(!has_perm_str(&["apps.*".to_string()], "rpc.ViewBotQueue")); // apps.* does not imply rpc.ViewBotQueue, apps != rpc
    assert!(!has_perm_str(&["apps.*".to_string()], "rpc.*")); // apps.* does not imply rpc.*, apps != rpc despite the global permission
    assert!(!has_perm_str(&["apps.test".to_string()], "rpc.test")); // apps.test does not imply rpc.test, apps != rpc despite the permissions being the same

    // Negator tests
    assert!(has_perm_str(&["apps.*".to_string()], "apps.test")); // apps.* implies apps.test
    assert!(!has_perm_str(&["~apps.*".to_string()], "apps.test")); // ~apps.* does not imply apps.test as it is negated
    assert!(!has_perm_str(
        &["apps.*".to_string(), "~apps.test".to_string()],
        "apps.test"
    )); // apps.* does not imply apps.test due to negator ~apps.test
    assert!(!has_perm_str(
        &["~apps.test".to_string(), "apps.*".to_string()],
        "apps.test"
    )); // apps.* does not imply apps.test due to negator ~apps.test. Same as above with different order of perms to test for ordering
    assert!(has_perm_str(&["apps.test".to_string()], "apps.test")); // ~apps.* does not imply apps.test as it is negated
    assert!(has_perm_str(
        &["apps.test".to_string(), "apps.*".to_string()],
        "apps.test"
    )); // More tests
    assert!(has_perm_str(
        &["~apps.test".to_string(), "global.*".to_string()],
        "apps.test"
    )); // Test for global.* handling as a wildcard 'return true'
}

/// The same table, asked through parsed permissions.
#[test]
fn perms_test_has_perm() {
    let ask = |set: &[&str], query: &str| -> bool {
        has_perm(&parse_all(&strings(set)), &Permission::from_string(query))
    };
    assert!(ask(&["global.*"], "test"));
    assert!(!ask(&["rpc.*"], "global.*"));
    assert!(ask(&["global.test"], "rpc.test"));
    assert!(!ask(&["global.test"], "rpc.view_bot_queue"));
    assert!(ask(&["global.*"], "rpc.view_bot_queue"));
    assert!(ask(&["rpc.*"], "rpc.ViewBotQueue"));
    assert!(!ask(&["rpc.BotClaim"], "rpc.ViewBotQueue"));
    assert!(!ask(&["apps.*"], "rpc.ViewBotQueue"));
    assert!(!ask(&["apps.*"], "rpc.*"));
    assert!(!ask(&["apps.test"], "rpc.test"));

    // Negator tests
    assert!(ask(&["apps.*"], "apps.test"));
    assert!(!ask(&["~apps.*"], "apps.test"));
    assert!(!ask(&["apps.*", "~apps.test"], "apps.test"));
    assert!(!ask(&["~apps.test", "apps.*"], "apps.test"));
    assert!(ask(&["apps.test"], "apps.test"));
    assert!(ask(&["apps.test", "apps.*"], "apps.test"));
    assert!(ask(&["~apps.test", "global.*"], "apps.test"));
}

#[test]
fn empty_set_grants_nothing() {
    assert!(!has_perm_str(&[], "rpc.test"));
    assert!(!has_perm(&[], &Permission::from_string("global.*")));
}

#[test]
fn global_wildcard_grants_everything() {
    for query in ["rpc.test", "apps.anything", "global.*", "x", "~rpc.test", ""] {
        assert!(has_perm_str(&strings(&["global.*"]), query));
        assert!(has_perm_str(&strings(&["rpc.a", "global.*", "~apps.b"]), query));
    }
}

#[test]
fn global_wildcard_ignores_negators_in_the_set() {
    // The grant `global.*` decides by itself, wherever it stands.
    assert!(has_perm_str(&strings(&["global.*", "~rpc.test"]), "rpc.test"));
    assert!(has_perm_str(&strings(&["~rpc.test", "global.*"]), "rpc.test"));
    assert!(has_perm_str(&strings(&["~global.test", "global.*"]), "rpc.test"));
}

#[test]
fn negated_global_wildcard_is_no_grant() {
    assert!(!has_perm_str(&strings(&["~global.*"]), "rpc.test"));
    // It covers every query, so it suppresses other grants too.
    assert!(!has_perm_str(&strings(&["rpc.test", "~global.*"]), "rpc.test"));
}

#[test]
fn namespace_wildcard_is_scoped() {
    assert!(has_perm_str(&strings(&["rpc.*"]), "rpc.anything"));
    assert!(!has_perm_str(&strings(&["rpc.*"]), "apps.anything"));
    assert!(!has_perm_str(&strings(&["rpc.*"]), "global.*"));
}

#[test]
fn negator_suppresses_in_any_order() {
    assert!(!has_perm_str(&strings(&["rpc.*", "~rpc.test"]), "rpc.test"));
    assert!(!has_perm_str(&strings(&["~rpc.test", "rpc.*"]), "rpc.test"));
    assert!(!has_perm_str(&strings(&["~rpc.test", "rpc.*", "rpc.test"]), "rpc.test"));
    // Other names of the namespace stay granted.
    assert!(has_perm_str(&strings(&["~rpc.test", "rpc.*"]), "rpc.other"));
}

#[test]
fn global_namespace_entry_covers_every_namespace() {
    assert!(has_perm_str(&strings(&["global.view"]), "rpc.view"));
    assert!(has_perm_str(&strings(&["global.view"]), "apps.view"));
    assert!(!has_perm_str(&strings(&["rpc.view", "~global.view"]), "rpc.view"));
}

#[test]
fn the_sign_of_the_query_plays_no_part() {
    assert!(has_perm_str(&strings(&["rpc.test"]), "~rpc.test"));
    assert!(!has_perm_str(&strings(&["~rpc.test"]), "~rpc.test"));
}

#[test]
fn has_perm_table() {
    assert_eq!(has_perm_str(&strings(&["rpc.a", "global.a"]), "~rpc.b"), false);
    assert_eq!(
        has_perm_str(
            &strings(&["~global.*", "apps.b", "apps.*", "global.*"]),
            "apps.*",
        ),
        true
    );
    assert_eq!(has_perm_str(&strings(&["apps.a"]), "~apps.b"), false);
    assert_eq!(has_perm_str(&strings(&["~apps.a"]), "apps.a"), false);
    assert_eq!(has_perm_str(&strings(&["global.*"]), "rpc.b"), true);
    assert_eq!(has_perm_str(&strings(&["rpc.*", "~apps.b", "~global.a"]), "apps.*"), false);
    assert_eq!(has_perm_str(&strings(&["~rpc.b", "~global.b", "global.b"]), "~rpc.b"), false);
    assert_eq!(has_perm_str(&strings(&["apps.*", "rpc.a", "~rpc.a", "~rpc.a"]), "rpc.b"), false);
    assert_eq!(has_perm_str(&strings(&["apps.a", "global.*"]), "~apps.a"), true);
    assert_eq!(has_perm_str(&strings(&["~apps.a"]), "~rpc.*"), false);
    assert_eq!(has_perm_str(&strings(&["rpc.*", "rpc.b"]), "~apps.a"), false);
    assert_eq!(has_perm_str(&strings(&["apps.b", "rpc.*", "~rpc.a", "rpc.a"]), "global.b"), false);
    assert_eq!(has_perm_str(&strings(&["apps.b"]), "~rpc.b"), false);
    assert_eq!(has_perm_str(&strings(&[]), "~apps.a"), false);
    assert_eq!(
        has_perm_str(
            &strings(&["global.a", "~rpc.b", "global.b", "global.b"]),
            "~apps.*",
        ),
        false
    );
    assert_eq!(has_perm_str(&strings(&["apps.a"]), "global.*"), false);
}

#[test]
fn parse_all_keeps_the_order_of_the_tokens() {
    let parsed = parse_all(&strings(&["rpc.a", "~b", "apps.*", "rpc.a"]));
    let rendered: Vec<String> = parsed.iter().map(|p| p.render()).collect();
    assert_eq!(rendered, vec!["rpc.a", "~global.b", "apps.*", "rpc.a"]);
    assert!(parse_all(&[]).is_empty());
}
