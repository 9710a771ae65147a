use staff_perms::{
    check_patch_changes, check_patch_changes_str, contains_permission, AuthError, Permission,
};

fn perms(tokens: &[&str]) -> Vec<Permission> {
    tokens.iter().map(|t| Permission::from_string(t)).collect()
}

fn check(actor: &[&str], current: &[&str], proposed: &[&str]) -> Result<(), AuthError> {
    check_patch_changes(&perms(actor), &perms(current), &perms(proposed))
}

fn insufficient(token: &str) -> String {
    AuthError::InsufficientPermission { permission: Permission::from_string(token) }.message()
}

fn missing(negator: &str, wildcard: &str) -> String {
    AuthError::MissingRequiredNegator {
        negator: Permission::from_string(negator),
        wildcard: Permission::from_string(wildcard),
    }
    .message()
}

fn refusal(actor: &[&str], current: &[&str], proposed: &[&str]) -> String {
    match check(actor, current, proposed) {
        Ok(()) => "allowed".to_string(),
        Err(e) => e.message(),
    }
}

#[test]
fn test_check_patch_changes() {
    // global.* should always be allowed to change perms
    assert!(check_patch_changes(
        &["global.*".into()],
        &["rpc.test".into()],
        &["rpc.test".into(), "rpc.test2".into()]
    )
    .is_ok());

    // Users should not be able to remove perms they dont have
    assert!(check_patch_changes(
        &["rpc.*".into()],
        &["global.*".into()],
        &["rpc.test".into(), "rpc.test2".into()]
    )
    .is_err());

    // Basic real world test
    assert!(check_patch_changes(
        &["rpc.*".into()],
        &["rpc.test".into()],
        &["rpc.test".into(), "rpc.test2".into()]
    )
    .is_ok());

    // If adding '*' permissions, target must have all negators of user
    assert!(check_patch_changes(
        &["~rpc.test".into(), "rpc.*".into()],
        &["rpc.foobar".into()],
        &["rpc.*".into()]
    )
    .is_err());
    assert!(check_patch_changes(
        &["~rpc.test".into(), "rpc.*".into()],
        &["~rpc.test".into()],
        &["rpc.*".into()]
    )
    .is_err());

    // This is OK though
    assert!(check_patch_changes(
        &["~rpc.test".into(), "rpc.*".into()],
        &["~rpc.test".into()],
        &["rpc.*".into(), "~rpc.test".into(), "~rpc.test2".into()]
    )
    .is_ok());

    // But this isnt as rpc.test negator isnt in new
    assert!(check_patch_changes(
        &["~rpc.test".into(), "rpc.*".into()],
        &["~rpc.test".into()],
        &["rpc.*".into(), "~rpc.test2".into(), "~rpc.test2".into()]
    )
    .is_err());
}

/// The same cases, given as tokens.
#[test]
fn perms_test_check_patch_changes() {
    // global.* should always be allowed to change perms
    assert!(check_patch_changes_str(
        &["global.*".to_string()],
        &["rpc.test".to_string()],
        &["rpc.test".to_string(), "rpc.test2".to_string()]
    )
    .is_ok());

    // Users should not be able to remove perms they dont have
    assert!(check_patch_changes_str(
        &["rpc.*".to_string()],
        &["global.*".to_string()],
        &["rpc.test".to_string(), "rpc.test2".to_string()]
    )
    .is_err());

    // Basic real world test
    assert!(check_patch_changes_str(
        &["rpc.*".to_string()],
        &["rpc.test".to_string()],
        &["rpc.test".to_string(), "rpc.test2".to_string()]
    )
    .is_ok());

    // If adding '*' permissions, target must have all negators of user
    assert!(check_patch_changes_str(
        &["~rpc.test".to_string(), "rpc.*".to_string()],
        &["rpc.foobar".to_string()],
        &["rpc.*".to_string()]
    )
    .is_err());
    assert!(check_patch_changes_str(
        &["~rpc.test".to_string(), "rpc.*".to_string()],
        &["~rpc.test".to_string()],
        &["rpc.*".to_string()]
    )
    .is_err());

    // This is OK though
    assert!(check_patch_changes_str(
        &["~rpc.test".to_string(), "rpc.*".to_string()],
        &["~rpc.test".to_string()],
        &["rpc.*".to_string(), "~rpc.test".to_string(), "~rpc.test2".to_string()]
    )
    .is_ok());

    // But this isnt as rpc.test negator isnt in new
    assert!(check_patch_changes_str(
        &["~rpc.test".to_string(), "rpc.*".to_string()],
        &["~rpc.test".to_string()],
        &["rpc.*".to_string(), "~rpc.test2".to_string(), "~rpc.test2".to_string()]
    )
    .is_err());
}

#[test]
fn no_change_is_always_allowed() {
    assert!(check(&[], &[], &[]).is_ok());
    assert!(check(&[], &["global.*", "~rpc.a"], &["~rpc.a", "global.*"]).is_ok());
    assert!(check(&["~rpc.x"], &["rpc.*"], &["rpc.*", "rpc.*"]).is_ok());
}

#[test]
fn actor_without_the_permission_is_refused_with_its_grant_form() {
    assert_eq!(refusal(&["rpc.*"], &[], &["apps.view"]), insufficient("apps.view"));
    assert_eq!(refusal(&["rpc.*"], &["apps.view"], &[]), insufficient("apps.view"));
    // A negator is judged by the permission that it revokes.
    assert_eq!(refusal(&["rpc.*"], &[], &["~apps.view"]), insufficient("apps.view"));
    assert_eq!(refusal(&[], &[], &["rpc.test"]), insufficient("rpc.test"));
    match check(&["rpc.*"], &[], &["~apps.view"]) {
        Err(AuthError::InsufficientPermission { permission }) => {
            assert_eq!(permission, Permission::from_string("apps.view"));
        }
        other => panic!("unexpected result: {:?}", other),
    }
}

#[test]
fn actor_subject_to_a_negator_cannot_hand_it_on() {
    // The actor holds rpc.* and is refused rpc.test itself.
    assert_eq!(
        refusal(&["~rpc.test", "rpc.*"], &[], &["~rpc.test"]),
        insufficient("rpc.test")
    );
    assert!(check(&["rpc.*"], &[], &["~rpc.test"]).is_ok());
}

#[test]
fn wildcard_grant_needs_the_actors_negators() {
    assert_eq!(
        refusal(&["~rpc.test", "rpc.*"], &["rpc.foobar"], &["rpc.*"]),
        missing("~rpc.test", "rpc.*")
    );
    match check(&["~rpc.test", "rpc.*"], &["rpc.foobar"], &["rpc.*"]) {
        Err(AuthError::MissingRequiredNegator { negator, wildcard }) => {
            assert_eq!(negator, Permission::from_string("~rpc.test"));
            assert_eq!(wildcard, Permission::from_string("rpc.*"));
        }
        other => panic!("unexpected result: {:?}", other),
    }
    // The first missing negator of the actor is the one reported.
    assert_eq!(
        refusal(&["~rpc.a", "rpc.*", "~rpc.b", "~rpc.c"], &[], &["rpc.*", "~rpc.a"]),
        missing("~rpc.b", "rpc.*")
    );
    // Negators of other namespaces are not asked for.
    assert!(check(&["~apps.a", "rpc.*"], &[], &["rpc.*"]).is_ok());
}

#[test]
fn removing_a_wildcard_grant_needs_the_negators_too() {
    assert_eq!(
        refusal(&["~rpc.test", "rpc.*"], &["rpc.*"], &[]),
        missing("~rpc.test", "rpc.*")
    );
    assert!(check(&["~rpc.test", "rpc.*"], &["rpc.*", "~rpc.test"], &["~rpc.test"]).is_ok());
}

#[test]
fn negated_wildcard_asks_for_no_negators() {
    assert!(check(&["~rpc.test", "rpc.*"], &[], &["~rpc.*"]).is_ok());
}

#[test]
fn global_wildcard_actor_may_change_anything_without_negators_of_its_own() {
    assert!(check(&["global.*"], &["rpc.a", "~apps.b"], &["apps.*", "x.y", "~global.*"]).is_ok());
    assert!(check(&["global.*"], &["global.*"], &[]).is_ok());
    // With a negator of its own the second rule still holds.
    assert_eq!(
        refusal(&["global.*", "~rpc.test"], &[], &["rpc.*"]),
        missing("~rpc.test", "rpc.*")
    );
}

#[test]
fn added_entries_are_checked_before_removed_ones() {
    assert_eq!(refusal(&[], &["rpc.old"], &["rpc.new"]), insufficient("rpc.new"));
    assert_eq!(
        refusal(&["rpc.new"], &["rpc.old", "rpc.older"], &["rpc.new"]),
        insufficient("rpc.old")
    );
    assert_eq!(
        refusal(&["rpc.b"], &[], &["rpc.b", "rpc.c", "rpc.a"]),
        insufficient("rpc.c")
    );
}

#[test]
fn messages_name_the_permissions() {
    assert_eq!(
        insufficient("rpc.test"),
        "You do not have permission to add this permission: rpc.test"
    );
    assert_eq!(
        missing("~rpc.test", "rpc.*"),
        "You do not have permission to add wildcard permission rpc.* with negators due to lack of negator ~rpc.test"
    );
}

#[test]
fn tokens_are_parsed_before_the_check() {
    let s = |tokens: &[&str]| tokens.iter().map(|t| t.to_string()).collect::<Vec<_>>();
    // `view` without a namespace is `global.view`.
    assert!(check_patch_changes_str(&s(&["view"]), &s(&[]), &s(&["rpc.view"])).is_ok());
    assert!(check_patch_changes_str(&s(&["rpc.view"]), &s(&[]), &s(&["view"])).is_err());
    assert!(check_patch_changes_str(&s(&["rpc.*"]), &s(&["rpc.a"]), &s(&["rpc.a"])).is_ok());
}

fn outcome(actor: &[&str], current: &[&str], proposed: &[&str]) -> String {
    match check(actor, current, proposed) {
        Ok(()) => "ok".to_string(),
        Err(AuthError::InsufficientPermission { permission }) => {
            format!("insufficient({})", permission.render())
        }
        Err(AuthError::MissingRequiredNegator { negator, wildcard }) => {
            format!("missing({},{})", negator.render(), wildcard.render())
        }
    }
}

#[test]
fn check_patch_changes_table() {
    assert_eq!(
        outcome(
            &["apps.a", "rpc.a", "~apps.b", "rpc.*", "global.*"],
            &[],
            &["global.*", "global.a", "~rpc.b"],
        ),
        "ok"
    );
    assert_eq!(
        outcome(
            &["~apps.*", "~rpc.b", "rpc.*"],
            &["~rpc.b"],
            &["apps.*", "rpc.*", "rpc.b"],
        ),
        "insufficient(apps.*)"
    );
    assert_eq!(
        outcome(
            &["~rpc.b", "rpc.a", "global.a"],
            &["apps.*", "rpc.b", "~global.a"],
            &["global.*", "rpc.*", "global.a"],
        ),
        "insufficient(global.*)"
    );
    assert_eq!(outcome(&["~rpc.a"], &["rpc.b", "global.a"], &["~apps.b"]), "insufficient(apps.b)");
    assert_eq!(
        outcome(
            &["global.a", "rpc.*", "apps.a", "rpc.*", "rpc.*", "global.*"],
            &["global.*"],
            &["apps.a", "global.b", "global.*"],
        ),
        "ok"
    );
    assert_eq!(
        outcome(
            &["global.*", "~global.*"],
            &["~rpc.b", "global.a", "~global.b"],
            &["apps.b", "~rpc.*"],
        ),
        "ok"
    );
    assert_eq!(outcome(&["global.*"], &["apps.a", "~apps.b"], &["~rpc.*"]), "ok");
    assert_eq!(outcome(&["rpc.*", "global.b"], &["rpc.b", "~apps.b"], &[]), "ok");
    assert_eq!(
        outcome(
            &["~apps.*", "~apps.b", "~apps.a"],
            &["apps.a", "~rpc.*"],
            &["~apps.b", "~apps.*"],
        ),
        "insufficient(apps.b)"
    );
    assert_eq!(outcome(&["rpc.*"], &["rpc.a", "apps.*"], &["apps.b"]), "insufficient(apps.b)");
    assert_eq!(
        outcome(
            &["rpc.*", "~global.*", "rpc.a", "rpc.*"],
            &["apps.*", "global.b", "~global.a"],
            &["~apps.b", "global.*", "apps.b"],
        ),
        "insufficient(apps.b)"
    );
    assert_eq!(
        outcome(
            &["rpc.a", "rpc.a", "~apps.*", "rpc.*", "global.*"],
            &["~apps.b", "~rpc.a"],
            &["~global.a", "apps.b"],
        ),
        "ok"
    );
    assert_eq!(
        outcome(
            &["apps.b", "~rpc.b", "~rpc.b", "rpc.*"],
            &["rpc.*", "~global.a"],
            &["apps.b"],
        ),
        "missing(~rpc.b,rpc.*)"
    );
    assert_eq!(
        outcome(
            &["rpc.*", "global.*"],
            &["rpc.b"],
            &["~global.b", "apps.*", "apps.a"],
        ),
        "ok"
    );
    assert_eq!(
        outcome(
            &["rpc.*"],
            &["rpc.*", "~rpc.a", "rpc.*"],
            &["global.b"],
        ),
        "insufficient(global.b)"
    );
    assert_eq!(outcome(&["rpc.*"], &[], &["~global.*", "apps.a"]), "insufficient(global.*)");
}

#[test]
fn errors_compare_and_clone() {
    let a = check(&[], &[], &["~rpc.test"]).unwrap_err();
    assert_eq!(
        a,
        AuthError::InsufficientPermission { permission: Permission::from_string("rpc.test") }
    );
    assert_eq!(a.clone(), a);
    let b = check(&["~rpc.test", "rpc.*"], &[], &["rpc.*"]).unwrap_err();
    assert_eq!(b.clone(), b);
    assert_ne!(a, b);
    assert_eq!(b.clone().message(), b.message());
}

#[test]
fn contains_permission_compares_all_three_parts() {
    let set = perms(&["rpc.a", "~rpc.b", "apps.a"]);
    assert!(contains_permission(&set, &Permission::from_string("rpc.a")));
    assert!(contains_permission(&set, &Permission::from_string("~rpc.b")));
    assert!(contains_permission(&set, &Permission::from_string("apps.a")));
    assert!(!contains_permission(&set, &Permission::from_string("~rpc.a")));
    assert!(!contains_permission(&set, &Permission::from_string("rpc.b")));
    assert!(!contains_permission(&set, &Permission::from_string("apps.b")));
    assert!(!contains_permission(&[], &Permission::from_string("rpc.a")));
}
