//! Changes to a set: who may make them.
use vstd::prelude::*;
use vstd::string::*;
use crate::membership::{
    global_wildcard, grants, has_perm, lemma_global_wildcard_grants_all,
    lemma_wildcard_grants_its_namespace, parse_all, parse_tokens,
};
use crate::permission::{
    global_namespace, granted, is_wildcard_grant, render_token, wildcard_perm, Permission,
    PermissionView,
};

verus! {

/// Why a change was refused.
#[derive(Debug, PartialEq, Eq)]
pub enum AuthError {
    /// The actor does not hold the permission that the change is about.
    InsufficientPermission { permission: Permission },
    /// The change touches a wildcard grant, and the proposed set lacks a
    /// negator that the actor is subject to in that namespace.
    MissingRequiredNegator { negator: Permission, wildcard: Permission },
}

/// The mathematical value of an [`AuthError`].
pub enum AuthErrorView {
    InsufficientPermission { permission: PermissionView },
    MissingRequiredNegator { negator: PermissionView, wildcard: PermissionView },
}

impl View for AuthError {
    type V = AuthErrorView;

    open spec fn view(&self) -> AuthErrorView {
        match self {
            AuthError::InsufficientPermission { permission } => {
                AuthErrorView::InsufficientPermission { permission: permission@ }
            },
            AuthError::MissingRequiredNegator { negator, wildcard } => {
                AuthErrorView::MissingRequiredNegator { negator: negator@, wildcard: wildcard@ }
            },
        }
    }
}

impl Clone for AuthError {
    fn clone(&self) -> (copy: Self)
        ensures
            copy == *self,
    {
        match self {
            AuthError::InsufficientPermission { permission } => {
                AuthError::InsufficientPermission { permission: permission.clone() }
            },
            AuthError::MissingRequiredNegator { negator, wildcard } => {
                AuthError::MissingRequiredNegator {
                    negator: negator.clone(),
                    wildcard: wildcard.clone(),
                }
            },
        }
    }
}

/// The text of an error.
pub open spec fn error_text(e: AuthErrorView) -> Seq<char> {
    match e {
        AuthErrorView::InsufficientPermission { permission } => {
            "You do not have permission to add this permission: "@ + render_token(permission)
        },
        AuthErrorView::MissingRequiredNegator { negator, wildcard } => {
            "You do not have permission to add wildcard permission "@ + render_token(wildcard)
                + " with negators due to lack of negator "@ + render_token(negator)
        },
    }
}

impl AuthError {
    /// The error in words.
    pub fn message(&self) -> (text: String)
        ensures
            text@ == error_text(self@),
    {
        match self {
            AuthError::InsufficientPermission { permission } => {
                let mut text = "You do not have permission to add this permission: ".to_owned();
                text.append(permission.render().as_str());
                text
            },
            AuthError::MissingRequiredNegator { negator, wildcard } => {
                let mut text = "You do not have permission to add wildcard permission ".to_owned();
                text.append(wildcard.render().as_str());
                text.append(" with negators due to lack of negator ");
                text.append(negator.render().as_str());
                text
            },
        }
    }
}

/// Whether `n` is a negator of the actor in `namespace` that the proposed
/// set does not carry.
pub open spec fn is_missing_negator(
    proposed: Seq<PermissionView>,
    namespace: Seq<char>,
    n: PermissionView,
) -> bool {
    n.negator && n.namespace == namespace && !proposed.contains(n)
}

/// Whether the actor may make the change `p`, which adds or removes `p`:
/// the actor's set grants `p` taken as a grant and, where `p` is a wildcard
/// grant, the proposed set carries every negator that the actor has in the
/// namespace of `p`.
pub open spec fn may_change(
    actor: Seq<PermissionView>,
    proposed: Seq<PermissionView>,
    p: PermissionView,
) -> bool {
    &&& grants(actor, granted(p))
    &&& is_wildcard_grant(p) ==> forall|i: int|
        0 <= i < actor.len() ==> !is_missing_negator(proposed, p.namespace, #[trigger] actor[i])
}

/// Whether `p` is changed: exactly one of the two sets holds it.
pub open spec fn is_changed(
    current: Seq<PermissionView>,
    proposed: Seq<PermissionView>,
    p: PermissionView,
) -> bool {
    current.contains(p) != proposed.contains(p)
}

/// Whether the actor may turn `current` into `proposed`: the actor may make
/// every change between the two.
pub open spec fn may_patch(
    actor: Seq<PermissionView>,
    current: Seq<PermissionView>,
    proposed: Seq<PermissionView>,
) -> bool {
    forall|p: PermissionView| #[trigger]
        is_changed(current, proposed, p) ==> may_change(actor, proposed, p)
}

/// The first negator of the actor in `namespace` that the proposed set does
/// not carry.
pub open spec fn first_missing_negator(
    actor: Seq<PermissionView>,
    proposed: Seq<PermissionView>,
    namespace: Seq<char>,
) -> Option<PermissionView>
    decreases actor.len(),
{
    if actor.len() == 0 {
        None
    } else if is_missing_negator(proposed, namespace, actor.first()) {
        Some(actor.first())
    } else {
        first_missing_negator(actor.drop_first(), proposed, namespace)
    }
}

/// What stands against the change `p`, if anything: first the lack of the
/// permission itself, then the first missing negator.
pub open spec fn change_violation(
    actor: Seq<PermissionView>,
    proposed: Seq<PermissionView>,
    p: PermissionView,
) -> Option<AuthErrorView> {
    if !grants(actor, granted(p)) {
        Some(AuthErrorView::InsufficientPermission { permission: granted(p) })
    } else if is_wildcard_grant(p) {
        match first_missing_negator(actor, proposed, p.namespace) {
            Some(negator) => Some(AuthErrorView::MissingRequiredNegator { negator, wildcard: p }),
            None => None,
        }
    } else {
        None
    }
}

/// The first violation among those entries of `entries` that `other` does
/// not hold.
pub open spec fn violation_among(
    actor: Seq<PermissionView>,
    proposed: Seq<PermissionView>,
    entries: Seq<PermissionView>,
    other: Seq<PermissionView>,
) -> Option<AuthErrorView>
    decreases entries.len(),
{
    if entries.len() == 0 {
        None
    } else if !other.contains(entries.first()) && change_violation(
        actor,
        proposed,
        entries.first(),
    ) is Some {
        change_violation(actor, proposed, entries.first())
    } else {
        violation_among(actor, proposed, entries.drop_first(), other)
    }
}

/// The violation that is reported for a patch: the first one among the
/// entries that the patch adds, in the order of the proposed set, else the
/// first one among the entries that it removes, in the order of the current
/// set.
pub open spec fn patch_violation(
    actor: Seq<PermissionView>,
    current: Seq<PermissionView>,
    proposed: Seq<PermissionView>,
) -> Option<AuthErrorView> {
    match violation_among(actor, proposed, proposed, current) {
        Some(e) => Some(e),
        None => violation_among(actor, proposed, current, proposed),
    }
}

/// No negator is missing exactly when the first missing one is none.
pub proof fn lemma_first_missing_negator(
    actor: Seq<PermissionView>,
    proposed: Seq<PermissionView>,
    namespace: Seq<char>,
)
    ensures
        first_missing_negator(actor, proposed, namespace) is None <==> forall|i: int|
            0 <= i < actor.len() ==> !is_missing_negator(proposed, namespace, #[trigger] actor[i]),
        first_missing_negator(actor, proposed, namespace) matches Some(n) ==> actor.contains(n)
            && is_missing_negator(proposed, namespace, n),
    decreases actor.len(),
{
    if actor.len() > 0 {
        let rest = actor.drop_first();
        lemma_first_missing_negator(rest, proposed, namespace);
        if is_missing_negator(proposed, namespace, actor.first()) {
            assert(actor[0] == actor.first());
        } else {
            if first_missing_negator(rest, proposed, namespace) is None {
                assert forall|i: int| 0 <= i < actor.len() implies !is_missing_negator(
                    proposed,
                    namespace,
                    #[trigger] actor[i],
                ) by {
                    if i > 0 {
                        assert(actor[i] == rest[i - 1]);
                    }
                }
            } else {
                let n = first_missing_negator(rest, proposed, namespace)->0;
                let k = choose|k: int| 0 <= k < rest.len() && rest[k] == n;
                assert(actor[k + 1] == n);
            }
        }
    }
}

/// A change is free of violation exactly when the actor may make it.
pub proof fn lemma_change_violation(
    actor: Seq<PermissionView>,
    proposed: Seq<PermissionView>,
    p: PermissionView,
)
    ensures
        change_violation(actor, proposed, p) is None <==> may_change(actor, proposed, p),
{
    lemma_first_missing_negator(actor, proposed, p.namespace);
}

/// No violation among the entries exactly when the actor may make every
/// change that they name.
pub proof fn lemma_violation_among(
    actor: Seq<PermissionView>,
    proposed: Seq<PermissionView>,
    entries: Seq<PermissionView>,
    other: Seq<PermissionView>,
)
    ensures
        violation_among(actor, proposed, entries, other) is None <==> forall|i: int|
            0 <= i < entries.len() && !other.contains(#[trigger] entries[i]) ==> may_change(
                actor,
                proposed,
                entries[i],
            ),
    decreases entries.len(),
{
    if entries.len() > 0 {
        let rest = entries.drop_first();
        lemma_violation_among(actor, proposed, rest, other);
        lemma_change_violation(actor, proposed, entries.first());
        if violation_among(actor, proposed, entries, other) is None {
            assert forall|i: int|
                0 <= i < entries.len() && !other.contains(#[trigger] entries[i]) implies may_change(
                actor,
                proposed,
                entries[i],
            ) by {
                if i > 0 {
                    assert(entries[i] == rest[i - 1]);
                }
            }
        } else if !other.contains(entries.first()) && change_violation(
            actor,
            proposed,
            entries.first(),
        ) is Some {
            assert(entries[0] == entries.first());
        } else {
            let k = choose|k: int|
                0 <= k < rest.len() && !other.contains(#[trigger] rest[k]) && !may_change(
                    actor,
                    proposed,
                    rest[k],
                );
            assert(entries[k + 1] == rest[k]);
        }
    }
}

/// A patch is free of violation exactly when the actor may make it.
pub proof fn lemma_patch_violation(
    actor: Seq<PermissionView>,
    current: Seq<PermissionView>,
    proposed: Seq<PermissionView>,
)
    ensures
        patch_violation(actor, current, proposed) is None <==> may_patch(actor, current, proposed),
{
    lemma_violation_among(actor, proposed, proposed, current);
    lemma_violation_among(actor, proposed, current, proposed);
    if may_patch(actor, current, proposed) {
        assert forall|i: int|
            0 <= i < proposed.len() && !current.contains(#[trigger] proposed[i]) implies may_change(
            actor,
            proposed,
            proposed[i],
        ) by {
            assert(is_changed(current, proposed, proposed[i]));
        }
        assert forall|i: int|
            0 <= i < current.len() && !proposed.contains(#[trigger] current[i]) implies may_change(
            actor,
            proposed,
            current[i],
        ) by {
            assert(is_changed(current, proposed, current[i]));
        }
    }
    if patch_violation(actor, current, proposed) is None {
        assert forall|p: PermissionView| #[trigger]
            is_changed(current, proposed, p) implies may_change(actor, proposed, p) by {
            if proposed.contains(p) {
                let i = choose|i: int| 0 <= i < proposed.len() && proposed[i] == p;
                assert(!current.contains(proposed[i]));
            } else {
                let i = choose|i: int| 0 <= i < current.len() && current[i] == p;
                assert(!proposed.contains(current[i]));
            }
        }
    }
}

/// An actor that holds `global.*` is never refused for want of a
/// permission; where it holds no negator, it may make every patch.
pub proof fn lemma_global_actor_may_patch(
    actor: Seq<PermissionView>,
    current: Seq<PermissionView>,
    proposed: Seq<PermissionView>,
)
    requires
        actor.contains(global_wildcard()),
    ensures
        forall|p: PermissionView| #[trigger] grants(actor, granted(p)),
        !(patch_violation(actor, current, proposed) matches Some(
            AuthErrorView::InsufficientPermission { .. },
        )),
        (forall|i: int| 0 <= i < actor.len() ==> !(#[trigger] actor[i]).negator) ==> may_patch(
            actor,
            current,
            proposed,
        ),
{
    assert forall|p: PermissionView| #[trigger] grants(actor, granted(p)) by {
        lemma_global_wildcard_grants_all(actor, granted(p));
    }
    lemma_violation_among_kind(actor, proposed, proposed, current);
    lemma_violation_among_kind(actor, proposed, current, proposed);
}

/// A violation among entries for want of a permission names a permission
/// that the actor's set does not grant.
proof fn lemma_violation_among_kind(
    actor: Seq<PermissionView>,
    proposed: Seq<PermissionView>,
    entries: Seq<PermissionView>,
    other: Seq<PermissionView>,
)
    ensures
        violation_among(actor, proposed, entries, other) matches Some(
            AuthErrorView::InsufficientPermission { permission },
        ) ==> !grants(actor, permission),
    decreases entries.len(),
{
    if entries.len() > 0 {
        lemma_violation_among_kind(actor, proposed, entries.drop_first(), other);
    }
}

/// An actor that holds nothing but one wildcard grant cannot make a change
/// outside the namespace of that grant, unless the namespace is `global`.
pub proof fn lemma_wildcard_actor_is_scoped(
    namespace: Seq<char>,
    current: Seq<PermissionView>,
    proposed: Seq<PermissionView>,
    p: PermissionView,
)
    requires
        namespace != global_namespace(),
        is_changed(current, proposed, p),
        p.namespace != namespace,
    ensures
        !may_patch(
            seq![PermissionView { namespace, perm: wildcard_perm(), negator: false }],
            current,
            proposed,
        ),
{
    lemma_wildcard_grants_its_namespace(namespace, granted(p));
}

/// Granting or withdrawing a wildcard is refused unless the proposed set
/// carries every negator that the actor holds in the namespace of the
/// wildcard.
pub proof fn lemma_wildcard_needs_negators(
    actor: Seq<PermissionView>,
    current: Seq<PermissionView>,
    proposed: Seq<PermissionView>,
    wildcard: PermissionView,
    negator: PermissionView,
)
    requires
        is_changed(current, proposed, wildcard),
        is_wildcard_grant(wildcard),
        actor.contains(negator),
        negator.negator,
        negator.namespace == wildcard.namespace,
        !proposed.contains(negator),
    ensures
        !may_patch(actor, current, proposed),
{
    let i = choose|i: int| 0 <= i < actor.len() && actor[i] == negator;
    assert(is_missing_negator(proposed, wildcard.namespace, actor[i]));
}

/// An actor whose set grants a wildcard may grant or withdraw it exactly
/// when the proposed set carries every negator that the actor holds in the
/// namespace of the wildcard.
pub proof fn lemma_wildcard_change(
    actor: Seq<PermissionView>,
    proposed: Seq<PermissionView>,
    wildcard: PermissionView,
)
    requires
        is_wildcard_grant(wildcard),
        grants(actor, wildcard),
    ensures
        may_change(actor, proposed, wildcard) <==> forall|n: PermissionView|
            actor.contains(n) && n.negator && n.namespace == wildcard.namespace
                ==> #[trigger] proposed.contains(n),
{
    assert(granted(wildcard) == wildcard);
    if may_change(actor, proposed, wildcard) {
        assert forall|n: PermissionView|
            actor.contains(n) && n.negator && n.namespace
                == wildcard.namespace implies #[trigger] proposed.contains(n) by {
            let i = choose|i: int| 0 <= i < actor.len() && actor[i] == n;
            assert(!is_missing_negator(proposed, wildcard.namespace, actor[i]));
        }
    } else {
        let i = choose|i: int|
            0 <= i < actor.len() && is_missing_negator(
                proposed,
                wildcard.namespace,
                #[trigger] actor[i],
            );
        assert(actor.contains(actor[i]));
    }
}

/// Whether the set holds the permission.
pub fn contains_permission(set: &[Permission], perm: &Permission) -> (held: bool)
    ensures
        held == set.deep_view().contains(perm@),
{
    let mut i: usize = 0;
    while i < set.len()
        invariant
            i <= set.len(),
            forall|k: int| 0 <= k < i ==> set.deep_view()[k] != perm@,
        decreases set.len() - i,
    {
        if set[i] == *perm {
            assert(set.deep_view()[i as int] == perm@);
            return true;
        }
        i += 1;
    }
    false
}

/// Checks one change against the actor's set.
fn check_change(manager_perms: &[Permission], new_perms: &[Permission], perm: &Permission) -> (result:
    Result<(), AuthError>)
    ensures
        match result {
            Ok(()) => change_violation(manager_perms.deep_view(), new_perms.deep_view(), perm@)
                is None,
            Err(e) => change_violation(manager_perms.deep_view(), new_perms.deep_view(), perm@)
                == Some(e@),
        },
{
    let base = Permission {
        namespace: perm.namespace.clone(),
        perm: perm.perm.clone(),
        negator: false,
    };
    if !has_perm(manager_perms, &base) {
        return Err(AuthError::InsufficientPermission { permission: base });
    }
    if !perm.negator && perm.is_wildcard() {
        let ghost actor = manager_perms.deep_view();
        let ghost proposed = new_perms.deep_view();
        let mut i: usize = 0;
        assert(actor.skip(0) =~= actor);
        while i < manager_perms.len()
            invariant
                i <= manager_perms.len(),
                actor == manager_perms.deep_view(),
                proposed == new_perms.deep_view(),
                grants(actor, granted(perm@)),
                is_wildcard_grant(perm@),
                first_missing_negator(actor, proposed, perm@.namespace) == first_missing_negator(
                    actor.skip(i as int),
                    proposed,
                    perm@.namespace,
                ),
            decreases manager_perms.len() - i,
        {
            let held = &manager_perms[i];
            assert(actor.skip(i as int).drop_first() =~= actor.skip(i + 1));
            if held.negator && held.namespace == perm.namespace && !contains_permission(
                new_perms,
                held,
            ) {
                return Err(
                    AuthError::MissingRequiredNegator {
                        negator: held.clone(),
                        wildcard: perm.clone(),
                    },
                );
            }
            i += 1;
        }
    }
    Ok(())
}

/// Checks those entries of `entries` that `other` does not hold.
fn check_entries(
    manager_perms: &[Permission],
    new_perms: &[Permission],
    entries: &[Permission],
    other: &[Permission],
) -> (result: Result<(), AuthError>)
    ensures
        match result {
            Ok(()) => violation_among(
                manager_perms.deep_view(),
                new_perms.deep_view(),
                entries.deep_view(),
                other.deep_view(),
            ) is None,
            Err(e) => violation_among(
                manager_perms.deep_view(),
                new_perms.deep_view(),
                entries.deep_view(),
                other.deep_view(),
            ) == Some(e@),
        },
{
    let ghost actor = manager_perms.deep_view();
    let ghost proposed = new_perms.deep_view();
    let ghost all = entries.deep_view();
    let mut i: usize = 0;
    assert(all.skip(0) =~= all);
    while i < entries.len()
        invariant
            i <= entries.len(),
            actor == manager_perms.deep_view(),
            proposed == new_perms.deep_view(),
            all == entries.deep_view(),
            violation_among(actor, proposed, all, other.deep_view()) == violation_among(
                actor,
                proposed,
                all.skip(i as int),
                other.deep_view(),
            ),
        decreases entries.len() - i,
    {
        let entry = &entries[i];
        assert(all.skip(i as int).drop_first() =~= all.skip(i + 1));
        if !contains_permission(other, entry) {
            match check_change(manager_perms, new_perms, entry) {
                Ok(()) => {},
                Err(e) => {
                    return Err(e);
                },
            }
        }
        i += 1;
    }
    Ok(())
}

/// Decides whether the holder of `manager_perms` may replace the set
/// `current_perms` by `new_perms`.
///
/// Every entry that exactly one of the two sets holds is a change. The
/// check succeeds when the actor may make every change; otherwise it reports
/// the first violation, going through the added entries in the order of
/// `new_perms` and then through the removed ones in the order of
/// `current_perms`.
pub fn check_patch_changes(
    manager_perms: &[Permission],
    current_perms: &[Permission],
    new_perms: &[Permission],
) -> (result: Result<(), AuthError>)
    ensures
        result is Ok <==> may_patch(
            manager_perms.deep_view(),
            current_perms.deep_view(),
            new_perms.deep_view(),
        ),
        result matches Err(e) ==> patch_violation(
            manager_perms.deep_view(),
            current_perms.deep_view(),
            new_perms.deep_view(),
        ) == Some(e@),
{
    proof {
        lemma_patch_violation(
            manager_perms.deep_view(),
            current_perms.deep_view(),
            new_perms.deep_view(),
        );
    }
    match check_entries(manager_perms, new_perms, new_perms, current_perms) {
        Ok(()) => check_entries(manager_perms, new_perms, current_perms, new_perms),
        Err(e) => Err(e),
    }
}

/// The same as [`check_patch_changes`], on tokens.
pub fn check_patch_changes_str(
    manager_perms: &[String],
    current_perms: &[String],
    new_perms: &[String],
) -> (result: Result<(), AuthError>)
    ensures
        result is Ok <==> may_patch(
            parse_tokens(manager_perms.deep_view()),
            parse_tokens(current_perms.deep_view()),
            parse_tokens(new_perms.deep_view()),
        ),
        result matches Err(e) ==> patch_violation(
            parse_tokens(manager_perms.deep_view()),
            parse_tokens(current_perms.deep_view()),
            parse_tokens(new_perms.deep_view()),
        ) == Some(e@),
{
    let manager_perms = parse_all(manager_perms);
    let current_perms = parse_all(current_perms);
    let new_perms = parse_all(new_perms);
    check_patch_changes(manager_perms.as_slice(), current_perms.as_slice(), new_perms.as_slice())
}

} // verus!
