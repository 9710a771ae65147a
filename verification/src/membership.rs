//! Membership: does an effective set grant a permission.
use vstd::prelude::*;
use crate::permission::{
    global_namespace, parse_token, wildcard_perm, Permission, PermissionView,
};

verus! {

/// Whether `e` is the grant `global.*`.
pub open spec fn is_global_wildcard(e: PermissionView) -> bool {
    !e.negator && e.namespace == global_namespace() && e.perm == wildcard_perm()
}

/// Whether the entry `e` speaks of the permission `query`: its namespace is
/// that of the query or `global`, and its name is that of the query or the
/// wildcard. The signs play no part.
pub open spec fn covers(e: PermissionView, query: PermissionView) -> bool {
    &&& e.namespace == query.namespace || e.namespace == global_namespace()
    &&& e.perm == wildcard_perm() || e.perm == query.perm
}

/// Whether the set grants `query`: it holds the grant `global.*`, or some
/// entry covers the query and no entry that covers it is a negator.
pub open spec fn grants(set: Seq<PermissionView>, query: PermissionView) -> bool {
    ||| exists|i: int| 0 <= i < set.len() && is_global_wildcard(#[trigger] set[i])
    ||| {
        &&& exists|i: int| 0 <= i < set.len() && covers(#[trigger] set[i], query)
        &&& forall|i: int| 0 <= i < set.len() && covers(#[trigger] set[i], query) ==> !set[i].negator
    }
}

/// The grant `global.*`.
pub open spec fn global_wildcard() -> PermissionView {
    PermissionView { namespace: global_namespace(), perm: wildcard_perm(), negator: false }
}

/// The grant `global.*` implies every permission.
pub proof fn lemma_global_wildcard_grants_all(set: Seq<PermissionView>, query: PermissionView)
    requires
        set.contains(global_wildcard()),
    ensures
        grants(set, query),
{
    let i = choose|i: int| 0 <= i < set.len() && set[i] == global_wildcard();
    assert(is_global_wildcard(set[i]));
}

/// A wildcard grant by itself implies the permissions of its namespace and
/// no others, unless its namespace is `global`.
pub proof fn lemma_wildcard_grants_its_namespace(namespace: Seq<char>, query: PermissionView)
    ensures
        grants(
            seq![PermissionView { namespace, perm: wildcard_perm(), negator: false }],
            query,
        ) <==> (namespace == query.namespace || namespace == global_namespace()),
{
    let set = seq![PermissionView { namespace, perm: wildcard_perm(), negator: false }];
    if namespace == query.namespace || namespace == global_namespace() {
        assert(covers(set[0], query));
    }
}

/// A negator that covers a permission suppresses every grant of it,
/// wherever the two stand in the set, unless the set holds `global.*`.
pub proof fn lemma_negator_suppresses(
    set: Seq<PermissionView>,
    negator: PermissionView,
    query: PermissionView,
)
    requires
        set.contains(negator),
        negator.negator,
        covers(negator, query),
        !set.contains(global_wildcard()),
    ensures
        !grants(set, query),
{
    let i = choose|i: int| 0 <= i < set.len() && set[i] == negator;
    assert(covers(set[i], query) && set[i].negator);
    assert forall|k: int| 0 <= k < set.len() implies !is_global_wildcard(#[trigger] set[k]) by {
        if is_global_wildcard(set[k]) {
            assert(set[k] == global_wildcard());
        }
    }
}

/// What a set grants depends on its entries alone, not on their order nor
/// on repetitions.
pub proof fn lemma_grants_any_order(
    a: Seq<PermissionView>,
    b: Seq<PermissionView>,
    query: PermissionView,
)
    requires
        forall|e: PermissionView| a.contains(e) <==> b.contains(e),
    ensures
        grants(a, query) == grants(b, query),
{
    if grants(a, query) {
        lemma_grants_carries_over(a, b, query);
    }
    if grants(b, query) {
        lemma_grants_carries_over(b, a, query);
    }
}

/// What a set grants, a set with the same entries grants.
proof fn lemma_grants_carries_over(
    a: Seq<PermissionView>,
    b: Seq<PermissionView>,
    query: PermissionView,
)
    requires
        forall|e: PermissionView| a.contains(e) <==> b.contains(e),
        grants(a, query),
    ensures
        grants(b, query),
{
    if exists|i: int| 0 <= i < a.len() && is_global_wildcard(#[trigger] a[i]) {
        let i = choose|i: int| 0 <= i < a.len() && is_global_wildcard(#[trigger] a[i]);
        assert(a.contains(a[i]));
        let k = choose|k: int| 0 <= k < b.len() && b[k] == a[i];
        assert(is_global_wildcard(b[k]));
    } else {
        let i = choose|i: int| 0 <= i < a.len() && covers(#[trigger] a[i], query);
        assert(a.contains(a[i]));
        let k = choose|k: int| 0 <= k < b.len() && b[k] == a[i];
        assert(covers(b[k], query));
        assert forall|k: int| 0 <= k < b.len() && covers(#[trigger] b[k], query) implies !b[k].negator by {
            assert(b.contains(b[k]));
            let m = choose|m: int| 0 <= m < a.len() && a[m] == b[k];
            assert(covers(a[m], query));
        }
    }
}

/// Whether the set of `perms` grants `perm`.
///
/// The set is taken as given: nothing is resolved here.
pub fn has_perm(perms: &[Permission], perm: &Permission) -> (granted: bool)
    ensures
        granted == grants(perms.deep_view(), perm@),
{
    let ghost set = perms.deep_view();
    let mut covered = false;
    let mut negated = false;
    let mut i: usize = 0;
    while i < perms.len()
        invariant
            i <= perms.len(),
            set == perms.deep_view(),
            forall|k: int| 0 <= k < i ==> !is_global_wildcard(#[trigger] set[k]),
            covered == exists|k: int| 0 <= k < i && covers(#[trigger] set[k], perm@),
            negated == exists|k: int| 0 <= k < i && covers(#[trigger] set[k], perm@) && set[k].negator,
        decreases perms.len() - i,
    {
        let entry = &perms[i];
        assert(entry@ == set[i as int]);
        if !entry.negator && entry.is_global() && entry.is_wildcard() {
            return true;
        }
        if (entry.namespace == perm.namespace || entry.is_global()) && (entry.is_wildcard()
            || entry.perm == perm.perm) {
            covered = true;
            if entry.negator {
                negated = true;
            }
        }
        i += 1;
    }
    covered && !negated
}

/// The permissions that the tokens of `tokens` mean.
pub open spec fn parse_tokens(tokens: Seq<Seq<char>>) -> Seq<PermissionView> {
    tokens.map_values(|token: Seq<char>| parse_token(token))
}

/// Parses every token of a list.
pub fn parse_all(tokens: &[String]) -> (perms: Vec<Permission>)
    ensures
        perms.deep_view() == parse_tokens(tokens.deep_view()),
{
    let mut perms: Vec<Permission> = Vec::new();
    let mut i: usize = 0;
    while i < tokens.len()
        invariant
            i <= tokens.len(),
            perms.len() == i,
            forall|k: int| 0 <= k < i ==> (#[trigger] perms[k])@ == parse_token(tokens[k]@),
        decreases tokens.len() - i,
    {
        perms.push(Permission::from_string(tokens[i].as_str()));
        i += 1;
    }
    perms
}

/// The same as [`has_perm`], on tokens.
pub fn has_perm_str(perms: &[String], perm: &str) -> (granted: bool)
    ensures
        granted == grants(parse_tokens(perms.deep_view()), parse_token(perm@)),
{
    let perm = Permission::from_string(perm);
    let perms = parse_all(perms);
    has_perm(perms.as_slice(), &perm)
}

} // verus!
