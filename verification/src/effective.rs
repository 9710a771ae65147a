//! The effective set as a sequence, and what one permission does to it.
//!
//! An effective set is a sequence of permissions without repetition, in the
//! order in which its entries were inserted. This file is pure mathematics:
//! the functions that read and build effective sets state their contracts
//! over the definitions given here.
use vstd::prelude::*;
use crate::permission::{
    global_namespace, is_clear_directive, is_wildcard_grant, opposite, PermissionView,
};
use crate::sequences::{lemma_filter_keeps_all, lemma_filter_members, lemma_filter_no_duplicates};

verus! {

/// `s` with `p` appended unless `s` already holds it.
pub open spec fn put(s: Seq<PermissionView>, p: PermissionView) -> Seq<PermissionView> {
    if s.contains(p) {
        s
    } else {
        s.push(p)
    }
}

/// The test "differs from `p`".
pub open spec fn other_than(p: PermissionView) -> spec_fn(PermissionView) -> bool {
    |e: PermissionView| e != p
}

/// `s` without `p`; the other entries keep their order.
pub open spec fn without(s: Seq<PermissionView>, p: PermissionView) -> Seq<PermissionView> {
    s.filter(other_than(p))
}

/// The test that an entry survives the removal of a namespace: it lies in
/// another namespace or, where only negators are removed, it is a grant.
pub open spec fn survives(namespace: Seq<char>, negators_only: bool) -> spec_fn(
    PermissionView,
) -> bool {
    |e: PermissionView| !(e.namespace == namespace && (e.negator || !negators_only))
}

/// `s` once `p` has been set: the entry of the opposite sign leaves, and `p`
/// is appended unless it is already there.
pub open spec fn set_entry(s: Seq<PermissionView>, p: PermissionView) -> Seq<PermissionView> {
    put(without(s, opposite(p)), p)
}

/// The effective set after one permission of a layer has been applied.
///
/// A clear directive empties the set when its namespace is `global` and
/// otherwise removes the entries of its namespace; it is not inserted. Any
/// other permission is set in place of its opposite; a wildcard grant first
/// removes the negators of its namespace.
pub open spec fn apply_perm(applied: Seq<PermissionView>, p: PermissionView) -> Seq<
    PermissionView,
> {
    if is_clear_directive(p) {
        if p.namespace == global_namespace() {
            Seq::empty()
        } else {
            applied.filter(survives(p.namespace, false))
        }
    } else if is_wildcard_grant(p) {
        set_entry(applied.filter(survives(p.namespace, true)), p)
    } else {
        set_entry(applied, p)
    }
}

/// The effective set after the permissions of `perms` have been applied in
/// their order.
pub open spec fn apply_perms(applied: Seq<PermissionView>, perms: Seq<PermissionView>) -> Seq<
    PermissionView,
>
    decreases perms.len(),
{
    if perms.len() == 0 {
        applied
    } else {
        apply_perm(apply_perms(applied, perms.drop_last()), perms.last())
    }
}

/// Whether `s` is an effective set: no entry occurs twice, and no
/// permission is in it both as a grant and as a negator.
pub open spec fn is_effective_set(s: Seq<PermissionView>) -> bool {
    &&& s.no_duplicates()
    &&& forall|e: PermissionView| s.contains(e) ==> !s.contains(#[trigger] opposite(e))
}

/// Removing an entry that is not there changes nothing.
pub proof fn lemma_without_absent(s: Seq<PermissionView>, p: PermissionView)
    requires
        !s.contains(p),
    ensures
        without(s, p) == s,
{
    lemma_filter_keeps_all(s, other_than(p));
}

/// The entries of a set in which `p` has been set: `p`, and the former
/// entries but for the opposite of `p`.
pub proof fn lemma_set_entry_members(s: Seq<PermissionView>, p: PermissionView, e: PermissionView)
    ensures
        set_entry(s, p).contains(e) <==> e == p || (s.contains(e) && e != opposite(p)),
{
    let rest = without(s, opposite(p));
    lemma_filter_members(s, other_than(opposite(p)), e);
    if !rest.contains(p) {
        assert(rest.push(p)[rest.len() as int] == p);
        if rest.contains(e) {
            let i = choose|i: int| 0 <= i < rest.len() && rest[i] == e;
            assert(rest.push(p)[i] == e);
        }
        if rest.push(p).contains(e) && e != p {
            let i = choose|i: int| 0 <= i < rest.push(p).len() && rest.push(p)[i] == e;
            assert(rest[i] == e);
        }
    }
}

/// A filtered effective set is an effective set.
pub proof fn lemma_filter_effective(s: Seq<PermissionView>, pred: spec_fn(PermissionView) -> bool)
    requires
        is_effective_set(s),
    ensures
        is_effective_set(s.filter(pred)),
{
    lemma_filter_no_duplicates(s, pred);
    assert forall|e: PermissionView| s.filter(pred).contains(e) implies !s.filter(pred).contains(
        #[trigger] opposite(e),
    ) by {
        lemma_filter_members(s, pred, e);
        lemma_filter_members(s, pred, opposite(e));
    }
}

/// Setting an entry in an effective set gives an effective set.
pub proof fn lemma_set_entry_effective(s: Seq<PermissionView>, p: PermissionView)
    requires
        is_effective_set(s),
    ensures
        is_effective_set(set_entry(s, p)),
{
    let rest = without(s, opposite(p));
    lemma_filter_no_duplicates(s, other_than(opposite(p)));
    assert forall|e: PermissionView| set_entry(s, p).contains(e) implies !set_entry(s, p).contains(
        #[trigger] opposite(e),
    ) by {
        lemma_set_entry_members(s, p, e);
        lemma_set_entry_members(s, p, opposite(e));
        assert(opposite(opposite(e)) == e);
    }
}

/// Applying a permission to an effective set gives an effective set.
pub proof fn lemma_apply_perm_effective(applied: Seq<PermissionView>, p: PermissionView)
    requires
        is_effective_set(applied),
    ensures
        is_effective_set(apply_perm(applied, p)),
{
    if is_clear_directive(p) {
        if p.namespace == global_namespace() {
            assert(forall|e: PermissionView| !Seq::<PermissionView>::empty().contains(e));
        } else {
            lemma_filter_effective(applied, survives(p.namespace, false));
        }
    } else if is_wildcard_grant(p) {
        lemma_filter_effective(applied, survives(p.namespace, true));
        lemma_set_entry_effective(applied.filter(survives(p.namespace, true)), p);
    } else {
        lemma_set_entry_effective(applied, p);
    }
}

/// Applying a list of permissions to an effective set gives an effective set.
pub proof fn lemma_apply_perms_effective(applied: Seq<PermissionView>, perms: Seq<PermissionView>)
    requires
        is_effective_set(applied),
    ensures
        is_effective_set(apply_perms(applied, perms)),
    decreases perms.len(),
{
    if perms.len() > 0 {
        lemma_apply_perms_effective(applied, perms.drop_last());
        lemma_apply_perm_effective(apply_perms(applied, perms.drop_last()), perms.last());
    }
}

/// Applying a list is applying its front part and then its back part.
pub proof fn lemma_apply_perms_concat(
    applied: Seq<PermissionView>,
    front: Seq<PermissionView>,
    back: Seq<PermissionView>,
)
    ensures
        apply_perms(applied, front + back) == apply_perms(apply_perms(applied, front), back),
    decreases back.len(),
{
    if back.len() == 0 {
        assert(front + back =~= front);
    } else {
        assert((front + back).drop_last() =~= front + back.drop_last());
        lemma_apply_perms_concat(applied, front, back.drop_last());
    }
}

/// A clear directive of the namespace `global` wipes everything that was
/// accumulated before it, and nothing of what comes after it: the result is
/// that of the permissions behind the directive alone.
pub proof fn lemma_clear_global(
    applied: Seq<PermissionView>,
    before: Seq<PermissionView>,
    clear: PermissionView,
    after: Seq<PermissionView>,
)
    requires
        is_clear_directive(clear),
        clear.namespace == global_namespace(),
    ensures
        apply_perms(applied, before.push(clear) + after) == apply_perms(Seq::empty(), after),
{
    lemma_apply_perms_concat(applied, before.push(clear), after);
    assert(before.push(clear).drop_last() =~= before);
}

/// A clear directive of another namespace wipes the entries of that
/// namespace that were accumulated before it and keeps all others in their
/// order; what comes after it is applied to what it left.
pub proof fn lemma_clear_namespace(
    applied: Seq<PermissionView>,
    before: Seq<PermissionView>,
    clear: PermissionView,
    after: Seq<PermissionView>,
)
    requires
        is_clear_directive(clear),
        clear.namespace != global_namespace(),
    ensures
        apply_perms(applied, before.push(clear) + after) == apply_perms(
            apply_perms(applied, before).filter(survives(clear.namespace, false)),
            after,
        ),
        forall|e: PermissionView|
            apply_perms(applied, before).filter(survives(clear.namespace, false)).contains(e) <==> (
            apply_perms(applied, before).contains(e) && e.namespace != clear.namespace),
{
    lemma_apply_perms_concat(applied, before.push(clear), after);
    assert(before.push(clear).drop_last() =~= before);
    assert forall|e: PermissionView|
        apply_perms(applied, before).filter(survives(clear.namespace, false)).contains(e) <==> (
        apply_perms(applied, before).contains(e) && e.namespace != clear.namespace) by {
        lemma_filter_members(apply_perms(applied, before), survives(clear.namespace, false), e);
    }
}

/// Whether applying `q` takes the entry `p` out of a set: `q` clears the
/// namespace of `p`, or is its opposite, or is a wildcard grant in the
/// namespace of the negator `p`.
pub open spec fn displaces(q: PermissionView, p: PermissionView) -> bool {
    if is_clear_directive(q) {
        q.namespace == global_namespace() || q.namespace == p.namespace
    } else {
        q == opposite(p) || (is_wildcard_grant(q) && p.negator && p.namespace == q.namespace)
    }
}

/// A permission that is no clear directive is in the set once it has been
/// applied, and its opposite is not.
pub proof fn lemma_apply_perm_sets(applied: Seq<PermissionView>, p: PermissionView)
    requires
        !is_clear_directive(p),
    ensures
        apply_perm(applied, p).contains(p),
        !apply_perm(applied, p).contains(opposite(p)),
{
    let base = if is_wildcard_grant(p) {
        applied.filter(survives(p.namespace, true))
    } else {
        applied
    };
    lemma_set_entry_members(base, p, p);
    lemma_set_entry_members(base, p, opposite(p));
}

/// An entry stays in the set, and its opposite out of it, when a permission
/// is applied that does not displace it.
pub proof fn lemma_apply_perm_keeps(
    applied: Seq<PermissionView>,
    q: PermissionView,
    p: PermissionView,
)
    requires
        applied.contains(p),
        !applied.contains(opposite(p)),
        !displaces(q, p),
    ensures
        apply_perm(applied, q).contains(p),
        !apply_perm(applied, q).contains(opposite(p)),
{
    if is_clear_directive(q) {
        lemma_filter_members(applied, survives(q.namespace, false), p);
        lemma_filter_members(applied, survives(q.namespace, false), opposite(p));
    } else {
        let base = if is_wildcard_grant(q) {
            applied.filter(survives(q.namespace, true))
        } else {
            applied
        };
        if is_wildcard_grant(q) {
            lemma_filter_members(applied, survives(q.namespace, true), p);
            lemma_filter_members(applied, survives(q.namespace, true), opposite(p));
        }
        lemma_set_entry_members(base, q, p);
        lemma_set_entry_members(base, q, opposite(p));
        assert(opposite(opposite(p)) == p);
    }
}

/// The last word: a permission of a list that no later permission of the
/// list displaces is in the result, and its opposite is not.
pub proof fn lemma_apply_perms_last_word(
    applied: Seq<PermissionView>,
    perms: Seq<PermissionView>,
    i: int,
)
    requires
        0 <= i < perms.len(),
        !is_clear_directive(perms[i]),
        forall|j: int| i < j < perms.len() ==> !displaces(#[trigger] perms[j], perms[i]),
    ensures
        apply_perms(applied, perms).contains(perms[i]),
        !apply_perms(applied, perms).contains(opposite(perms[i])),
    decreases perms.len(),
{
    let front = perms.drop_last();
    if i == perms.len() - 1 {
        lemma_apply_perm_sets(apply_perms(applied, front), perms.last());
    } else {
        assert(front[i] == perms[i]);
        assert forall|j: int| i < j < front.len() implies !displaces(
            #[trigger] front[j],
            front[i],
        ) by {
            assert(front[j] == perms[j]);
        }
        lemma_apply_perms_last_word(applied, front, i);
        lemma_apply_perm_keeps(apply_perms(applied, front), perms.last(), perms[i]);
    }
}

} // verus!
