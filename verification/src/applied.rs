//! The insertion-ordered map that the resolver accumulates into.
//!
//! The map is `indexmap::IndexMap`. Its keys are triples of standard values
//! (namespace, permission name, negation flag), so that key equality and
//! hashing are those of the standard library; the value stored with a key is
//! the rank of the layer that inserted it. Verus cannot look inside the map,
//! so everything in this file is taken on trust: the contracts restate what
//! the documentation of `indexmap` promises about the order of the keys.
use vstd::prelude::*;
use indexmap::IndexMap;
use crate::effective::{put, without};
use crate::permission::{Permission, PermissionView};

verus! {

/// Makes `indexmap::IndexMap` known to the verifier, as a type whose values
/// it cannot look into.
#[verifier::external_type_specification]
#[verifier::external_body]
#[verifier::reject_recursive_types(K)]
#[verifier::reject_recursive_types(V)]
#[verifier::reject_recursive_types(S)]
pub struct ExIndexMap<K, V, S>(IndexMap<K, V, S>);

/// The map of the resolver: from (namespace, permission name, negation flag)
/// to the rank of the layer that inserted the entry.
pub type AppliedMap = IndexMap<(String, String, bool), i32>;

/// The keys of the map in its iteration order, each read as a permission.
pub uninterp spec fn applied_keys(applied: AppliedMap) -> Seq<PermissionView>;

/// An empty map.
///
/// Trusted: `IndexMap::new` creates a map without entries.
#[verifier::external_body]
pub(crate) fn applied_new() -> (applied: AppliedMap)
    ensures
        applied_keys(applied) == Seq::<PermissionView>::empty(),
{
    IndexMap::new()
}

/// Whether the map holds `perm`.
///
/// Trusted: `IndexMap::contains_key` returns `true` exactly when a key of
/// the map equals the given one.
#[verifier::external_body]
pub(crate) fn applied_contains(applied: &AppliedMap, perm: &Permission) -> (held: bool)
    ensures
        held == applied_keys(*applied).contains(perm@),
{
    applied.contains_key(&(perm.namespace.clone(), perm.perm.clone(), perm.negator))
}

/// Inserts `perm` with the rank `index`.
///
/// Trusted: `IndexMap::insert` leaves a key that is already present in its
/// place and only replaces its value; a new key is inserted last in order.
#[verifier::external_body]
pub(crate) fn applied_insert(applied: &mut AppliedMap, perm: &Permission, index: i32)
    ensures
        applied_keys(*final(applied)) == put(applied_keys(*old(applied)), perm@),
{
    applied.insert((perm.namespace.clone(), perm.perm.clone(), perm.negator), index);
}

/// Removes `perm`, if the map holds it. The order of insertion is part of
/// what resolution promises, so the removal is the one that keeps it.
///
/// Trusted: `IndexMap::shift_remove` removes the entry of the key and shifts
/// the entries after it, so that the others keep their relative order; it
/// changes nothing when the key is absent. The keys of a map are distinct,
/// so the keys that remain are those that differ from the given one.
#[verifier::external_body]
pub(crate) fn applied_remove(applied: &mut AppliedMap, perm: &Permission)
    ensures
        applied_keys(*final(applied)) == without(applied_keys(*old(applied)), perm@),
{
    applied.shift_remove(&(perm.namespace.clone(), perm.perm.clone(), perm.negator));
}

/// Removes every entry.
///
/// Trusted: `IndexMap::clear` removes all key-value pairs.
#[verifier::external_body]
pub(crate) fn applied_clear(applied: &mut AppliedMap)
    ensures
        applied_keys(*final(applied)) == Seq::<PermissionView>::empty(),
{
    applied.clear();
}

/// The keys of the map as permissions, in the map's order.
///
/// Trusted: `IndexMap::keys` walks the keys in the order of the map.
#[verifier::external_body]
pub(crate) fn applied_permissions(applied: &AppliedMap) -> (perms: Vec<Permission>)
    ensures
        perms.deep_view() == applied_keys(*applied),
{
    applied
        .keys()
        .map(|key| Permission { namespace: key.0.clone(), perm: key.1.clone(), negator: key.2 })
        .collect()
}

} // verus!
