//! Resolution: from ranked positions and overrides to one effective set.
use vstd::prelude::*;
use crate::applied::{
    applied_clear, applied_contains, applied_insert, applied_keys, applied_new,
    applied_permissions, applied_remove, AppliedMap,
};
use crate::effective::{
    apply_perm, apply_perms, displaces, is_effective_set, lemma_apply_perm_effective,
    lemma_apply_perms_effective, lemma_apply_perms_last_word, lemma_clear_global,
    lemma_without_absent, other_than, set_entry, survives, without,
};
use crate::permission::{
    global_namespace, is_clear_directive, opposite, Permission, PermissionView,
};
use crate::position::{PartialStaffPosition, PositionView, StaffPermissions, StaffPermissionsView};
use crate::ranking::{
    is_ranked, lemma_distinct_ranks_any_order, lemma_sort_of_ranked, lemma_sort_stable,
    lemma_sort_unique, of_rank, order_layers, ranks_distinct, same_order_within_ranks,
    sort_by_rank,
};
use crate::sequences::{lemma_filter_keeps_all, lemma_filter_members};

verus! {

/// The layer that the overrides form: rank 0, under the id `perm_overrides`.
pub open spec fn override_layer(overrides: Seq<PermissionView>) -> PositionView {
    PositionView { id: "perm_overrides"@, index: 0, perms: overrides }
}

/// The effective set after the given layers have been applied in their
/// order, each with its permissions in their order.
pub open spec fn apply_layers(applied: Seq<PermissionView>, layers: Seq<PositionView>) -> Seq<
    PermissionView,
>
    decreases layers.len(),
{
    if layers.len() == 0 {
        applied
    } else {
        apply_perms(apply_layers(applied, layers.drop_last()), layers.last().perms)
    }
}

/// The layers of a staff member in the order of application: the positions
/// and, added behind them as one more layer, the overrides, sorted by rank.
pub open spec fn layers_in_order(staff: StaffPermissionsView) -> Seq<PositionView> {
    sort_by_rank(staff.user_positions.push(override_layer(staff.perm_overrides)))
}

/// The effective set of a staff member.
pub open spec fn resolved_set(staff: StaffPermissionsView) -> Seq<PermissionView> {
    apply_layers(Seq::empty(), layers_in_order(staff))
}

/// Applying layers to an effective set gives an effective set.
pub proof fn lemma_apply_layers_effective(applied: Seq<PermissionView>, layers: Seq<PositionView>)
    requires
        is_effective_set(applied),
    ensures
        is_effective_set(apply_layers(applied, layers)),
    decreases layers.len(),
{
    if layers.len() > 0 {
        lemma_apply_layers_effective(applied, layers.drop_last());
        lemma_apply_perms_effective(apply_layers(applied, layers.drop_last()), layers.last().perms);
    }
}

/// The effective set of a staff member is an effective set.
pub proof fn lemma_resolved_set_effective(staff: StaffPermissionsView)
    ensures
        is_effective_set(resolved_set(staff)),
{
    assert(is_effective_set(Seq::<PermissionView>::empty())) by {
        assert(forall|e: PermissionView| !Seq::<PermissionView>::empty().contains(e));
    }
    lemma_apply_layers_effective(Seq::empty(), layers_in_order(staff));
}

/// Sorting happens inside: the effective set does not depend on the order
/// in which the positions are given, as long as positions of equal rank
/// keep their order among themselves.
pub proof fn lemma_resolve_any_order(a: StaffPermissionsView, b: StaffPermissionsView)
    requires
        a.perm_overrides == b.perm_overrides,
        same_order_within_ranks(a.user_positions, b.user_positions),
    ensures
        resolved_set(a) == resolved_set(b),
{
    let la = a.user_positions.push(override_layer(a.perm_overrides));
    let lb = b.user_positions.push(override_layer(b.perm_overrides));
    assert forall|rank: int| #[trigger] la.filter(of_rank(rank)) == lb.filter(of_rank(rank)) by {
        assert(a.user_positions.filter(of_rank(rank)) == b.user_positions.filter(of_rank(rank)));
        a.user_positions.lemma_filter_push(override_layer(a.perm_overrides), of_rank(rank));
        b.user_positions.lemma_filter_push(override_layer(b.perm_overrides), of_rank(rank));
    }
    lemma_sort_unique(la, lb);
}

/// Positions of pairwise distinct ranks resolve to the same effective set
/// in whatever order they are given.
pub proof fn lemma_resolve_reordered(a: StaffPermissionsView, b: StaffPermissionsView)
    requires
        a.perm_overrides == b.perm_overrides,
        ranks_distinct(a.user_positions),
        a.user_positions.to_multiset() == b.user_positions.to_multiset(),
    ensures
        resolved_set(a) == resolved_set(b),
{
    lemma_distinct_ranks_any_order(a.user_positions, b.user_positions);
    lemma_resolve_any_order(a, b);
}

/// Sorting the positions beforehand changes nothing: the effective set of
/// the positions in their order of application is that of the positions as
/// they were given.
pub proof fn lemma_resolve_presorted(staff: StaffPermissionsView)
    ensures
        resolved_set(
            StaffPermissionsView {
                user_positions: sort_by_rank(staff.user_positions),
                perm_overrides: staff.perm_overrides,
            },
        ) == resolved_set(staff),
{
    lemma_sort_stable(staff.user_positions);
    lemma_resolve_any_order(
        StaffPermissionsView {
            user_positions: sort_by_rank(staff.user_positions),
            perm_overrides: staff.perm_overrides,
        },
        staff,
    );
}

/// Whether no position has a rank below that of the overrides.
pub open spec fn ranks_at_least_zero(positions: Seq<PositionView>) -> bool {
    forall|i: int| 0 <= i < positions.len() ==> (#[trigger] positions[i]).index >= 0
}

/// The overrides are applied last, to what the positions alone resolve to,
/// whatever the ranks of the positions, as long as none is negative.
pub proof fn lemma_overrides_apply_last(staff: StaffPermissionsView)
    requires
        ranks_at_least_zero(staff.user_positions),
    ensures
        resolved_set(staff) == apply_perms(
            apply_layers(Seq::empty(), sort_by_rank(staff.user_positions)),
            staff.perm_overrides,
        ),
{
    let positions = staff.user_positions;
    let last = override_layer(staff.perm_overrides);
    let sorted = sort_by_rank(positions);
    assert(positions.push(last).drop_last() =~= positions);
    if sorted.len() > 0 {
        let senior = sorted.last();
        assert(sorted[sorted.len() - 1] == senior);
        lemma_sort_stable(positions);
        assert(sorted.filter(of_rank(senior.index)) == positions.filter(of_rank(senior.index)));
        lemma_filter_members(sorted, of_rank(senior.index), senior);
        lemma_filter_members(positions, of_rank(senior.index), senior);
        let k = choose|k: int| 0 <= k < positions.len() && positions[k] == senior;
        assert(positions[k].index >= 0);
    }
    assert(sorted.push(last).drop_last() =~= sorted);
}

/// An override wins over every position: where no position has a negative
/// rank, an override that is no clear directive and that no later override
/// displaces is in the effective set, and its opposite is not.
pub proof fn lemma_override_wins(staff: StaffPermissionsView, i: int)
    requires
        ranks_at_least_zero(staff.user_positions),
        0 <= i < staff.perm_overrides.len(),
        !is_clear_directive(staff.perm_overrides[i]),
        forall|j: int|
            i < j < staff.perm_overrides.len() ==> !displaces(
                #[trigger] staff.perm_overrides[j],
                staff.perm_overrides[i],
            ),
    ensures
        resolved_set(staff).contains(staff.perm_overrides[i]),
        !resolved_set(staff).contains(opposite(staff.perm_overrides[i])),
{
    lemma_overrides_apply_last(staff);
    lemma_apply_perms_last_word(
        apply_layers(Seq::empty(), sort_by_rank(staff.user_positions)),
        staff.perm_overrides,
        i,
    );
}

/// Positions that are given by descending rank, none of them negative, are
/// applied as they stand, and the overrides after them.
pub proof fn lemma_resolve_in_order(staff: StaffPermissionsView)
    requires
        is_ranked(staff.user_positions),
        ranks_at_least_zero(staff.user_positions),
    ensures
        resolved_set(staff) == apply_perms(
            apply_layers(Seq::empty(), staff.user_positions),
            staff.perm_overrides,
        ),
{
    lemma_overrides_apply_last(staff);
    lemma_sort_of_ranked(staff.user_positions);
}

/// Applying layers is applying the junior ones and then the senior ones.
pub proof fn lemma_apply_layers_concat(
    applied: Seq<PermissionView>,
    junior: Seq<PositionView>,
    senior: Seq<PositionView>,
)
    ensures
        apply_layers(applied, junior + senior) == apply_layers(
            apply_layers(applied, junior),
            senior,
        ),
    decreases senior.len(),
{
    if senior.len() == 0 {
        assert(junior + senior =~= junior);
    } else {
        assert((junior + senior).drop_last() =~= junior + senior.drop_last());
        lemma_apply_layers_concat(applied, junior, senior.drop_last());
    }
}

/// A clear directive of the namespace `global` in a layer wipes what that
/// layer has applied so far and what the layers before it have; the layers
/// after it are applied to what the rest of that layer gives.
pub proof fn lemma_clear_global_in_layer(
    applied: Seq<PermissionView>,
    junior: Seq<PositionView>,
    layer: PositionView,
    senior: Seq<PositionView>,
    before: Seq<PermissionView>,
    clear: PermissionView,
    after: Seq<PermissionView>,
)
    requires
        layer.perms == before.push(clear) + after,
        is_clear_directive(clear),
        clear.namespace == global_namespace(),
    ensures
        apply_layers(applied, junior.push(layer) + senior) == apply_layers(
            apply_perms(Seq::empty(), after),
            senior,
        ),
{
    lemma_apply_layers_concat(applied, junior.push(layer), senior);
    assert(junior.push(layer).drop_last() =~= junior);
    lemma_clear_global(apply_layers(applied, junior), before, clear, after);
}

/// One step of the removal of a namespace: the entries before `i` have been
/// dealt with, and the entry at `i` is dealt with now.
proof fn lemma_removal_step(
    keys: Seq<PermissionView>,
    i: int,
    keep: spec_fn(PermissionView) -> bool,
)
    requires
        keys.no_duplicates(),
        0 <= i < keys.len(),
    ensures
        keep(keys[i]) ==> keys.take(i).filter(keep) + keys.skip(i) == keys.take(i + 1).filter(keep)
            + keys.skip(i + 1),
        !keep(keys[i]) ==> without(keys.take(i).filter(keep) + keys.skip(i), keys[i])
            == keys.take(i + 1).filter(keep) + keys.skip(i + 1),
{
    let k = keys[i];
    let done = keys.take(i).filter(keep);
    assert(keys.take(i + 1) =~= keys.take(i).push(k));
    keys.take(i).lemma_filter_push(k, keep);
    if keep(k) {
        assert(done + keys.skip(i) =~= done.push(k) + keys.skip(i + 1));
    } else {
        let differs = other_than(k);
        Seq::filter_distributes_over_add(done, keys.skip(i), differs);
        assert forall|j: int| 0 <= j < done.len() implies differs(#[trigger] done[j]) by {
            lemma_filter_members(keys.take(i), keep, done[j]);
            let m = choose|m: int| 0 <= m < keys.take(i).len() && keys.take(i)[m] == done[j];
            assert(keys[m] == done[j]);
        }
        lemma_filter_keeps_all(done, differs);
        assert(keys.skip(i) =~= seq![k] + keys.skip(i + 1));
        Seq::filter_distributes_over_add(seq![k], keys.skip(i + 1), differs);
        assert(seq![k].filter(differs) =~= Seq::<PermissionView>::empty()) by {
            reveal_with_fuel(Seq::filter, 2);
        }
        assert forall|j: int| 0 <= j < keys.skip(i + 1).len() implies differs(
            #[trigger] keys.skip(i + 1)[j],
        ) by {
            assert(keys[i + 1 + j] != keys[i]);
        }
        lemma_filter_keeps_all(keys.skip(i + 1), differs);
        assert(done + (Seq::<PermissionView>::empty() + keys.skip(i + 1)) =~= done + keys.skip(
            i + 1,
        ));
    }
}

/// Removes from the map the entries of the namespace of `perm`: all of them,
/// or only the negators.
fn remove_namespace(
    applied: &mut AppliedMap,
    perm: &Permission,
    negators_only: bool,
)
    requires
        applied_keys(*old(applied)).no_duplicates(),
    ensures
        applied_keys(*final(applied)) == applied_keys(*old(applied)).filter(
            survives(perm@.namespace, negators_only),
        ),
{
    let snapshot = applied_permissions(applied);
    let ghost keys = applied_keys(*applied);
    let ghost keep = survives(perm@.namespace, negators_only);
    let mut i: usize = 0;
    assert(keys.take(0).filter(keep) + keys.skip(0) =~= keys) by {
        reveal(Seq::filter);
    }
    while i < snapshot.len()
        invariant
            i <= snapshot.len(),
            snapshot.deep_view() == keys,
            keys.no_duplicates(),
            keep == survives(perm@.namespace, negators_only),
            applied_keys(*applied) == keys.take(i as int).filter(keep) + keys.skip(i as int),
        decreases snapshot.len() - i,
    {
        let key = &snapshot[i];
        proof {
            lemma_removal_step(keys, i as int, keep);
        }
        if key.namespace == perm.namespace && (key.negator || !negators_only) {
            applied_remove(applied, key);
        }
        i += 1;
    }
}

/// Sets `perm` in the map in place of its opposite.
fn set_permission(applied: &mut AppliedMap, perm: &Permission, index: i32)
    ensures
        applied_keys(*final(applied)) == set_entry(applied_keys(*old(applied)), perm@),
{
    let other = Permission {
        namespace: perm.namespace.clone(),
        perm: perm.perm.clone(),
        negator: !perm.negator,
    };
    if applied_contains(applied, &other) {
        applied_remove(applied, &other);
        applied_insert(applied, perm, index);
    } else {
        proof {
            lemma_without_absent(applied_keys(*applied), other@);
        }
        if !applied_contains(applied, perm) {
            applied_insert(applied, perm, index);
        }
    }
}

/// Applies one permission of a layer of rank `index` to the map.
fn apply_permission(
    applied: &mut AppliedMap,
    perm: &Permission,
    index: i32,
)
    requires
        is_effective_set(applied_keys(*old(applied))),
    ensures
        applied_keys(*final(applied)) == apply_perm(applied_keys(*old(applied)), perm@),
        is_effective_set(applied_keys(*final(applied))),
{
    proof {
        lemma_apply_perm_effective(applied_keys(*applied), perm@);
    }
    if perm.is_clear() {
        if perm.is_global() {
            applied_clear(applied);
        } else {
            remove_namespace(applied, perm, false);
        }
    } else {
        if !perm.negator && perm.is_wildcard() {
            remove_namespace(applied, perm, true);
        }
        set_permission(applied, perm, index);
    }
}

impl StaffPermissions {
    /// Resolves the positions and overrides into the effective set.
    ///
    /// The layers are applied from the highest rank number to the lowest,
    /// the overrides as a layer of rank 0 that was given last; what comes
    /// out is the effective set in the order of insertion.
    pub fn resolve(&self) -> (resolved: Vec<Permission>)
        ensures
            resolved.deep_view() == resolved_set(self@),
            is_effective_set(resolved.deep_view()),
    {
        let overrides = PartialStaffPosition {
            id: "perm_overrides".to_owned(),
            index: 0,
            perms: self.perm_overrides.clone(),
        };
        let layers = order_layers(&self.user_positions, &overrides);
        let ghost order = layers.deep_view();

        let mut applied = applied_new();
        let mut l: usize = 0;
        while l < layers.len()
            invariant
                l <= layers.len(),
                layers.deep_view() == order,
                is_effective_set(applied_keys(applied)),
                applied_keys(applied) == apply_layers(Seq::empty(), order.take(l as int)),
            decreases layers.len() - l,
        {
            let layer = layers[l];
            let ghost start = applied_keys(applied);
            let mut j: usize = 0;
            while j < layer.perms.len()
                invariant
                    j <= layer.perms.len(),
                    is_effective_set(applied_keys(applied)),
                    applied_keys(applied) == apply_perms(start, layer@.perms.take(j as int)),
                decreases layer.perms.len() - j,
            {
                apply_permission(&mut applied, &layer.perms[j], layer.index);
                assert(layer@.perms.take(j + 1).drop_last() =~= layer@.perms.take(j as int));
                j += 1;
            }
            assert(layer@.perms.take(j as int) =~= layer@.perms);
            assert(order.take(l + 1).drop_last() =~= order.take(l as int));
            l += 1;
        }
        assert(order.take(l as int) =~= order);
        applied_permissions(&applied)
    }
}

} // verus!
