//! The order in which layers apply: by descending rank, stably.
use vstd::prelude::*;
use vstd::seq_lib::to_multiset_contains;
use crate::position::{PartialStaffPosition, PositionView};
use crate::sequences::{lemma_filter_members, lemma_filter_no_duplicates};

verus! {

/// `layers` with `layer` inserted behind every layer whose rank is not
/// smaller: it moves forward only past layers of strictly smaller rank.
pub open spec fn insert_by_rank(layers: Seq<PositionView>, layer: PositionView) -> Seq<
    PositionView,
>
    decreases layers.len(),
{
    if layers.len() == 0 || layers.last().index >= layer.index {
        layers.push(layer)
    } else {
        insert_by_rank(layers.drop_last(), layer).push(layers.last())
    }
}

/// `layers` in the order of application: by descending rank, layers of
/// equal rank in their given order.
pub open spec fn sort_by_rank(layers: Seq<PositionView>) -> Seq<PositionView>
    decreases layers.len(),
{
    if layers.len() == 0 {
        layers
    } else {
        insert_by_rank(sort_by_rank(layers.drop_last()), layers.last())
    }
}

/// Whether the ranks never rise along the sequence.
pub open spec fn is_ranked(layers: Seq<PositionView>) -> bool {
    forall|i: int, j: int| 0 <= i < j < layers.len() ==> layers[i].index >= layers[j].index
}

/// The test "has the rank `rank`".
pub open spec fn of_rank(rank: int) -> spec_fn(PositionView) -> bool {
    |layer: PositionView| layer.index == rank
}

/// Whether `b` holds the layers of `a` with the layers of each rank in the
/// same order among themselves.
pub open spec fn same_order_within_ranks(a: Seq<PositionView>, b: Seq<PositionView>) -> bool {
    forall|rank: int| #[trigger] a.filter(of_rank(rank)) == b.filter(of_rank(rank))
}

/// The place at which `insert_by_rank` puts a layer.
proof fn lemma_insert_by_rank_place(layers: Seq<PositionView>, layer: PositionView) -> (at: int)
    ensures
        0 <= at <= layers.len(),
        insert_by_rank(layers, layer) == layers.insert(at, layer),
        forall|j: int| at <= j < layers.len() ==> layers[j].index < layer.index,
        at > 0 ==> layers[at - 1].index >= layer.index,
    decreases layers.len(),
{
    if layers.len() == 0 || layers.last().index >= layer.index {
        assert(layers.push(layer) =~= layers.insert(layers.len() as int, layer));
        layers.len() as int
    } else {
        let front = layers.drop_last();
        let at = lemma_insert_by_rank_place(front, layer);
        assert(front.insert(at, layer).push(layers.last()) =~= layers.insert(at, layer));
        assert forall|j: int| at <= j < layers.len() implies layers[j].index < layer.index by {
            if j < front.len() {
                assert(layers[j] == front[j]);
            }
        }
        if at > 0 {
            assert(layers[at - 1] == front[at - 1]);
        }
        at
    }
}

/// Inserting by rank keeps the ranks from rising.
proof fn lemma_insert_by_rank_ranked(layers: Seq<PositionView>, layer: PositionView)
    requires
        is_ranked(layers),
    ensures
        is_ranked(insert_by_rank(layers, layer)),
{
    let at = lemma_insert_by_rank_place(layers, layer);
    let out = layers.insert(at, layer);
    assert forall|i: int, j: int| 0 <= i < j < out.len() implies out[i].index >= out[j].index by {
        if i < at && j > at {
            assert(out[i] == layers[i] && out[j] == layers[j - 1]);
        } else if i < at && j == at {
            assert(layers[i].index >= layers[at - 1].index);
        } else if i < at {
            assert(out[i] == layers[i] && out[j] == layers[j]);
        } else if i == at {
            assert(out[j] == layers[j - 1]);
        } else {
            assert(out[i] == layers[i - 1] && out[j] == layers[j - 1]);
        }
    }
}

/// Inserting by rank adds the layer behind the layers of its rank and
/// leaves the layers of every other rank as they were.
proof fn lemma_insert_by_rank_within_rank(layers: Seq<PositionView>, layer: PositionView, rank: int)
    ensures
        insert_by_rank(layers, layer).filter(of_rank(rank)) == if layer.index == rank {
            layers.filter(of_rank(rank)).push(layer)
        } else {
            layers.filter(of_rank(rank))
        },
    decreases layers.len(),
{
    if layers.len() == 0 || layers.last().index >= layer.index {
        layers.lemma_filter_push(layer, of_rank(rank));
    } else {
        let front = layers.drop_last();
        lemma_insert_by_rank_within_rank(front, layer, rank);
        insert_by_rank(front, layer).lemma_filter_push(layers.last(), of_rank(rank));
        front.lemma_filter_push(layers.last(), of_rank(rank));
        assert(front.push(layers.last()) =~= layers);
    }
}

/// The order of application has the ranks never rising.
pub proof fn lemma_sort_ranked(layers: Seq<PositionView>)
    ensures
        is_ranked(sort_by_rank(layers)),
    decreases layers.len(),
{
    if layers.len() > 0 {
        lemma_sort_ranked(layers.drop_last());
        lemma_insert_by_rank_ranked(sort_by_rank(layers.drop_last()), layers.last());
    }
}

/// The order of application is stable: it holds the same layers, those of
/// each rank in their given order.
pub proof fn lemma_sort_stable(layers: Seq<PositionView>)
    ensures
        same_order_within_ranks(sort_by_rank(layers), layers),
    decreases layers.len(),
{
    assert forall|rank: int| #[trigger]
        sort_by_rank(layers).filter(of_rank(rank)) == layers.filter(of_rank(rank)) by {
        if layers.len() > 0 {
            let front = layers.drop_last();
            lemma_sort_stable(front);
            assert(sort_by_rank(front).filter(of_rank(rank)) == front.filter(of_rank(rank)));
            lemma_insert_by_rank_within_rank(sort_by_rank(front), layers.last(), rank);
            front.lemma_filter_push(layers.last(), of_rank(rank));
            assert(front.push(layers.last()) =~= layers);
        }
    }
}

/// Two sequences whose ranks never rise and that hold the same layers in
/// the same order within each rank are the same sequence.
pub proof fn lemma_ranked_unique(a: Seq<PositionView>, b: Seq<PositionView>)
    requires
        is_ranked(a),
        is_ranked(b),
        same_order_within_ranks(a, b),
    ensures
        a == b,
    decreases a.len() + b.len(),
{
    reveal(Seq::filter);
    if a.len() == 0 && b.len() == 0 {
        assert(a =~= b);
    } else if a.len() == 0 || b.len() == 0 {
        let full = if a.len() == 0 { b } else { a };
        let rank = full.last().index;
        assert(full[full.len() - 1] == full.last());
        lemma_filter_members(full, of_rank(rank), full.last());
        assert(a.filter(of_rank(rank)) == b.filter(of_rank(rank)));
        assert(a.filter(of_rank(rank)).len() == 0 || b.filter(of_rank(rank)).len() == 0);
        assert(false);
    } else {
        let ra = a.last().index;
        let rb = b.last().index;
        assert(a[a.len() - 1] == a.last());
        assert(b[b.len() - 1] == b.last());
        assert(rb <= ra) by {
            lemma_filter_members(a, of_rank(ra), a.last());
            assert(a.filter(of_rank(ra)) == b.filter(of_rank(ra)));
            lemma_filter_members(b, of_rank(ra), a.last());
            let k = choose|k: int| 0 <= k < b.len() && b[k] == a.last();
            assert(b[k].index >= b[b.len() - 1].index);
        }
        assert(ra <= rb) by {
            lemma_filter_members(b, of_rank(rb), b.last());
            assert(a.filter(of_rank(rb)) == b.filter(of_rank(rb)));
            lemma_filter_members(a, of_rank(rb), b.last());
            let k = choose|k: int| 0 <= k < a.len() && a[k] == b.last();
            assert(a[k].index >= a[a.len() - 1].index);
        }
        let fa = a.drop_last();
        let fb = b.drop_last();
        assert(a.filter(of_rank(ra)) == b.filter(of_rank(ra)));
        assert(a.filter(of_rank(ra)) == fa.filter(of_rank(ra)).push(a.last()));
        assert(b.filter(of_rank(ra)) == fb.filter(of_rank(ra)).push(b.last()));
        assert(a.last() == b.last()) by {
            let n = fa.filter(of_rank(ra)).len() as int;
            assert(fa.filter(of_rank(ra)).push(a.last())[n] == a.last());
            assert(fb.filter(of_rank(ra)).push(b.last()).len() == n + 1);
            assert(fb.filter(of_rank(ra)).push(b.last())[n] == b.last());
        }
        assert forall|rank: int| #[trigger]
            fa.filter(of_rank(rank)) == fb.filter(of_rank(rank)) by {
            assert(a.filter(of_rank(rank)) == b.filter(of_rank(rank)));
            if rank == ra {
                assert(fa.filter(of_rank(ra)) =~= fa.filter(of_rank(ra)).push(a.last()).drop_last());
                assert(fb.filter(of_rank(ra)) =~= fb.filter(of_rank(ra)).push(b.last()).drop_last());
            }
        }
        assert(is_ranked(fa)) by {
            assert forall|i: int, j: int| 0 <= i < j < fa.len() implies fa[i].index
                >= fa[j].index by {
                assert(fa[i] == a[i] && fa[j] == a[j]);
            }
        }
        assert(is_ranked(fb)) by {
            assert forall|i: int, j: int| 0 <= i < j < fb.len() implies fb[i].index
                >= fb[j].index by {
                assert(fb[i] == b[i] && fb[j] == b[j]);
            }
        }
        lemma_ranked_unique(fa, fb);
        assert(a =~= fa.push(a.last()));
        assert(b =~= fb.push(b.last()));
    }
}

/// Two sequences that hold the same layers in the same order within each
/// rank have the same order of application.
pub proof fn lemma_sort_unique(a: Seq<PositionView>, b: Seq<PositionView>)
    requires
        same_order_within_ranks(a, b),
    ensures
        sort_by_rank(a) == sort_by_rank(b),
{
    lemma_sort_ranked(a);
    lemma_sort_ranked(b);
    lemma_sort_stable(a);
    lemma_sort_stable(b);
    assert forall|rank: int| #[trigger]
        sort_by_rank(a).filter(of_rank(rank)) == sort_by_rank(b).filter(of_rank(rank)) by {
        assert(a.filter(of_rank(rank)) == b.filter(of_rank(rank)));
    }
    lemma_ranked_unique(sort_by_rank(a), sort_by_rank(b));
}

/// Layers whose ranks never rise are in the order of application already.
pub proof fn lemma_sort_of_ranked(layers: Seq<PositionView>)
    requires
        is_ranked(layers),
    ensures
        sort_by_rank(layers) == layers,
{
    lemma_sort_ranked(layers);
    lemma_sort_stable(layers);
    lemma_ranked_unique(sort_by_rank(layers), layers);
}

/// Whether no two layers have the same rank.
pub open spec fn ranks_distinct(layers: Seq<PositionView>) -> bool {
    forall|i: int, j: int| 0 <= i < j < layers.len() ==> layers[i].index != layers[j].index
}

/// Layers of pairwise distinct ranks, given in any other order, are the
/// same layers in the same order within each rank.
pub proof fn lemma_distinct_ranks_any_order(a: Seq<PositionView>, b: Seq<PositionView>)
    requires
        ranks_distinct(a),
        a.to_multiset() == b.to_multiset(),
    ensures
        same_order_within_ranks(a, b),
{
    assert forall|e: PositionView| a.contains(e) <==> b.contains(e) by {
        to_multiset_contains(a, e);
        to_multiset_contains(b, e);
    }
    assert(a.no_duplicates()) by {
        assert forall|i: int, j: int| 0 <= i < a.len() && 0 <= j < a.len() && i != j implies a[i]
            != a[j] by {
            if i < j {
                assert(a[i].index != a[j].index);
            } else {
                assert(a[j].index != a[i].index);
            }
        }
    }
    a.lemma_multiset_has_no_duplicates();
    b.lemma_multiset_has_no_duplicates_conv();
    assert forall|rank: int| #[trigger] a.filter(of_rank(rank)) == b.filter(of_rank(rank)) by {
        let fa = a.filter(of_rank(rank));
        let fb = b.filter(of_rank(rank));
        lemma_filter_no_duplicates(a, of_rank(rank));
        lemma_filter_no_duplicates(b, of_rank(rank));
        assert forall|x: PositionView, y: PositionView|
            a.contains(x) && a.contains(y) && x.index == rank && y.index == rank implies x
            == y by {
            let i = choose|i: int| 0 <= i < a.len() && a[i] == x;
            let j = choose|j: int| 0 <= j < a.len() && a[j] == y;
            if i < j {
                assert(a[i].index != a[j].index);
            } else if j < i {
                assert(a[j].index != a[i].index);
            }
        }
        assert forall|k: int| 0 <= k < fa.len() implies a.contains(#[trigger] fa[k]) && fa[k].index
            == rank by {
            assert(fa.contains(fa[k]));
            lemma_filter_members(a, of_rank(rank), fa[k]);
        }
        assert forall|k: int| 0 <= k < fb.len() implies a.contains(#[trigger] fb[k]) && fb[k].index
            == rank by {
            assert(fb.contains(fb[k]));
            lemma_filter_members(b, of_rank(rank), fb[k]);
        }
        if fa.len() > 1 {
            assert(fa[0] == fa[1]);
        }
        if fb.len() > 1 {
            assert(fb[0] == fb[1]);
        }
        if fa.len() == 1 {
            lemma_filter_members(b, of_rank(rank), fa[0]);
            let k = choose|k: int| 0 <= k < fb.len() && fb[k] == fa[0];
            assert(fb[0] == fa[0]);
        } else if fb.len() == 1 {
            lemma_filter_members(a, of_rank(rank), fb[0]);
            let k = choose|k: int| 0 <= k < fa.len() && fa[k] == fb[0];
        }
        assert(fa =~= fb);
    }
}

/// Inserts `layer` into `layers` behind every layer whose rank is not
/// smaller.
fn insert_layer<'a>(layers: &mut Vec<&'a PartialStaffPosition>, layer: &'a PartialStaffPosition)
    ensures
        final(layers).deep_view() == insert_by_rank(old(layers).deep_view(), layer@),
{
    let ghost before = layers.deep_view();
    let mut at: usize = layers.len();
    while at > 0 && layers[at - 1].index < layer.index
        invariant
            at <= layers.len(),
            layers.deep_view() == before,
            forall|j: int| at <= j < layers.len() ==> before[j].index < layer@.index,
        decreases at,
    {
        at -= 1;
    }
    proof {
        let place = lemma_insert_by_rank_place(before, layer@);
        if place < at {
            assert(before[at - 1].index < layer@.index);
        }
    }
    layers.insert(at, layer);
}

/// The layers in the order of application: the positions and, given last,
/// the layer `last`, sorted by rank.
pub(crate) fn order_layers<'a>(
    positions: &'a Vec<PartialStaffPosition>,
    last: &'a PartialStaffPosition,
) -> (layers: Vec<&'a PartialStaffPosition>)
    ensures
        layers.deep_view() == sort_by_rank(positions.deep_view().push(last@)),
{
    let ghost given = positions.deep_view();
    let mut layers: Vec<&PartialStaffPosition> = Vec::new();
    let mut i: usize = 0;
    while i < positions.len()
        invariant
            i <= positions.len(),
            given == positions.deep_view(),
            layers.deep_view() == sort_by_rank(given.take(i as int)),
        decreases positions.len() - i,
    {
        insert_layer(&mut layers, &positions[i]);
        assert(given.take(i + 1).drop_last() =~= given.take(i as int));
        i += 1;
    }
    assert(given.take(i as int) =~= given);
    insert_layer(&mut layers, last);
    assert(given.push(last@).drop_last() =~= given);
    layers
}

} // verus!
