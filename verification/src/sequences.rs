//! Facts about filtered sequences.
use vstd::prelude::*;

verus! {

/// A filter that every entry passes changes nothing.
pub proof fn lemma_filter_keeps_all<A>(s: Seq<A>, pred: spec_fn(A) -> bool)
    requires
        forall|i: int| 0 <= i < s.len() ==> pred(#[trigger] s[i]),
    ensures
        s.filter(pred) == s,
    decreases s.len(),
{
    reveal(Seq::filter);
    if s.len() > 0 {
        lemma_filter_keeps_all(s.drop_last(), pred);
        assert(s.drop_last().push(s.last()) =~= s);
    }
}

/// The entries of a filtered sequence are the entries that pass the filter.
pub proof fn lemma_filter_members<A>(s: Seq<A>, pred: spec_fn(A) -> bool, e: A)
    ensures
        s.filter(pred).contains(e) <==> s.contains(e) && pred(e),
    decreases s.len(),
{
    reveal(Seq::filter);
    if s.len() > 0 {
        let front = s.drop_last();
        lemma_filter_members(front, pred, e);
        if s.filter(pred).contains(e) {
            let i = choose|i: int| 0 <= i < s.filter(pred).len() && s.filter(pred)[i] == e;
            if pred(s.last()) && i == front.filter(pred).len() {
                assert(s[s.len() - 1] == e);
            } else {
                assert(front.filter(pred)[i] == e);
                let j = choose|j: int| 0 <= j < front.len() && front[j] == e;
                assert(s[j] == e);
            }
        }
        if s.contains(e) && pred(e) {
            let j = choose|j: int| 0 <= j < s.len() && s[j] == e;
            if j == s.len() - 1 {
                assert(s.filter(pred)[front.filter(pred).len() as int] == e);
            } else {
                assert(front[j] == e);
                let i = choose|i: int| 0 <= i < front.filter(pred).len() && front.filter(pred)[i] == e;
                assert(s.filter(pred)[i] == e);
            }
        }
    }
}

/// Filtering keeps a sequence free of repetition.
pub proof fn lemma_filter_no_duplicates<A>(s: Seq<A>, pred: spec_fn(A) -> bool)
    requires
        s.no_duplicates(),
    ensures
        s.filter(pred).no_duplicates(),
    decreases s.len(),
{
    reveal(Seq::filter);
    if s.len() > 0 {
        let front = s.drop_last();
        lemma_filter_no_duplicates(front, pred);
        if pred(s.last()) {
            lemma_filter_members(front, pred, s.last());
            if front.contains(s.last()) {
                let j = choose|j: int| 0 <= j < front.len() && front[j] == s.last();
                assert(s[j] == s[s.len() - 1]);
            }
        }
    }
}

} // verus!
