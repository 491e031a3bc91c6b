//! Ordering scored items from the best score to the worst.

use vstd::prelude::*;
use crate::scalar::{lt_spec, Scalar};

verus! {

/// A list that is ordered from the best score to the worst, with one more
/// item put in: the item goes before the items at the end of the list whose
/// scores are below its own, and behind every other item.
pub open spec fn inserted_desc<T, V: Scalar>(sorted: Seq<(T, V)>, item: (T, V)) -> Seq<(T, V)>
    decreases sorted.len(),
{
    if sorted.len() == 0 {
        seq![item]
    } else if lt_spec(sorted.last().1, item.1) {
        inserted_desc(sorted.drop_last(), item).push(sorted.last())
    } else {
        sorted.push(item)
    }
}

/// The items ordered from the best score to the worst. Items with equal
/// scores keep the order that they had.
pub open spec fn sorted_desc<T, V: Scalar>(items: Seq<(T, V)>) -> Seq<(T, V)>
    decreases items.len(),
{
    if items.len() == 0 {
        Seq::empty()
    } else {
        inserted_desc(sorted_desc(items.drop_last()), items.last())
    }
}

/// Whether every score can be compared: none is like a number that is not a
/// number, which is not even at most itself.
pub open spec fn all_comparable<T, V: Scalar>(items: Seq<(T, V)>) -> bool {
    forall|i: int| 0 <= i < items.len() ==> (#[trigger] items[i]).1.le_spec(items[i].1)
}

/// Putting an item into a list keeps the length of the list, plus one.
pub proof fn lemma_inserted_len<T, V: Scalar>(sorted: Seq<(T, V)>, item: (T, V))
    ensures
        inserted_desc(sorted, item).len() == sorted.len() + 1,
    decreases sorted.len(),
{
    if sorted.len() > 0 && lt_spec(sorted.last().1, item.1) {
        lemma_inserted_len(sorted.drop_last(), item);
    }
}

/// Ordering a list keeps its length.
pub proof fn lemma_sorted_len<T, V: Scalar>(items: Seq<(T, V)>)
    ensures
        sorted_desc(items).len() == items.len(),
    decreases items.len(),
{
    if items.len() > 0 {
        lemma_sorted_len(items.drop_last());
        lemma_inserted_len(sorted_desc(items.drop_last()), items.last());
    }
}

/// Ordering a list keeps its items: each occurs as often as before.
pub proof fn lemma_sorted_permutes<T, V: Scalar>(items: Seq<(T, V)>)
    ensures
        sorted_desc(items).to_multiset() == items.to_multiset(),
    decreases items.len(),
{
    if items.len() > 0 {
        lemma_sorted_permutes(items.drop_last());
        lemma_inserted_permutes(sorted_desc(items.drop_last()), items.last());
        vstd::seq_lib::to_multiset_build(items.drop_last(), items.last());
        assert(items.drop_last().push(items.last()) == items);
    } else {
        assert(sorted_desc(items) == items);
    }
}

/// Putting an item into a list adds that item and nothing else.
pub proof fn lemma_inserted_permutes<T, V: Scalar>(sorted: Seq<(T, V)>, item: (T, V))
    ensures
        inserted_desc(sorted, item).to_multiset() == sorted.to_multiset().insert(item),
    decreases sorted.len(),
{
    if sorted.len() == 0 {
        vstd::seq_lib::to_multiset_build(sorted, item);
        assert(seq![item] == sorted.push(item));
    } else if lt_spec(sorted.last().1, item.1) {
        let head = sorted.drop_last();
        lemma_inserted_permutes(head, item);
        vstd::seq_lib::to_multiset_build(inserted_desc(head, item), sorted.last());
        vstd::seq_lib::to_multiset_build(head, sorted.last());
        assert(head.push(sorted.last()) == sorted);
        assert(head.to_multiset().insert(item).insert(sorted.last())
            =~= head.to_multiset().insert(sorted.last()).insert(item));
    } else {
        vstd::seq_lib::to_multiset_build(sorted, item);
    }
}

/// Whether no item has a score above that of an item before it.
pub open spec fn descending<T, V: Scalar>(items: Seq<(T, V)>) -> bool {
    forall|i: int, j: int|
        0 <= i < j < items.len() ==> !lt_spec((#[trigger] items[i]).1, (#[trigger] items[j]).1)
}

/// Whether the scores of the items are ordered as numbers are: any two of
/// them can be compared, and the comparison is transitive.
pub open spec fn scores_ordered<T, V: Scalar>(items: Seq<(T, V)>) -> bool {
    &&& forall|p: (T, V), q: (T, V)|
        #![trigger items.contains(p), items.contains(q)]
        items.contains(p) && items.contains(q) ==> p.1.le_spec(q.1) || q.1.le_spec(p.1)
    &&& forall|p: (T, V), q: (T, V), r: (T, V)|
        #![trigger items.contains(p), items.contains(q), items.contains(r)]
        items.contains(p) && items.contains(q) && items.contains(r) && p.1.le_spec(q.1)
            && q.1.le_spec(r.1) ==> p.1.le_spec(r.1)
}

/// A list with an item put in holds nothing but that item and the items of
/// the list.
pub proof fn lemma_inserted_members<T, V: Scalar>(sorted: Seq<(T, V)>, item: (T, V))
    ensures
        forall|k: int|
            0 <= k < inserted_desc(sorted, item).len() ==> (#[trigger] inserted_desc(
                sorted,
                item,
            )[k]) == item || sorted.contains(inserted_desc(sorted, item)[k]),
    decreases sorted.len(),
{
    let result = inserted_desc(sorted, item);
    if sorted.len() == 0 {
    } else if lt_spec(sorted.last().1, item.1) {
        let head = sorted.drop_last();
        let inner = inserted_desc(head, item);
        lemma_inserted_members(head, item);
        lemma_inserted_len(head, item);
        assert forall|k: int| 0 <= k < result.len() implies (#[trigger] result[k]) == item
            || sorted.contains(result[k]) by {
            if k < inner.len() {
                assert(result[k] == inner[k]);
                if inner[k] != item {
                    let j = choose|j: int| 0 <= j < head.len() && head[j] == inner[k];
                    assert(sorted[j] == inner[k]);
                }
            } else {
                assert(sorted[sorted.len() - 1] == result[k]);
            }
        }
    } else {
        assert forall|k: int| 0 <= k < result.len() implies (#[trigger] result[k]) == item
            || sorted.contains(result[k]) by {
            if k < sorted.len() {
                assert(sorted[k] == result[k]);
            }
        }
    }
}

/// An ordered list holds nothing but the items of the list that was ordered.
pub proof fn lemma_sorted_members<T, V: Scalar>(items: Seq<(T, V)>)
    ensures
        forall|k: int|
            0 <= k < sorted_desc(items).len() ==> items.contains(#[trigger] sorted_desc(items)[k]),
    decreases items.len(),
{
    if items.len() > 0 {
        let head = items.drop_last();
        let sorted = sorted_desc(head);
        let result = sorted_desc(items);
        lemma_sorted_members(head);
        lemma_inserted_members(sorted, items.last());
        assert forall|k: int| 0 <= k < result.len() implies items.contains(
            #[trigger] result[k],
        ) by {
            if result[k] == items.last() {
                assert(items[items.len() - 1] == result[k]);
            } else {
                let j = choose|j: int| 0 <= j < sorted.len() && sorted[j] == result[k];
                assert(head.contains(sorted[j]));
                let i = choose|i: int| 0 <= i < head.len() && head[i] == sorted[j];
                assert(items[i] == result[k]);
            }
        }
    }
}

/// Putting an item into a descending list gives a descending list, where the
/// scores are ordered as numbers are.
pub proof fn lemma_inserted_descending<T, V: Scalar>(sorted: Seq<(T, V)>, item: (T, V))
    requires
        descending(sorted),
        scores_ordered(sorted.push(item)),
    ensures
        descending(inserted_desc(sorted, item)),
    decreases sorted.len(),
{
    let all = sorted.push(item);
    let result = inserted_desc(sorted, item);
    assert(all.contains(item)) by {
        assert(all[sorted.len() as int] == item);
    }
    assert forall|i: int| 0 <= i < sorted.len() implies all.contains(#[trigger] sorted[i]) by {
        assert(all[i] == sorted[i]);
    }
    if sorted.len() == 0 {
    } else if lt_spec(sorted.last().1, item.1) {
        let head = sorted.drop_last();
        let last = sorted.last();
        let inner = inserted_desc(head, item);
        assert(scores_ordered(head.push(item))) by {
            assert forall|p: (T, V)| head.push(item).contains(p) implies all.contains(p) by {
                let k = choose|k: int| 0 <= k < head.push(item).len() && head.push(item)[k] == p;
                if k < head.len() {
                    assert(all[k] == p);
                }
            }
        }
        assert(descending(head)) by {
            assert forall|i: int, j: int| 0 <= i < j < head.len() implies !lt_spec(
                (#[trigger] head[i]).1,
                (#[trigger] head[j]).1,
            ) by {
                assert(!lt_spec(sorted[i].1, sorted[j].1));
            }
        }
        lemma_inserted_descending(head, item);
        lemma_inserted_members(head, item);
        lemma_inserted_len(head, item);
        assert forall|i: int, j: int| 0 <= i < j < result.len() implies !lt_spec(
            (#[trigger] result[i]).1,
            (#[trigger] result[j]).1,
        ) by {
            if j < inner.len() {
                assert(!lt_spec(inner[i].1, inner[j].1));
            } else {
                assert(result[j] == last);
                assert(result[i] == inner[i]);
                if inner[i] != item {
                    let k = choose|k: int| 0 <= k < head.len() && head[k] == inner[i];
                    assert(!lt_spec(sorted[k].1, sorted[sorted.len() - 1].1));
                }
            }
        }
    } else {
        let last = sorted.last();
        assert forall|i: int, j: int| 0 <= i < j < result.len() implies !lt_spec(
            (#[trigger] result[i]).1,
            (#[trigger] result[j]).1,
        ) by {
            if j < sorted.len() {
                assert(!lt_spec(sorted[i].1, sorted[j].1));
            } else {
                assert(result[j] == item);
                assert(all.contains(sorted[i]));
                assert(all.contains(last)) by {
                    assert(sorted[sorted.len() - 1] == last);
                }
                assert(item.1.le_spec(last.1));
                if i < sorted.len() - 1 {
                    assert(!lt_spec(sorted[i].1, sorted[sorted.len() - 1].1));
                }
                assert(last.1.le_spec(sorted[i].1));
                assert(item.1.le_spec(sorted[i].1));
            }
        }
    }
}

/// Where the scores are ordered as numbers are, the ordered list is
/// descending: it begins with a best item, and the items that a cut keeps are
/// at least as good as those that it drops.
pub proof fn lemma_sorted_descending<T, V: Scalar>(items: Seq<(T, V)>)
    requires
        scores_ordered(items),
    ensures
        descending(sorted_desc(items)),
    decreases items.len(),
{
    if items.len() > 0 {
        let head = items.drop_last();
        let last = items.last();
        assert forall|p: (T, V)| head.contains(p) implies items.contains(p) by {
            let k = choose|k: int| 0 <= k < head.len() && head[k] == p;
            assert(0 <= k < items.len());
            assert(items[k] == p);
        }
        assert(scores_ordered(head));
        lemma_sorted_descending(head);
        lemma_sorted_members(head);
        let sorted = sorted_desc(head);
        let all = sorted.push(last);
        assert forall|p: (T, V)| all.contains(p) implies items.contains(p) by {
            let k = choose|k: int| 0 <= k < all.len() && all[k] == p;
            if k < sorted.len() {
                assert(all[k] == sorted[k]);
                assert(head.contains(sorted[k]));
            } else {
                assert(items[items.len() - 1] == p);
            }
        }
        assert forall|p: (T, V), q: (T, V)|
            #![trigger all.contains(p), all.contains(q)]
            all.contains(p) && all.contains(q) implies p.1.le_spec(q.1) || q.1.le_spec(p.1) by {
            assert(items.contains(p) && items.contains(q));
        }
        assert forall|p: (T, V), q: (T, V), r: (T, V)|
            #![trigger all.contains(p), all.contains(q), all.contains(r)]
            all.contains(p) && all.contains(q) && all.contains(r) && p.1.le_spec(q.1)
                && q.1.le_spec(r.1) implies p.1.le_spec(r.1) by {
            assert(items.contains(p) && items.contains(q) && items.contains(r));
        }
        lemma_inserted_descending(sorted, last);
    }
}

/// Orders the items from the best score to the worst, by insertion. Items
/// with equal scores keep their order.
pub fn sort_by_score_desc<T: Copy, V: Scalar>(items: &mut Vec<(T, V)>)
    ensures
        final(items)@ == sorted_desc(old(items)@),
{
    let n = items.len();
    let ghost start = items@;
    let mut i: usize = 0;
    proof {
        assert(items@.take(0) =~= sorted_desc(start.take(0)));
    }
    while i < n
        invariant
            i <= n,
            n == start.len(),
            items@.len() == n,
            items@.take(i as int) == sorted_desc(start.take(i as int)),
            forall|k: int| i <= k < n ==> items@[k] == start[k],
        decreases n - i,
    {
        let item = items[i];
        let ghost prefix = items@.take(i as int);
        let ghost before = items@;
        proof {
            assert(start.take(i + 1).drop_last() =~= start.take(i as int));
            assert(start.take(i + 1).last() == item);
            assert(prefix.take(i as int) =~= prefix);
            assert(prefix.subrange(i as int, i as int) =~= Seq::<(T, V)>::empty());
        }
        let mut j: usize = i;
        while j > 0 && (items[j - 1].1.le(item.1) && !item.1.le(items[j - 1].1))
            invariant
                0 <= j <= i < n,
                items@.len() == n,
                prefix.len() == i,
                before.len() == n,
                forall|k: int| 0 <= k < j ==> items@[k] == prefix[k],
                forall|k: int| j < k <= i ==> items@[k] == prefix[k - 1],
                forall|k: int| i < k < n ==> items@[k] == before[k],
                inserted_desc(prefix, item) == inserted_desc(prefix.take(j as int), item)
                    + prefix.subrange(j as int, i as int),
            decreases j,
        {
            proof {
                let head = prefix.take(j as int);
                assert(head.last() == prefix[j - 1]);
                assert(head.drop_last() =~= prefix.take(j - 1));
                assert(inserted_desc(head, item) == inserted_desc(prefix.take(j - 1), item).push(
                    prefix[j - 1],
                ));
                assert(inserted_desc(prefix.take(j - 1), item).push(prefix[j - 1])
                    + prefix.subrange(j as int, i as int) =~= inserted_desc(
                    prefix.take(j - 1),
                    item,
                ) + prefix.subrange(j - 1, i as int));
            }
            let moved = items[j - 1];
            items.set(j, moved);
            j -= 1;
        }
        items.set(j, item);
        proof {
            let head = prefix.take(j as int);
            assert(inserted_desc(head, item) == head.push(item)) by {
                if j > 0 {
                    assert(head.last() == prefix[j - 1]);
                }
            }
            lemma_inserted_len(prefix, item);
            assert(items@.take(i + 1) =~= head.push(item) + prefix.subrange(j as int, i as int));
        }
        i += 1;
    }
    proof {
        assert(items@.take(n as int) =~= items@);
        assert(start.take(n as int) =~= start);
    }
}

/// Tells whether every score can be compared.
pub fn scores_comparable<T: Copy, V: Scalar>(items: &Vec<(T, V)>) -> (b: bool)
    ensures
        b == all_comparable(items@),
{
    let mut i: usize = 0;
    while i < items.len()
        invariant
            i <= items@.len(),
            forall|k: int| 0 <= k < i ==> (#[trigger] items@[k]).1.le_spec(items@[k].1),
        decreases items@.len() - i,
    {
        let score = items[i].1;
        if !score.le(score) {
            return false;
        }
        i += 1;
    }
    true
}

} // verus!
