//! Ordering of results, best first.

use vstd::prelude::*;

verus! {

/// Something that is ordered by a number, the larger the better.
pub trait Ranked: Copy {
    /// The number.
    spec fn key(&self) -> int;

    /// The number.
    fn rank(&self) -> (k: i128)
        ensures
            k == self.key(),
    ;
}

/// Whether the numbers never increase.
pub open spec fn descending<R: Ranked>(items: Seq<R>) -> bool {
    forall|i: int, j: int|
        0 <= i <= j < items.len() ==> (#[trigger] items[i]).key() >= (#[trigger] items[j]).key()
}

/// The items with one number, in order.
pub open spec fn with_key<R: Ranked>(items: Seq<R>, key: int) -> Seq<R> {
    items.filter(|r: R| r.key() == key)
}

/// Place of an item behind those that are at least as good.
pub open spec fn place<R: Ranked>(items: Seq<R>, key: int) -> int
    decreases items.len(),
{
    if items.len() == 0 || items.last().key() >= key {
        items.len() as int
    } else {
        place(items.drop_last(), key)
    }
}

/// The items, best first; of equals the earlier first.
pub open spec fn ranked<R: Ranked>(items: Seq<R>) -> Seq<R>
    decreases items.len(),
{
    if items.len() == 0 {
        items
    } else {
        let head = ranked(items.drop_last());
        head.insert(place(head, items.last().key()), items.last())
    }
}

proof fn lemma_place<R: Ranked>(items: Seq<R>, key: int)
    requires
        descending(items),
    ensures
        0 <= place(items, key) <= items.len(),
        forall|i: int| 0 <= i < place(items, key) ==> (#[trigger] items[i]).key() >= key,
        forall|i: int| place(items, key) <= i < items.len() ==> (#[trigger] items[i]).key() < key,
    decreases items.len(),
{
    if items.len() > 0 && items.last().key() < key {
        let head = items.drop_last();
        assert forall|i: int, j: int| 0 <= i <= j < head.len() implies (#[trigger] head[i]).key()
            >= (#[trigger] head[j]).key() by {
            assert(items[i].key() >= items[j].key());
        }
        lemma_place(head, key);
        assert forall|i: int| 0 <= i < place(items, key) implies (#[trigger] items[i]).key()
            >= key by {
            assert(head[i] == items[i]);
        }
        assert forall|i: int| place(items, key) <= i < items.len() implies (
        #[trigger] items[i]).key() < key by {
            if i < head.len() {
                assert(head[i] == items[i]);
            }
        }
    } else if items.len() > 0 {
        assert forall|i: int| 0 <= i < items.len() implies (#[trigger] items[i]).key() >= key by {
            assert(items[i].key() >= items[items.len() - 1].key());
        }
    }
}

/// The ranking loses nothing, orders the items, and leaves equals in the order
/// they came in.
pub proof fn law_ranking<R: Ranked>(items: Seq<R>)
    ensures
        descending(ranked(items)),
        ranked(items).to_multiset() == items.to_multiset(),
        ranked(items).len() == items.len(),
        forall|key: int| #[trigger] with_key(ranked(items), key) == with_key(items, key),
    decreases items.len(),
{
    if items.len() > 0 {
        let rest = items.drop_last();
        let last = items.last();
        law_ranking(rest);
        let head = ranked(rest);
        lemma_place(head, last.key());
        let at = place(head, last.key());
        let all = head.insert(at, last);
        assert forall|i: int, j: int| 0 <= i <= j < all.len() implies (#[trigger] all[i]).key() >= (
        #[trigger] all[j]).key() by {
            if i < at {
                assert(all[i] == head[i]);
            } else if i > at {
                assert(all[i] == head[i - 1]);
            }
            if j < at {
                assert(all[j] == head[j]);
            } else if j > at {
                assert(all[j] == head[j - 1]);
            }
        }
        vstd::seq_lib::to_multiset_insert(head, at, last);
        vstd::seq_lib::to_multiset_build(rest, last);
        assert(rest.push(last) =~= items);
        assert forall|key: int| #[trigger] with_key(all, key) == with_key(items, key) by {
            lemma_insert_filter(head, at, last, key);
            let pred = |r: R| r.key() == key;
            assert(with_key(rest, key) == with_key(head, key));
            reveal(Seq::filter);
            assert(items.drop_last() =~= rest);
        }
    }
}

/// Inserting an item behind all those at least as good puts it last among its
/// equals.
proof fn lemma_insert_filter<R: Ranked>(head: Seq<R>, at: int, item: R, key: int)
    requires
        0 <= at <= head.len(),
        forall|i: int| at <= i < head.len() ==> (#[trigger] head[i]).key() < item.key(),
    ensures
        with_key(head.insert(at, item), key) == if item.key() == key {
            with_key(head, key).push(item)
        } else {
            with_key(head, key)
        },
    decreases head.len(),
{
    reveal(Seq::filter);
    let all = head.insert(at, item);
    if at == head.len() {
        assert(all.drop_last() =~= head);
    } else {
        let short = head.drop_last();
        assert forall|i: int| at <= i < short.len() implies (#[trigger] short[i]).key()
            < item.key() by {
            assert(short[i] == head[i]);
        }
        lemma_insert_filter(short, at, item, key);
        assert(all.drop_last() =~= short.insert(at, item));
        assert(all.last() == head.last());
        assert(head[head.len() - 1].key() < item.key());
    }
}

/// The items, best first; of equals the earlier first.
pub fn rank_descending<R: Ranked>(items: &[R]) -> (best_first: Vec<R>)
    ensures
        best_first@ == ranked(items@),
        descending(best_first@),
        best_first@.to_multiset() == items@.to_multiset(),
{
    let mut best_first: Vec<R> = Vec::with_capacity(items.len());
    let mut i: usize = 0;
    while i < items.len()
        invariant
            i <= items@.len(),
            best_first@ == ranked(items@.take(i as int)),
        decreases items@.len() - i,
    {
        let item = items[i];
        let k: i128 = item.rank();
        let mut at: usize = best_first.len();
        proof {
            law_ranking(items@.take(i as int));
        }
        assert(best_first@.take(at as int) =~= best_first@);
        while at > 0 && best_first[at - 1].rank() < k
            invariant
                at <= best_first@.len(),
                k == item.key(),
                place(best_first@.take(at as int), k as int) == place(best_first@, k as int),
            decreases at,
        {
            assert(best_first@.take(at as int).drop_last() =~= best_first@.take(at - 1));
            at = at - 1;
        }
        assert(place(best_first@, k as int) == at);
        best_first.insert(at, item);
        assert(items@.take(i + 1).drop_last() =~= items@.take(i as int));
        i = i + 1;
    }
    assert(items@.take(i as int) =~= items@);
    proof {
        law_ranking(items@);
    }
    best_first
}

} // verus!
