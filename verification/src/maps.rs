//! Walking over hash maps.
use std::collections::{HashMap, VecDeque};
use std::hash::Hash;
use vstd::prelude::*;
use vstd::std_specs::hash::obeys_key_model;

verus! {

/// `order` holds each element of `of` once, and nothing else.
pub open spec fn each_once<K>(order: Seq<K>, of: Set<K>) -> bool {
    &&& order.no_duplicates()
    &&& order.to_set() == of
}

/// The keys of a map, in the order in which it is walked.
pub(crate) fn keys_of<K: Copy + Eq + Hash, V>(map: &HashMap<K, V>) -> (keys: Vec<K>)
    requires
        obeys_key_model::<K>(),
    ensures
        each_once(keys@, map@.dom()),
{
    let mut keys: Vec<K> = Vec::new();
    for key in it: map.keys()
        invariant
            keys@ == it.seq().unref().take(it.index()),
            it.seq().unref().to_set() == map@.dom(),
            it.seq().no_duplicates(),
            it.seq().unref().no_duplicates(),
            it.index() == it.seq().len() ==> keys@ =~= it.seq().unref(),
    {
        keys.push(*key);
        assert(keys@ =~= it.seq().unref().take(it.index() + 1));
    }
    keys
}

/// The same numbers, to be taken from the front.
pub(crate) fn queue_of(ids: &Vec<u64>) -> (queue: VecDeque<u64>)
    ensures
        queue@ == ids@,
{
    let mut queue: VecDeque<u64> = VecDeque::new();
    for i in 0..ids.len()
        invariant
            queue@ == ids@.take(i as int),
    {
        queue.push_back(ids[i]);
        assert(queue@ =~= ids@.take(i as int + 1));
    }
    assert(ids@.take(ids.len() as int) =~= ids@);
    queue
}

/// A sequence with one element more contains that element, and what it
/// contained before.
pub(crate) proof fn lemma_contains_after_push<K>(items: Seq<K>, last: K)
    ensures
        forall|item: K| #[trigger]
            items.push(last).contains(item) <==> items.contains(item) || item == last,
{
    assert forall|item: K| items.contains(item) || item == last implies #[trigger] items.push(
        last,
    ).contains(item) by {
        if items.contains(item) {
            let i = items.index_of(item);
            assert(items.push(last)[i] == item);
        } else {
            assert(items.push(last)[items.len() as int] == item);
        }
    }
}

/// A queue from which one element after the other is taken gives each element
/// once, and is empty then.
pub(crate) proof fn lemma_heads<K>(queues: Seq<Seq<K>>, of: Set<K>)
    requires
        queues.len() > 0,
        each_once(queues[0], of),
        queues.len() == queues[0].len(),
        forall|i: int|
            0 < i < queues.len() ==> #[trigger] queues[i] == queues[i - 1].drop_first(),
    ensures
        each_once(Seq::new(queues.len(), |i: int| queues[i][0]), of),
        queues.last().drop_first().len() == 0,
{
    assert forall|i: int| 0 <= i < queues.len() implies #[trigger] queues[i] == queues[0].skip(
        i,
    ) by {
        lemma_rest(queues, i);
    }
    assert(Seq::new(queues.len(), |i: int| queues[i][0]) =~= queues[0]);
}

proof fn lemma_rest<K>(queues: Seq<Seq<K>>, i: int)
    requires
        0 <= i < queues.len() <= queues[0].len(),
        forall|j: int|
            0 < j < queues.len() ==> #[trigger] queues[j] == queues[j - 1].drop_first(),
    ensures
        queues[i] == queues[0].skip(i),
    decreases i,
{
    if i == 0 {
        assert(queues[0].skip(0) =~= queues[0]);
    } else {
        lemma_rest(queues, i - 1);
        assert(queues[i] =~= queues[0].skip(i));
    }
}

/// An order in which each element stands once has all elements and no others, and
/// is as long as there are elements.
pub proof fn law_order_has_each_element<K>(order: Seq<K>, of: Set<K>)
    requires
        each_once(order, of),
    ensures
        forall|k: K| #[trigger] of.contains(k) <==> order.contains(k),
        forall|i: int, j: int| 0 <= i < j < order.len() ==> order[i] != order[j],
        order.len() == of.len(),
{
    order.unique_seq_to_set();
    assert forall|k: K| #[trigger] of.contains(k) <==> order.contains(k) by {
        assert(order.to_set().contains(k) <==> order.contains(k));
    }
}

} // verus!
