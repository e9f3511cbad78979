//! Sets of HID nodes, each node named by the number the host gave it.

use std::collections::{HashMap, HashSet};
use vstd::prelude::*;

verus! {

/// The nodes that `map` holds and `seen` does not, each listed once.
pub fn absent_nodes<T>(map: &HashMap<u64, T>, seen: &HashSet<u64>) -> (absent: Vec<u64>)
    ensures
        absent@.no_duplicates(),
        forall|node: u64| #[trigger]
            absent@.contains(node) <==> map@.contains_key(node) && !seen@.contains(node),
{
    let mut absent: Vec<u64> = Vec::new();
    let ghost mut nodes: Seq<u64> = Seq::empty();
    assert(map@.dom().len() == 0 ==> nodes.to_set() =~= map@.dom());
    for node in it: map.keys()
        invariant
            nodes == it.seq().unref().take(it.index()),
            it.seq().unref().to_set() == map@.dom(),
            it.seq().no_duplicates(),
            it.index() == it.seq().len() ==> nodes.to_set() == map@.dom(),
            absent@.no_duplicates(),
            forall|n: u64| #[trigger]
                absent@.contains(n) <==> nodes.contains(n) && !seen@.contains(n),
    {
        let ghost before = absent@;
        let ghost earlier = nodes;
        proof {
            nodes = nodes.push(*node);
            assert(it.seq().unref()[it.index()] == *node);
            assert(it.seq().unref().take(it.index() + 1) =~= nodes);
            if earlier.contains(*node) {
                let k = choose|k: int| 0 <= k < earlier.len() && earlier[k] == *node;
                assert(it.seq()[k] == it.seq()[it.index()]);
            }
            assert(!before.contains(*node));
            if it.index() + 1 == it.seq().len() {
                assert(nodes =~= it.seq().unref());
            }
            lemma_push_contains(earlier, *node);
        }
        if !seen.contains(node) {
            absent.push(*node);
            proof {
                lemma_push_contains(before, *node);
            }
        }
    }
    assert forall|n: u64| #[trigger] nodes.contains(n) <==> map@.contains_key(n) by {
        assert(map@.dom().contains(n) <==> nodes.to_set().contains(n));
    }
    absent
}

/// A copy of a set of nodes.
pub fn clone_nodes(nodes: &HashSet<u64>) -> (copy: HashSet<u64>)
    ensures
        copy@ == nodes@,
{
    let mut copy: HashSet<u64> = HashSet::new();
    let ghost mut done: Seq<u64> = Seq::empty();
    for node in it: nodes.iter()
        invariant
            done == it.seq().unref().take(it.index()),
            it.seq().unref().to_set() == nodes@,
            it.index() == it.seq().len() ==> done.to_set() == nodes@,
            copy@ == done.to_set(),
    {
        copy.insert(*node);
        proof {
            let earlier = done;
            done = done.push(*node);
            assert(it.seq().unref()[it.index()] == *node);
            assert(it.seq().unref().take(it.index() + 1) =~= done);
            if it.index() + 1 == it.seq().len() {
                assert(done =~= it.seq().unref());
            }
            lemma_push_contains(earlier, *node);
            assert(copy@ =~= done.to_set());
        }
    }
    copy
}

/// Nodes that remain valid for this tick: everything the OS enumerated, plus
/// the cached channels whose open transport still reports a live connection.
pub fn retained_nodes(enumerated: &HashSet<u64>, cached_channels: &[(u64, bool)]) -> (retained: HashSet<u64>)
    ensures
        forall|node: u64| #[trigger]
            retained@.contains(node) <==> enumerated@.contains(node)
                || cached_channels@.contains((node, true)),
{
    let mut retained = clone_nodes(enumerated);
    for i in 0..cached_channels.len()
        invariant
            forall|node: u64| #[trigger]
                retained@.contains(node) <==> enumerated@.contains(node)
                    || cached_channels@.take(i as int).contains((node, true)),
    {
        proof {
            lemma_take_contains(cached_channels@, i as int);
        }
        let (node, connected) = cached_channels[i];
        if connected {
            retained.insert(node);
        }
    }
    assert(cached_channels@.take(cached_channels@.len() as int) =~= cached_channels@);
    retained
}

/// A list with one more item.
pub proof fn lemma_push_contains<T>(list: Seq<T>, item: T)
    ensures
        forall|x: T| #[trigger] list.push(item).contains(x) <==> list.contains(x) || x == item,
{
    assert forall|x: T| #[trigger] list.push(item).contains(x) <==> list.contains(x) || x
        == item by {
        if list.contains(x) {
            let k = choose|k: int| 0 <= k < list.len() && list[k] == x;
            assert(list.push(item)[k] == x);
        }
        if x == item {
            assert(list.push(item)[list.len() as int] == x);
        }
    }
}

/// A node is among the first `i + 1` of a list exactly where it is among the
/// first `i` or is the next one.
pub proof fn lemma_take_contains<T>(list: Seq<T>, i: int)
    requires
        0 <= i < list.len(),
    ensures
        forall|x: T| #[trigger]
            list.take(i + 1).contains(x) <==> list.take(i).contains(x) || x == list[i],
        list.contains(list[i]),
{
    assert forall|x: T| #[trigger] list.take(i + 1).contains(x) <==> list.take(i).contains(x) || x
        == list[i] by {
        if list.take(i).contains(x) {
            let k = choose|k: int| 0 <= k < i && list.take(i)[k] == x;
            assert(list.take(i + 1)[k] == x);
        }
        if x == list[i] {
            assert(list.take(i + 1)[i] == x);
        }
        if list.take(i + 1).contains(x) && x != list[i] {
            let taken = list.take(i + 1);
            let k = choose|k: int| 0 <= k < taken.len() && taken[k] == x;
            assert(list.take(i)[k] == x);
        }
    }
}

} // verus!
