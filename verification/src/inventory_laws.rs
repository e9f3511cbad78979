//! What an inventory tick comes to, node by node: every node is heard, what is
//! reported of it is shown in its place, and what becomes of its channel, its
//! record and its routes follows from its own probes alone.

use crate::channel_cache::ChannelCache;
use crate::device::{DeviceInventory, InventoryView};
use crate::inventory::{
    action_at, all_outcomes, evicted, evicts, ledger_after, lemma_other_nodes_keep_their_records,
    previous_view, record_at, report_at, reports, result_event, retired_by, settled_seen, stops,
    tick_events, ActionView, NodeEvent, PreparedNodes, ProbeResult, ONESHOT_ATTEMPTS,
};
use crate::node_ledger::{RecordView, EVICT_AFTER, REPLAY_GRACE};
use crate::probe::CacheOutcome;
use crate::route::{inventory_routes, RouteView};
use vstd::prelude::*;

verus! {

/// Everybody is heard, in order: the probed nodes with what their probes read,
/// then the nodes still retiring and those that would not open, which could not
/// be checked.
pub proof fn lemma_everybody_is_heard(
    results: Seq<ProbeResult>,
    retiring: Seq<u64>,
    open_failures: Seq<u64>,
)
    ensures
        ({
            let events = tick_events(results, retiring, open_failures);
            let probed = results.len() as int;
            let listed = probed + retiring.len();
            &&& events.len() == listed + open_failures.len()
            &&& forall|i: int| #![trigger events[i]]
                0 <= i < probed ==> {
                    &&& events[i].node == results[i].0
                    &&& events[i].healthy == (results[i].1 matches Some(probe) && probe.healthy)
                    &&& events[i].inventory == match results[i].1 {
                        Some(probe) => match probe.inventory {
                            Some(inventory) => Some(inventory@),
                            None => None,
                        },
                        None => None,
                    }
                }
            &&& forall|i: int| #![trigger events[i]]
                probed <= i < events.len() ==> {
                    &&& events[i].node == if i < listed {
                        retiring[i - probed]
                    } else {
                        open_failures[i - listed]
                    }
                    &&& !events[i].healthy
                    &&& events[i].inventory is None
                }
        }),
{
    let events = tick_events(results, retiring, open_failures);
    let rest = retiring + open_failures;
    assert forall|i: int| #![trigger events[i]]
        results.len() <= i < events.len() implies events[i].node == rest[i - results.len()]
        && !events[i].healthy && events[i].inventory is None by {}
}

/// For how many of the first `n` events something is reported.
pub open spec fn reporting(ledger: Map<u64, RecordView>, events: Seq<NodeEvent>, n: nat) -> nat
    decreases n,
{
    if n == 0 {
        0
    } else {
        reporting(ledger, events, (n - 1) as nat) + if report_at(ledger, events, n - 1) is Some {
            1nat
        } else {
            0nat
        }
    }
}

/// The count of reports grows by one with every event that has one.
proof fn lemma_reporting_grows(
    ledger: Map<u64, RecordView>,
    events: Seq<NodeEvent>,
    m: nat,
    n: nat,
)
    requires
        m < n,
    ensures
        reporting(ledger, events, m) + (if report_at(ledger, events, m as int) is Some {
            1nat
        } else {
            0nat
        }) <= reporting(ledger, events, n),
    decreases n,
{
    if m + 1 < n {
        lemma_reporting_grows(ledger, events, m, (n - 1) as nat);
    }
}

/// Nobody's report is lost, and none is made up: there are as many inventories
/// as events that have one, and each stands where the events before it put it.
pub proof fn lemma_every_report_is_shown(
    ledger: Map<u64, RecordView>,
    events: Seq<NodeEvent>,
    n: nat,
)
    ensures
        reports(ledger, events, n).len() == reporting(ledger, events, n),
        forall|i: nat| #![trigger reporting(ledger, events, i)]
            i < n ==> (report_at(ledger, events, i as int) matches Some(inventory) ==> {
                &&& reporting(ledger, events, i) < reports(ledger, events, n).len()
                &&& reports(ledger, events, n)[reporting(ledger, events, i) as int] == inventory
            }),
    decreases n,
{
    if n > 0 {
        let m = (n - 1) as nat;
        lemma_every_report_is_shown(ledger, events, m);
        assert forall|i: nat| #![trigger reporting(ledger, events, i)] i < n implies (report_at(
            ledger,
            events,
            i as int,
        ) matches Some(inventory) ==> {
            &&& reporting(ledger, events, i) < reports(ledger, events, n).len()
            &&& reports(ledger, events, n)[reporting(ledger, events, i) as int] == inventory
        }) by {
            if i < m {
                lemma_reporting_grows(ledger, events, i, m);
            }
        }
    }
}

/// Where every probed node answered and read an inventory, every inventory is
/// reported, each in its node's place, whatever the ledger remembers.
pub proof fn lemma_healthy_tick_reports_everything(
    ledger: Map<u64, RecordView>,
    results: Seq<ProbeResult>,
)
    requires
        forall|i: int|
            0 <= i < results.len() ==> ((#[trigger] results[i]).1 matches Some(probe)
                && probe.healthy && probe.inventory is Some),
    ensures
        ({
            let shown = reports(
                ledger,
                tick_events(results, Seq::empty(), Seq::empty()),
                results.len(),
            );
            &&& shown.len() == results.len()
            &&& forall|i: int|
                0 <= i < results.len() ==> #[trigger] shown[i]
                    == results[i].1->0.inventory->0@
        }),
{
    let events = tick_events(results, Seq::empty(), Seq::empty());
    lemma_everybody_is_heard(results, Seq::empty(), Seq::empty());
    lemma_all_report(ledger, results, events, results.len());
}

proof fn lemma_all_report(
    ledger: Map<u64, RecordView>,
    results: Seq<ProbeResult>,
    events: Seq<NodeEvent>,
    n: nat,
)
    requires
        n <= results.len(),
        events.len() == results.len(),
        forall|i: int|
            0 <= i < results.len() ==> ((#[trigger] results[i]).1 matches Some(probe)
                && probe.healthy && probe.inventory is Some),
        forall|i: int|
            0 <= i < events.len() ==> (#[trigger] events[i]).healthy && events[i].inventory
                == Some(results[i].1->0.inventory->0@),
    ensures
        reports(ledger, events, n).len() == n,
        forall|i: int|
            0 <= i < n ==> #[trigger] reports(ledger, events, n)[i]
                == results[i].1->0.inventory->0@,
    decreases n,
{
    if n > 0 {
        lemma_all_report(ledger, results, events, (n - 1) as nat);
        assert(events[n - 1].healthy);
        assert(report_at(ledger, events, n - 1) == events[n - 1].inventory);
    }
}

/// What is reported of a node: what it read where it answered; where it did
/// not, the last good inventory for as long as fewer than [`REPLAY_GRACE`]
/// probes in a row failed before, and whatever was read of it otherwise.
pub proof fn lemma_what_is_reported(
    ledger: Map<u64, RecordView>,
    events: Seq<NodeEvent>,
    i: int,
)
    requires
        0 <= i < events.len(),
        forall|k: int| 0 <= k < i ==> (#[trigger] events[k]).node != events[i].node,
    ensures
        ({
            let node = events[i].node;
            let replayed = !events[i].healthy && ledger.contains_key(node)
                && ledger[node].last_good is Some && ledger[node].failures < REPLAY_GRACE;
            &&& replayed ==> report_at(ledger, events, i) == ledger[node].last_good
            &&& !replayed ==> report_at(ledger, events, i) == events[i].inventory
        }),
{
    lemma_earlier_events_are_of_others(ledger, events, i);
}

proof fn lemma_earlier_events_are_of_others(
    ledger: Map<u64, RecordView>,
    events: Seq<NodeEvent>,
    i: int,
)
    requires
        0 <= i < events.len(),
        forall|k: int| 0 <= k < i ==> (#[trigger] events[k]).node != events[i].node,
    ensures
        ({
            let before = ledger_after(ledger, events.take(i));
            let node = events[i].node;
            &&& before.contains_key(node) == ledger.contains_key(node)
            &&& ledger.contains_key(node) ==> before[node] == ledger[node]
        }),
{
    let earlier = events.take(i);
    assert forall|k: int| 0 <= k < earlier.len() implies (#[trigger] earlier[k]).node
        != events[i].node by {
        assert(earlier[k] == events[k]);
    }
    lemma_other_nodes_keep_their_records(ledger, earlier, events[i].node);
    lemma_other_nodes_are_left_alone(ledger, earlier, events[i].node);
}

/// A node that no event names is remembered just as before.
pub proof fn lemma_other_nodes_are_left_alone(
    ledger: Map<u64, RecordView>,
    events: Seq<NodeEvent>,
    node: u64,
)
    requires
        forall|i: int| 0 <= i < events.len() ==> (#[trigger] events[i]).node != node,
    ensures
        ledger_after(ledger, events).contains_key(node) == ledger.contains_key(node),
        ledger.contains_key(node) ==> ledger_after(ledger, events)[node] == ledger[node],
    decreases events.len(),
{
    if events.len() > 0 {
        let before = events.drop_last();
        assert forall|i: int| 0 <= i < before.len() implies (#[trigger] before[i]).node != node by {
            assert(before[i] == events[i]);
        }
        assert(events[events.len() - 1].node != node);
        lemma_other_nodes_are_left_alone(ledger, before, node);
    }
}

/// What a tick leaves on record of a node that it heard once: an answer is
/// remembered with no failures, and a failure is counted and, up to
/// [`REPLAY_GRACE`] of them in a row, forgets nothing.
pub proof fn lemma_what_is_remembered(
    ledger: Map<u64, RecordView>,
    events: Seq<NodeEvent>,
    i: int,
)
    requires
        0 <= i < events.len(),
        forall|k: int|
            0 <= k < events.len() && k != i ==> (#[trigger] events[k]).node != events[i].node,
    ensures
        ({
            let node = events[i].node;
            let after = ledger_after(ledger, events);
            let failures = if ledger.contains_key(node) {
                ledger[node].failures
            } else {
                0
            };
            let last_good = if ledger.contains_key(node) {
                ledger[node].last_good
            } else {
                None
            };
            &&& after.contains_key(node)
            &&& events[i].healthy ==> after[node].failures == 0 && after[node].last_good
                == events[i].inventory
            &&& !events[i].healthy ==> {
                &&& failures < u8::MAX ==> after[node].failures == failures + 1
                &&& failures == u8::MAX ==> after[node].failures == u8::MAX
                &&& failures < REPLAY_GRACE ==> after[node].last_good == last_good
                &&& failures >= REPLAY_GRACE ==> after[node].last_good is None
            }
        }),
{
    let node = events[i].node;
    lemma_earlier_events_are_of_others(ledger, events, i);
    lemma_last_word_stands(ledger, events, i, events.len());
    assert(events.take(events.len() as int) =~= events);
}

/// Events of other nodes leave what was heard of a node as it is.
proof fn lemma_last_word_stands(
    ledger: Map<u64, RecordView>,
    events: Seq<NodeEvent>,
    i: int,
    n: nat,
)
    requires
        0 <= i < n <= events.len(),
        forall|k: int| i < k < n ==> (#[trigger] events[k]).node != events[i].node,
    ensures
        ledger_after(ledger, events.take(n as int)).contains_key(events[i].node),
        ledger_after(ledger, events.take(n as int))[events[i].node] == record_at(
            ledger,
            events,
            i,
        ),
    decreases n,
{
    assert(events.take(n as int).drop_last() =~= events.take(n - 1));
    assert(events.take(n as int).last() == events[n - 1]);
    if i < n - 1 {
        lemma_last_word_stands(ledger, events, i, (n - 1) as nat);
    }
}

/// The results of one tick, each of its own node.
pub open spec fn one_each(results: Seq<ProbeResult>) -> bool {
    forall|i: int, k: int|
        0 <= i < results.len() && 0 <= k < results.len() && i != k ==> (#[trigger] results[i]).0
            != (#[trigger] results[k]).0
}

/// A node loses its channel exactly where its probe ran out of time, or failed
/// with [`EVICT_AFTER`] failures in a row, this one among them.
pub proof fn lemma_who_loses_the_channel(
    ledger: Map<u64, RecordView>,
    results: Seq<ProbeResult>,
    i: int,
)
    requires
        one_each(results),
        0 <= i < results.len(),
    ensures
        ({
            let node = results[i].0;
            let failures = if ledger.contains_key(node) {
                ledger[node].failures as int
            } else {
                0
            };
            let gone = match results[i].1 {
                None => true,
                Some(probe) => !probe.healthy && failures + 1 >= EVICT_AFTER,
            };
            &&& evicts(ledger, results, i) == gone
            &&& evicted(ledger, results, results.len()).contains(node) == gone
        }),
{
    let events = results.map_values(|result: ProbeResult| result_event(result));
    assert forall|k: int| 0 <= k < i implies (#[trigger] events[k]).node != events[i].node by {
        assert(results[k].0 != results[i].0);
    }
    lemma_earlier_events_are_of_others(ledger, events, i);
    let node = results[i].0;
    if evicted(ledger, results, results.len()).contains(node) {
        let k = choose|k: int|
            0 <= k < results.len() && (#[trigger] results[k]).0 == node && evicts(
                ledger,
                results,
                k,
            );
        if k != i {
            assert(results[k].0 != results[i].0);
        }
    }
}

/// A node that was not probed keeps its channel.
pub proof fn lemma_unprobed_nodes_keep_their_channels(
    ledger: Map<u64, RecordView>,
    results: Seq<ProbeResult>,
    node: u64,
)
    requires
        forall|i: int| 0 <= i < results.len() ==> (#[trigger] results[i]).0 != node,
    ensures
        !evicted(ledger, results, results.len()).contains(node),
{
}

/// What is published of a node that answered: all the routes of what it read,
/// in place of what was published before, or nothing where there are none.
pub proof fn lemma_an_answer_is_published(
    ledger: Map<u64, RecordView>,
    results: Seq<ProbeResult>,
    i: int,
)
    requires
        0 <= i < results.len(),
        results[i].1 matches Some(probe) && probe.healthy,
    ensures
        ({
            let routes: Seq<RouteView> = match results[i].1->0.inventory {
                Some(inventory) => inventory_routes(inventory@),
                None => Seq::empty(),
            };
            action_at(ledger, results, i) == if routes.len() > 0 {
                ActionView::ReplaceNode { node: results[i].0, routes }
            } else {
                ActionView::RemoveNode { node: results[i].0 }
            }
        }),
{
}

/// What is published of a node that failed: a first failure leaves the routes
/// of its last good inventory, and one that costs it the channel leaves none.
pub proof fn lemma_a_failure_is_published(
    ledger: Map<u64, RecordView>,
    results: Seq<ProbeResult>,
    i: int,
)
    requires
        one_each(results),
        0 <= i < results.len(),
        results[i].1 matches Some(probe) ==> !probe.healthy,
    ensures
        ({
            let node = results[i].0;
            let known = ledger.contains_key(node);
            let gone = results[i].1 is None || (known && ledger[node].failures + 1 >= EVICT_AFTER);
            &&& gone ==> action_at(ledger, results, i) == (ActionView::RemoveNode { node })
            &&& !gone && known && ledger[node].last_good is Some ==> {
                let routes = inventory_routes(ledger[node].last_good->0);
                action_at(ledger, results, i) == if routes.len() > 0 {
                    ActionView::ReplaceNode { node, routes }
                } else {
                    ActionView::RemoveNode { node }
                }
            }
            &&& !gone && !(known && ledger[node].last_good is Some) ==> {
                let routes: Seq<RouteView> = match results[i].1->0.inventory {
                    Some(inventory) => inventory_routes(inventory@),
                    None => Seq::empty(),
                };
                action_at(ledger, results, i) == if routes.len() > 0 {
                    ActionView::ReplaceNode { node, routes }
                } else {
                    ActionView::RemoveNode { node }
                }
            }
        }),
{
    let events = results.map_values(|result: ProbeResult| result_event(result));
    assert forall|k: int| 0 <= k < i implies (#[trigger] events[k]).node != events[i].node by {
        assert(results[k].0 != results[i].0);
    }
    lemma_earlier_events_are_of_others(ledger, events, i);
    lemma_who_loses_the_channel(ledger, results, i);
    lemma_what_is_reported(ledger, events, i);
}

/// Every probe's outcomes reach the cache, one probe's after the other's.
pub proof fn lemma_outcomes_are_gathered(first: Seq<ProbeResult>, second: Seq<ProbeResult>)
    ensures
        all_outcomes(first + second) == all_outcomes(first) + all_outcomes(second),
        first.len() == 0 ==> all_outcomes(first) == Seq::<CacheOutcome>::empty(),
        first.len() == 1 ==> all_outcomes(first) == match first[0].1 {
            Some(probe) => probe.outcomes@,
            None => Seq::empty(),
        },
    decreases second.len(),
{
    if first.len() == 1 {
        reveal_with_fuel(all_outcomes, 2);
        assert(first.drop_last() =~= Seq::empty());
        assert(all_outcomes(first) =~= match first[0].1 {
            Some(probe) => probe.outcomes@,
            None => Seq::empty(),
        });
    }
    if second.len() == 0 {
        assert(first + second =~= first);
        assert(all_outcomes(first) + all_outcomes(second) =~= all_outcomes(first));
    } else {
        lemma_outcomes_are_gathered(first, second.drop_last());
        assert((first + second).drop_last() =~= first + second.drop_last());
        assert((first + second).last() == second.last());
        assert(all_outcomes(first + second) =~= all_outcomes(first) + all_outcomes(second));
    }
}

/// A one-shot inventory is done at once where it is complete, and done where it
/// is healthy and repeats the healthy one before; short of its last attempt it
/// is not done otherwise.
pub proof fn lemma_when_a_one_shot_is_done(
    previous: Option<Seq<InventoryView>>,
    current: Seq<InventoryView>,
    all_healthy: bool,
    attempt: u8,
)
    ensures
        stops(previous, current, true, all_healthy, attempt),
        all_healthy && previous == Some(current) ==> stops(
            previous,
            current,
            false,
            all_healthy,
            attempt,
        ),
        attempt < ONESHOT_ATTEMPTS && !(all_healthy && previous == Some(current)) ==> !stops(
            previous,
            current,
            false,
            all_healthy,
            attempt,
        ),
        attempt >= ONESHOT_ATTEMPTS ==> stops(previous, current, false, all_healthy, attempt),
{
}

/// What was heard first is remembered when the rest is heard, however often
/// the same node speaks.
pub proof fn lemma_events_are_heard_one_after_the_other(
    ledger: Map<u64, RecordView>,
    first: Seq<NodeEvent>,
    second: Seq<NodeEvent>,
)
    ensures
        ledger_after(ledger, first + second) == ledger_after(
            ledger_after(ledger, first),
            second,
        ),
        first.len() == 0 ==> ledger_after(ledger, first) == ledger,
    decreases second.len(),
{
    if second.len() == 0 {
        assert(first + second =~= first);
    } else {
        lemma_events_are_heard_one_after_the_other(ledger, first, second.drop_last());
        assert((first + second).drop_last() =~= first + second.drop_last());
        assert((first + second).last() == second.last());
    }
}

/// What is reported of an event depends on what was heard before it, and not
/// on what comes after.
pub proof fn lemma_reports_look_back_only(
    ledger: Map<u64, RecordView>,
    events: Seq<NodeEvent>,
    i: int,
)
    requires
        0 <= i < events.len(),
    ensures
        report_at(ledger, events, i) == report_at(
            ledger_after(ledger, events.take(i)),
            seq![events[i]],
            0,
        ),
{
    assert(seq![events[i]].take(0) =~= Seq::empty());
}

/// Whether a result costs its node the channel depends on what was heard
/// before it, and not on what comes after.
pub proof fn lemma_evictions_look_back_only(
    ledger: Map<u64, RecordView>,
    results: Seq<ProbeResult>,
    i: int,
)
    requires
        0 <= i < results.len(),
    ensures
        evicts(ledger, results, i) == evicts(
            ledger_after(ledger, tick_events(results.take(i), Seq::empty(), Seq::empty())),
            seq![results[i]],
            0,
        ),
        forall|node: u64| #[trigger]
            evicted(ledger, results, results.len()).contains(node) <==> exists|k: int|
                0 <= k < results.len() && (#[trigger] results[k]).0 == node && evicts(
                    ledger,
                    results,
                    k,
                ),
{
    let own = results.map_values(|result: ProbeResult| result_event(result));
    let alone = seq![results[i]].map_values(|result: ProbeResult| result_event(result));
    let earlier = tick_events(results.take(i), Seq::empty(), Seq::empty());
    assert(own.take(i) =~= earlier);
    assert(alone.take(0) =~= Seq::empty());
    assert(alone[0] == own[i]);
}

/// A node that the OS leaves out but whose open channel reports a connection
/// is there, and is probed; one whose channel does not is not; and a listed
/// node stays listed, whatever its channel reports.
pub proof fn lemma_live_channels_count_as_listed<Channel, L: Fn(&Channel) -> bool>(
    channels: ChannelCache<Channel>,
    before: PreparedNodes,
    is_connected: L,
    after: PreparedNodes,
    node: u64,
)
    requires
        settled_seen(channels, before, is_connected, after),
    ensures
        before.seen@.contains(node) ==> after.seen@.contains(node),
        !before.seen@.contains(node) && channels.active().contains_key(node) && !call_ensures(
            is_connected,
            (&channels.active()[node],),
            false,
        ) ==> after.seen@.contains(node) && after.active@.contains(node),
        !before.seen@.contains(node) && channels.active().contains_key(node) && !call_ensures(
            is_connected,
            (&channels.active()[node],),
            true,
        ) ==> !after.seen@.contains(node),
        !before.seen@.contains(node) && !channels.active().contains_key(node)
            ==> !after.seen@.contains(node),
        before.active@.contains(node) ==> after.active@.contains(node),
        after.retiring@ == before.retiring@,
        after.open_failures@ == before.open_failures@,
{
    let listed = before.active@.len() as int;
    let added = after.active@.skip(listed);
    if before.active@.contains(node) {
        let k = choose|k: int| 0 <= k < listed && before.active@[k] == node;
        assert(after.active@[k] == node);
    }
    if after.seen@.contains(node) && !before.seen@.contains(node) {
        assert(added.contains(node));
        let k = choose|k: int| 0 <= k < added.len() && added[k] == node;
        assert(after.active@[listed + k] == node);
    }
}

/// An unlisted node's channel is dropped where nobody else owns it and kept,
/// retiring, where somebody does; a retiring channel of a listed node is kept.
pub proof fn lemma_unlisted_channels_are_given_up<Channel, Q: Fn(&Channel) -> bool>(
    before: ChannelCache<Channel>,
    seen: Set<u64>,
    is_quiescent: Q,
    retiring: Map<u64, Channel>,
    node: u64,
)
    requires
        before.wf(),
        retired_by(before, seen, is_quiescent, retiring),
        !seen.contains(node),
        before.active().contains_key(node),
    ensures
        !call_ensures(is_quiescent, (&before.active()[node],), true) ==> retiring.contains_key(node)
            && retiring[node] == before.active()[node],
        !call_ensures(is_quiescent, (&before.active()[node],), false) ==> !retiring.contains_key(
            node,
        ),
{
    let all = before.retiring().union_prefer_right(before.active().remove_keys(seen));
    assert(before.active().remove_keys(seen).contains_key(node));
    assert(all.contains_key(node) && all[node] == before.active()[node]);
}

/// A retiring channel stays exactly where its node is listed or somebody else
/// owns it, and no channel of a listed node starts to retire.
pub proof fn lemma_listed_channels_are_left_alone<Channel, Q: Fn(&Channel) -> bool>(
    before: ChannelCache<Channel>,
    seen: Set<u64>,
    is_quiescent: Q,
    retiring: Map<u64, Channel>,
    node: u64,
)
    requires
        before.wf(),
        retired_by(before, seen, is_quiescent, retiring),
        seen.contains(node) || !before.active().contains_key(node),
    ensures
        seen.contains(node) ==> retiring.contains_key(node) == before.retiring().contains_key(node),
        retiring.contains_key(node) ==> before.retiring().contains_key(node) && retiring[node]
            == before.retiring()[node],
        !seen.contains(node) && before.retiring().contains_key(node) && !call_ensures(
            is_quiescent,
            (&before.retiring()[node],),
            true,
        ) ==> retiring.contains_key(node),
        !seen.contains(node) && before.retiring().contains_key(node) && !call_ensures(
            is_quiescent,
            (&before.retiring()[node],),
            false,
        ) ==> !retiring.contains_key(node),
{
    let all = before.retiring().union_prefer_right(before.active().remove_keys(seen));
    assert(!before.active().remove_keys(seen).contains_key(node));
    assert(all.contains_key(node) == before.retiring().contains_key(node));
    assert(all.contains_key(node) ==> all[node] == before.retiring()[node]);
}

/// The evidence of an attempt is all of what it read.
pub proof fn lemma_evidence_is_whole(previous: &[DeviceInventory])
    ensures
        previous_view(None) is None,
        previous_view(Some(previous)) matches Some(values) && values.len() == previous@.len()
            && forall|i: int|
            0 <= i < previous@.len() ==> #[trigger] values[i] == previous@[i]@,
{
}

} // verus!
