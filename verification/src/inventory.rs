//! One inventory tick over all HID nodes, and the bounded retry of a one-shot
//! inventory.
//!
//! The host lists and opens nodes and talks to them. What a tick makes of that
//! is decided here: which nodes are opened, reused or left alone, what is
//! reported for each, which channels are given up, and what is published.

use crate::channel_cache::ChannelCache;
use crate::device::{
    inventories_view, inventory_view, same_inventories, DeviceInventory, InventoryView,
};
use crate::node_ledger::{record_after, record_of, reported, NodeLedger, RecordView, EVICT_AFTER, REPLAY_GRACE};
use crate::node_set::{lemma_push_contains, retained_nodes};
use crate::probe::{CacheKey, CacheOutcome, Cached, KeyView, NodeProbe};
use crate::probe_cache::{
    after_outcomes, after_tick, dirties, drops_persistable, seen_keys, stored_all, EntryView,
    ProbeCache,
};
use crate::route::{
    inventory_routes, routes_for_inventories, routes_of, routes_view, DeviceRoute, RouteView,
};
use std::collections::HashSet;
use vstd::prelude::*;

verus! {

/// What is to be done with one listed node.
#[derive(Debug, Clone, Copy, PartialEq, Eq, Structural)]
pub enum NodeStep {
    /// Its old connection is still retiring: leave it alone this tick.
    Retiring,
    /// It is open already: probe it over the channel at hand.
    Reuse,
    /// It is to be opened.
    Open,
}

/// How opening a node went.
pub enum OpenOutcome<Channel> {
    Opened(Channel),
    /// The node does not speak HID++.
    NotHidpp,
    Failed,
}

/// The nodes of one tick, sorted by what they are good for.
#[derive(Debug)]
pub struct PreparedNodes {
    /// Nodes to probe, in order.
    pub active: Vec<u64>,
    pub open_failures: Vec<u64>,
    pub retiring: Vec<u64>,
    /// Every node that counts as present.
    pub seen: HashSet<u64>,
}

impl Default for PreparedNodes {
    fn default() -> (prepared: Self)
        ensures
            prepared.active@ == Seq::<u64>::empty(),
            prepared.open_failures@ == Seq::<u64>::empty(),
            prepared.retiring@ == Seq::<u64>::empty(),
            prepared.seen@ == Set::<u64>::empty(),
    {
        PreparedNodes {
            active: Vec::new(),
            open_failures: Vec::new(),
            retiring: Vec::new(),
            seen: HashSet::new(),
        }
    }
}

impl PreparedNodes {
    /// Every node to probe counts as present and has an open channel.
    pub open spec fn ready<Channel>(&self, channels: ChannelCache<Channel>) -> bool {
        forall|node: u64| #[trigger]
            self.active@.contains(node) ==> self.seen@.contains(node)
                && channels.active().contains_key(node)
    }
}

/// What settling the nodes that are there makes of a listing: listed nodes stay,
/// every unlisted node whose open channel reports a connection is added and
/// probed, and no other is.
pub open spec fn settled_seen<Channel, L: Fn(&Channel) -> bool>(
    channels: ChannelCache<Channel>,
    before: PreparedNodes,
    is_connected: L,
    after: PreparedNodes,
) -> bool {
    let added = after.active@.skip(before.active@.len() as int);
    &&& after.retiring@ == before.retiring@
    &&& after.open_failures@ == before.open_failures@
    &&& before.active@.is_prefix_of(after.active@)
    &&& added.no_duplicates()
    &&& forall|node: u64| #[trigger]
        added.contains(node) <==> after.seen@.contains(node) && !before.seen@.contains(node)
    &&& before.seen@.subset_of(after.seen@)
    &&& forall|node: u64| #[trigger]
        after.seen@.contains(node) && !before.seen@.contains(node)
            ==> channels.active().contains_key(node) && call_ensures(
            is_connected,
            (&channels.active()[node],),
            true,
        )
    &&& forall|node: u64| #[trigger]
        channels.active().contains_key(node) && !after.seen@.contains(node) ==> call_ensures(
            is_connected,
            (&channels.active()[node],),
            false,
        )
}

/// The state kept from tick to tick.
pub struct Enumerator<Channel> {
    /// Probes reused across ticks.
    pub probes: ProbeCache,
    /// Channels reused across ticks.
    pub channels: ChannelCache<Channel>,
    /// Last good inventories and failure counts.
    pub ledger: NodeLedger,
    /// Whether settled routes are published.
    pub publishes: bool,
    /// Whether the probe cache is kept on disk.
    pub persists: bool,
    /// Ticks so far, in wrapping arithmetic.
    pub tick: u64,
}

/// A change to what is published for a node.
#[derive(Debug, PartialEq, Eq)]
pub enum RegistryAction {
    RemoveNode { node: u64 },
    ReplaceNode { node: u64, routes: Vec<DeviceRoute> },
}

/// The value of a publication change.
#[verifier::ext_equal]
pub enum ActionView {
    RemoveNode { node: u64 },
    ReplaceNode { node: u64, routes: Seq<RouteView> },
}

impl View for RegistryAction {
    type V = ActionView;

    open spec fn view(&self) -> ActionView {
        match self {
            RegistryAction::RemoveNode { node } => ActionView::RemoveNode { node: *node },
            RegistryAction::ReplaceNode { node, routes } => ActionView::ReplaceNode {
                node: *node,
                routes: routes_view(routes@),
            },
        }
    }
}

/// What a tick reports.
#[derive(Debug)]
pub struct TickReport {
    pub inventories: Vec<DeviceInventory>,
    /// Whether every node was walked to the end.
    pub all_complete: bool,
    /// Whether every node answered.
    pub all_healthy: bool,
    /// Changes to publish, one per probed node, in order.
    pub actions: Vec<RegistryAction>,
}

/// A probed node and what came back; nothing, where the probe ran out of time.
pub type ProbeResult = (u64, Option<NodeProbe>);

/// One node's say in a tick.
pub struct NodeEvent {
    pub node: u64,
    pub healthy: bool,
    pub inventory: Option<InventoryView>,
}

/// What a probe result says: a probe that ran out of time is a failed one.
pub open spec fn result_event(result: ProbeResult) -> NodeEvent {
    match result.1 {
        Some(probe) => NodeEvent {
            node: result.0,
            healthy: probe.healthy,
            inventory: inventory_view(probe.inventory),
        },
        None => NodeEvent { node: result.0, healthy: false, inventory: None },
    }
}

/// What a listed node that could not be probed says.
pub open spec fn unhealthy_event(node: u64) -> NodeEvent {
    NodeEvent { node, healthy: false, inventory: None }
}

/// Everything said in a tick: the probes, then the nodes still retiring, then
/// the nodes that would not open.
pub open spec fn tick_events(
    results: Seq<ProbeResult>,
    retiring: Seq<u64>,
    open_failures: Seq<u64>,
) -> Seq<NodeEvent> {
    results.map_values(|result: ProbeResult| result_event(result)) + (retiring
        + open_failures).map_values(|node: u64| unhealthy_event(node))
}

/// A ledger after it heard `events` in order.
pub open spec fn ledger_after(
    ledger: Map<u64, RecordView>,
    events: Seq<NodeEvent>,
) -> Map<u64, RecordView>
    decreases events.len(),
{
    if events.len() == 0 {
        ledger
    } else {
        let before = ledger_after(ledger, events.drop_last());
        let event = events.last();
        before.insert(
            event.node,
            record_after(record_of(before, event.node), event.healthy, event.inventory),
        )
    }
}

/// The record of event `i`'s node once that event was heard.
pub open spec fn record_at(
    ledger: Map<u64, RecordView>,
    events: Seq<NodeEvent>,
    i: int,
) -> RecordView {
    record_after(
        record_of(ledger_after(ledger, events.take(i)), events[i].node),
        events[i].healthy,
        events[i].inventory,
    )
}

/// What is reported for event `i`'s node.
pub open spec fn report_at(
    ledger: Map<u64, RecordView>,
    events: Seq<NodeEvent>,
    i: int,
) -> Option<InventoryView> {
    reported(record_at(ledger, events, i), events[i].healthy, events[i].inventory)
}

/// Everything reported for the first `n` events, in order.
pub open spec fn reports(
    ledger: Map<u64, RecordView>,
    events: Seq<NodeEvent>,
    n: nat,
) -> Seq<InventoryView>
    decreases n,
{
    if n == 0 {
        Seq::empty()
    } else {
        let before = reports(ledger, events, (n - 1) as nat);
        match report_at(ledger, events, n - 1) {
            Some(inventory) => before.push(inventory),
            None => before,
        }
    }
}

/// Whether result `i` costs its node the channel: a probe that ran out of time
/// always does, a failed one after enough failures in a row.
pub open spec fn evicts(
    ledger: Map<u64, RecordView>,
    results: Seq<ProbeResult>,
    i: int,
) -> bool {
    let events = results.map_values(|result: ProbeResult| result_event(result));
    ||| results[i].1 is None
    ||| !events[i].healthy && record_at(ledger, events, i).failures >= EVICT_AFTER
}

/// The nodes that lose their channels to the first `n` results.
pub open spec fn evicted(
    ledger: Map<u64, RecordView>,
    results: Seq<ProbeResult>,
    n: nat,
) -> Set<u64> {
    Set::new(
        |node: u64|
            exists|i: int|
                0 <= i < n && (#[trigger] results[i]).0 == node && evicts(ledger, results, i),
    )
}

/// What is published for result `i`: nothing is left of a node that loses its
/// channel or reports no route, and any other is replaced whole.
pub open spec fn action_at(
    ledger: Map<u64, RecordView>,
    results: Seq<ProbeResult>,
    i: int,
) -> ActionView {
    let events = results.map_values(|result: ProbeResult| result_event(result));
    let routes = match report_at(ledger, events, i) {
        Some(inventory) => inventory_routes(inventory),
        None => Seq::empty(),
    };
    if evicts(ledger, results, i) || routes.len() == 0 {
        ActionView::RemoveNode { node: results[i].0 }
    } else {
        ActionView::ReplaceNode { node: results[i].0, routes }
    }
}

/// The cache outcomes of all probes, in order.
pub open spec fn all_outcomes(results: Seq<ProbeResult>) -> Seq<CacheOutcome>
    decreases results.len(),
{
    if results.len() == 0 {
        Seq::empty()
    } else {
        all_outcomes(results.drop_last()) + match results.last().1 {
            Some(probe) => probe.outcomes@,
            None => Seq::empty(),
        }
    }
}

/// Hear of a listed node that could not be probed: the tick is neither complete
/// nor healthy, and the node's last good inventory is replayed within its
/// grace.
pub fn settle_unhealthy_node(
    ledger: &mut NodeLedger,
    node: u64,
    all_complete: &mut bool,
    all_healthy: &mut bool,
) -> (inventory: Option<DeviceInventory>)
    ensures
        !*final(all_complete),
        !*final(all_healthy),
        final(ledger)@ == old(ledger)@.insert(
            node,
            record_after(record_of(old(ledger)@, node), false, None),
        ),
        inventory_view(inventory) == reported(final(ledger)@[node], false, None),
{
    *all_complete = false;
    *all_healthy = false;
    ledger.settle(node, false, None).inventory
}

/// Hearing event `k` enters its record.
proof fn lemma_one_more(ledger: Map<u64, RecordView>, events: Seq<NodeEvent>, k: int)
    requires
        0 <= k < events.len(),
    ensures
        ledger_after(ledger, events.take(k + 1)) == ledger_after(ledger, events.take(k)).insert(
            events[k].node,
            record_at(ledger, events, k),
        ),
{
    assert(events.take(k + 1).drop_last() =~= events.take(k));
}

impl<Channel> Default for Enumerator<Channel> {
    fn default() -> (enumerator: Self)
        ensures
            enumerator.wf(),
            enumerator.probes@ == Map::<KeyView, EntryView>::empty(),
            !enumerator.probes.is_dirty(),
            enumerator.channels.active() == Map::<u64, Channel>::empty(),
            enumerator.channels.retiring() == Map::<u64, Channel>::empty(),
            enumerator.ledger@ == Map::<u64, RecordView>::empty(),
            !enumerator.publishes,
            !enumerator.persists,
            enumerator.tick == 0,
    {
        Enumerator {
            probes: ProbeCache::default(),
            channels: ChannelCache::default(),
            ledger: NodeLedger::default(),
            publishes: false,
            persists: false,
            tick: 0,
        }
    }
}

impl<Channel> Enumerator<Channel> {
    /// Cache keys are distinct, and no node is both in use and retiring.
    pub open spec fn wf(&self) -> bool {
        &&& self.probes.wf()
        &&& self.channels.wf()
    }

    /// An enumerator that publishes the routes of every settled tick.
    pub fn with_registry() -> (enumerator: Self)
        ensures
            enumerator.wf(),
            enumerator.probes@ == Map::<KeyView, EntryView>::empty(),
            !enumerator.probes.is_dirty(),
            enumerator.channels.active() == Map::<u64, Channel>::empty(),
            enumerator.channels.retiring() == Map::<u64, Channel>::empty(),
            enumerator.ledger@ == Map::<u64, RecordView>::empty(),
            enumerator.publishes,
            !enumerator.persists,
            enumerator.tick == 0,
    {
        let mut enumerator = Self::default();
        enumerator.publishes = true;
        enumerator
    }

    /// Start from the probes read from disk, and keep the cache on disk from
    /// now on; without a place to keep it, the cache stays in memory.
    pub fn persisted(self, on_disk: Option<Vec<(CacheKey, Cached)>>) -> (enumerator: Self)
        requires
            self.wf(),
        ensures
            enumerator.wf(),
            enumerator.persists == (on_disk is Some),
            enumerator.probes@ == match on_disk {
                Some(entries) => stored_all(self.probes@, entries@),
                None => self.probes@,
            },
            enumerator.probes.is_dirty() == self.probes.is_dirty(),
            enumerator == (Enumerator {
                probes: enumerator.probes,
                persists: enumerator.persists,
                ..self
            }),
    {
        let mut enumerator = self;
        match on_disk {
            Some(entries) => {
                enumerator.persists = true;
                enumerator.probes.warm_start(entries);
            },
            None => {
                enumerator.persists = false;
            },
        }
        enumerator
    }

    /// Count a new tick.
    pub fn begin_tick(&mut self) -> (tick: u64)
        ensures
            tick == (old(self).tick + 1) % 0x1_0000_0000_0000_0000,
            *final(self) == (Enumerator { tick, ..*old(self) }),
    {
        self.tick = self.tick.wrapping_add(1);
        self.tick
    }

    /// Decide what to do with one listed node. A node whose old connection is
    /// still retiring is left alone for this whole tick, even where the
    /// retired channel is dropped now; an open node is reused; any other is to
    /// be opened.
    pub fn prepare_node<F: FnOnce(&Channel) -> bool>(
        &mut self,
        prepared: &mut PreparedNodes,
        node: u64,
        is_quiescent: F,
    ) -> (step: NodeStep)
        requires
            old(self).wf(),
            old(self).channels.retiring().contains_key(node) ==> call_requires(
                is_quiescent,
                (&old(self).channels.retiring()[node],),
            ),
        ensures
            final(self).wf(),
            *final(self) == (Enumerator { channels: final(self).channels, ..*old(self) }),
            step == if old(self).channels.retiring().contains_key(node) {
                NodeStep::Retiring
            } else if old(self).channels.active().contains_key(node) {
                NodeStep::Reuse
            } else {
                NodeStep::Open
            },
            final(self).channels.active() == old(self).channels.active(),
            step != NodeStep::Retiring ==> final(self).channels.retiring() == old(
                self,
            ).channels.retiring(),
            step == NodeStep::Retiring ==> exists|quiet: bool|
                {
                    &&& #[trigger] call_ensures(
                        is_quiescent,
                        (&old(self).channels.retiring()[node],),
                        quiet,
                    )
                    &&& final(self).channels.retiring() == if quiet {
                        old(self).channels.retiring().remove(node)
                    } else {
                        old(self).channels.retiring()
                    }
                },
            final(prepared).seen@ == old(prepared).seen@.insert(node),
            final(prepared).active@ == if step == NodeStep::Reuse {
                old(prepared).active@.push(node)
            } else {
                old(prepared).active@
            },
            final(prepared).retiring@ == if step == NodeStep::Retiring {
                old(prepared).retiring@.push(node)
            } else {
                old(prepared).retiring@
            },
            final(prepared).open_failures@ == old(prepared).open_failures@,
            old(prepared).ready(old(self).channels) ==> final(prepared).ready(
                final(self).channels,
            ),
    {
        proof {
            lemma_push_contains(prepared.active@, node);
        }
        prepared.seen.insert(node);
        if !self.channels.prepare_open(&node, is_quiescent) {
            prepared.retiring.push(node);
            return NodeStep::Retiring;
        }
        if self.channels.get(&node).is_some() {
            prepared.active.push(node);
            return NodeStep::Reuse;
        }
        NodeStep::Open
    }

    /// Take in how opening a node went: an opened node is kept open and probed,
    /// one that does not speak HID++ is passed over, and a failure is reported
    /// for the tick.
    pub fn node_opened(
        &mut self,
        prepared: &mut PreparedNodes,
        node: u64,
        outcome: OpenOutcome<Channel>,
    )
        requires
            old(self).wf(),
            !old(self).channels.retiring().contains_key(node),
        ensures
            final(self).wf(),
            *final(self) == (Enumerator { channels: final(self).channels, ..*old(self) }),
            final(self).channels.retiring() == old(self).channels.retiring(),
            final(self).channels.active() == match outcome {
                OpenOutcome::Opened(channel) => old(self).channels.active().insert(node, channel),
                _ => old(self).channels.active(),
            },
            final(prepared).seen@ == old(prepared).seen@,
            final(prepared).retiring@ == old(prepared).retiring@,
            final(prepared).active@ == if outcome is Opened {
                old(prepared).active@.push(node)
            } else {
                old(prepared).active@
            },
            final(prepared).open_failures@ == if outcome is Failed {
                old(prepared).open_failures@.push(node)
            } else {
                old(prepared).open_failures@
            },
            old(prepared).ready(old(self).channels) && old(prepared).seen@.contains(node)
                ==> final(prepared).ready(final(self).channels),
    {
        proof {
            lemma_push_contains(prepared.active@, node);
        }
        match outcome {
            OpenOutcome::Opened(channel) => {
                self.channels.insert(node, channel);
                prepared.active.push(node);
            },
            OpenOutcome::NotHidpp => {},
            OpenOutcome::Failed => {
                prepared.open_failures.push(node);
            },
        }
    }

    /// Settle which nodes are there. The OS can leave out a device whose open
    /// handle is still live, so a cached channel that still reports a
    /// connection counts as listed and is probed. What is published is to be
    /// cut down to these nodes before anything is given up; whether anything
    /// is published is returned.
    pub fn settle_seen<L: Fn(&Channel) -> bool>(
        &self,
        prepared: &mut PreparedNodes,
        is_connected: L,
    ) -> (publish: bool)
        requires
            forall|channel: Channel| #[trigger] call_requires(is_connected, (&channel,)),
        ensures
            publish == self.publishes,
            settled_seen(self.channels, *old(prepared), is_connected, *final(prepared)),
            old(prepared).ready(self.channels) ==> final(prepared).ready(self.channels),
    {
        let absent = self.channels.absent(&prepared.seen);
        let mut cached: Vec<(u64, bool)> = Vec::new();
        let ghost active = self.channels.active();
        let ghost listed = prepared.active@;
        for i in 0..absent.len()
            invariant
                active == self.channels.active(),
                forall|channel: Channel| #[trigger] call_requires(is_connected, (&channel,)),
                absent@.no_duplicates(),
                forall|node: u64| #[trigger] absent@.contains(node) ==> active.contains_key(node),
                cached@.len() == i,
                forall|k: int|
                    0 <= k < i ==> (#[trigger] cached@[k]).0 == absent@[k] && call_ensures(
                        is_connected,
                        (&active[absent@[k]],),
                        cached@[k].1,
                    ),
                prepared.active@.len() >= listed.len(),
                prepared.active@.take(listed.len() as int) == listed,
                live_prefix(cached@, i as int, prepared.active@.skip(listed.len() as int)),
                prepared.retiring@ == old(prepared).retiring@,
                prepared.open_failures@ == old(prepared).open_failures@,
                prepared.seen == old(prepared).seen,
        {
            let node = absent[i];
            assert(absent@.contains(node));
            let connected = match self.channels.get(&node) {
                Some(channel) => is_connected(channel),
                None => false,
            };
            let ghost earlier = cached@;
            let ghost added = prepared.active@.skip(listed.len() as int);
            cached.push((node, connected));
            if connected {
                prepared.active.push(node);
                assert(prepared.active@.take(listed.len() as int) =~= listed);
                assert(prepared.active@.skip(listed.len() as int) =~= added.push(node));
            }
            proof {
                assert(cached@.drop_last() =~= earlier);
                lemma_live_step(earlier, cached@, absent@, added);
            }
        }
        let retained = retained_nodes(&prepared.seen, cached.as_slice());
        let ghost added = prepared.active@.skip(listed.len() as int);
        proof {
            assert(listed.is_prefix_of(prepared.active@)) by {
                assert forall|k: int| 0 <= k < listed.len() implies listed[k]
                    == prepared.active@[k] by {
                    assert(prepared.active@.take(listed.len() as int)[k] == listed[k]);
                }
            }
            assert forall|node: u64| #[trigger] added.contains(node) <==> retained@.contains(node)
                && !prepared.seen@.contains(node) by {
                if added.contains(node) {
                    let k = choose|k: int|
                        0 <= k < cached@.len() && #[trigger] cached@[k] == (node, true);
                    assert(cached@[k].0 == absent@[k]);
                    assert(absent@.contains(node));
                    assert(cached@.contains((node, true)));
                }
                if cached@.contains((node, true)) {
                    let k = choose|k: int| 0 <= k < cached@.len() && cached@[k] == (node, true);
                    assert(cached@[k] == (node, true));
                }
            }
            assert forall|node: u64| #[trigger]
                retained@.contains(node) && !prepared.seen@.contains(
                    node,
                ) implies active.contains_key(node) && call_ensures(
                is_connected,
                (&active[node],),
                true,
            ) by {
                let k = choose|k: int| 0 <= k < cached@.len() && cached@[k] == (node, true);
                assert(cached@[k].0 == absent@[k]);
                assert(absent@.contains(node));
            }
            assert forall|node: u64| #[trigger]
                active.contains_key(node) && !retained@.contains(node) implies call_ensures(
                is_connected,
                (&active[node],),
                false,
            ) by {
                assert(absent@.contains(node));
                let k = choose|k: int| 0 <= k < absent@.len() && absent@[k] == node;
                assert(cached@[k].0 == absent@[k]);
                if cached@[k].1 {
                    assert(cached@.contains((node, true)));
                }
            }
        }
        prepared.seen = retained;
        proof {
            if old(prepared).ready(self.channels) {
                assert forall|node: u64| #[trigger] prepared.active@.contains(node) implies
                    prepared.seen@.contains(node) && self.channels.active().contains_key(node) by {
                    let k = choose|k: int|
                        0 <= k < prepared.active@.len() && prepared.active@[k] == node;
                    if k < listed.len() {
                        assert(listed[k] == node);
                        assert(old(prepared).active@.contains(node));
                    } else {
                        assert(added[k - listed.len()] == node);
                        assert(added.contains(node));
                    }
                }
            }
        }
        self.publishes
    }

    /// Give up every node that is not there: it loses its channel, its retired
    /// channel once nobody else owns it, and its ledger record.
    pub fn retire_unlisted<Q: Fn(&Channel) -> bool>(
        &mut self,
        prepared: &PreparedNodes,
        is_quiescent: Q,
    )
        requires
            old(self).wf(),
            forall|channel: Channel| #[trigger] call_requires(is_quiescent, (&channel,)),
        ensures
            final(self).wf(),
            *final(self) == (Enumerator {
                channels: final(self).channels,
                ledger: final(self).ledger,
                ..*old(self)
            }),
            final(self).channels.active() == old(self).channels.active().restrict(
                prepared.seen@,
            ),
            retired_by(
                old(self).channels,
                prepared.seen@,
                is_quiescent,
                final(self).channels.retiring(),
            ),
            final(self).ledger@ == old(self).ledger@.restrict(prepared.seen@),
            prepared.ready(old(self).channels) ==> prepared.ready(final(self).channels),
    {
        self.channels.retire_absent(&prepared.seen, |_channel: &Channel| {});
        self.channels.reap_absent(&prepared.seen, is_quiescent);
        self.ledger.retain_nodes(&prepared.seen);
    }

    /// Settle a tick: report for every listed node, give up the channels of
    /// nodes that keep failing or ran out of time, and say what to publish.
    /// Then fold what the probes read into the cache.
    pub fn settle_tick(
        &mut self,
        results: Vec<ProbeResult>,
        retiring: Vec<u64>,
        open_failures: Vec<u64>,
    ) -> (report: TickReport)
        requires
            old(self).wf(),
        ensures
            final(self).wf(),
            *final(self) == (Enumerator {
                probes: final(self).probes,
                channels: final(self).channels,
                ledger: final(self).ledger,
                ..*old(self)
            }),
            report.all_complete == (retiring@.len() == 0 && open_failures@.len() == 0
                && forall|i: int|
                0 <= i < results@.len() ==> ((#[trigger] results@[i]).1 matches Some(probe)
                    && probe.complete)),
            report.all_healthy == (retiring@.len() == 0 && open_failures@.len() == 0
                && forall|i: int|
                0 <= i < results@.len() ==> ((#[trigger] results@[i]).1 matches Some(probe)
                    && probe.healthy)),
            final(self).ledger@ == ledger_after(
                old(self).ledger@,
                tick_events(results@, retiring@, open_failures@),
            ),
            inventories_view(report.inventories@) == reports(
                old(self).ledger@,
                tick_events(results@, retiring@, open_failures@),
                (results@.len() + retiring@.len() + open_failures@.len()) as nat,
            ),
            old(self).publishes ==> report.actions@.len() == results@.len(),
            !old(self).publishes ==> report.actions@.len() == 0,
            forall|i: int|
                0 <= i < report.actions@.len() ==> (#[trigger] report.actions@[i])@ == action_at(
                    old(self).ledger@,
                    results@,
                    i,
                ),
            final(self).channels.active() == old(self).channels.active().remove_keys(
                evicted(old(self).ledger@, results@, results@.len()),
            ),
            final(self).channels.retiring() == old(self).channels.retiring().union_prefer_right(
                old(self).channels.active().restrict(
                    evicted(old(self).ledger@, results@, results@.len()),
                ),
            ),
            final(self).probes@ == after_tick(
                after_outcomes(old(self).probes@, all_outcomes(results@)),
                seen_keys(all_outcomes(results@)),
            ),
            final(self).probes.is_dirty() == (old(self).probes.is_dirty() || (exists|i: int|
                0 <= i < all_outcomes(results@).len() && dirties(
                    #[trigger] all_outcomes(results@)[i],
                )) || drops_persistable(
                after_outcomes(old(self).probes@, all_outcomes(results@)),
                seen_keys(all_outcomes(results@)),
            )),
    {
        let ghost ledger = old(self).ledger@;
        let ghost all = results@;
        let ghost events = tick_events(results@, retiring@, open_failures@);
        let ghost from = *old(self);
        let mut results = results;
        let mut inventories: Vec<DeviceInventory> = Vec::new();
        let mut outcomes: Vec<CacheOutcome> = Vec::new();
        let mut actions: Vec<RegistryAction> = Vec::new();
        let mut all_complete = true;
        let mut all_healthy = true;
        let ghost mut done: int = 0;
        proof {
            assert(results@ =~= all.skip(0));
            assert(events.take(0) =~= Seq::empty());
            assert(all.take(0) =~= Seq::empty());
            assert(inventories_view(inventories@) =~= Seq::empty());
            assert(from.channels.active() =~= from.channels.active().remove_keys(
                evicted(ledger, all, 0),
            ));
            assert(from.channels.retiring() =~= from.channels.retiring().union_prefer_right(
                from.channels.active().restrict(evicted(ledger, all, 0)),
            ));
        }
        while results.len() > 0
            invariant
                from == *old(self),
                ledger == from.ledger@,
                0 <= done <= all.len(),
                results@ == all.skip(done),
                events == tick_events(all, retiring@, open_failures@),
                self.wf(),
                *self == (Enumerator { channels: self.channels, ledger: self.ledger, ..from }),
                self.ledger@ == ledger_after(ledger, events.take(done)),
                inventories_view(inventories@) == reports(ledger, events, done as nat),
                outcomes@ == all_outcomes(all.take(done)),
                all_complete == forall|i: int|
                    0 <= i < done ==> ((#[trigger] all[i]).1 matches Some(probe) && probe.complete),
                all_healthy == forall|i: int|
                    0 <= i < done ==> ((#[trigger] all[i]).1 matches Some(probe) && probe.healthy),
                actions@.len() == if from.publishes {
                    done
                } else {
                    0
                },
                forall|i: int|
                    0 <= i < actions@.len() ==> (#[trigger] actions@[i])@ == action_at(
                        ledger,
                        all,
                        i,
                    ),
                self.channels.active() == from.channels.active().remove_keys(
                    evicted(ledger, all, done as nat),
                ),
                self.channels.retiring() == from.channels.retiring().union_prefer_right(
                    from.channels.active().restrict(evicted(ledger, all, done as nat)),
                ),
            decreases results@.len(),
        {
            let (node, result) = results.remove(0);
            proof {
                assert(all[done] == (node, result));
                assert(results@ =~= all.skip(done + 1));
                assert(events[done] == result_event(all[done]));
                assert(all.take(done + 1).drop_last() =~= all.take(done));
                assert(all.take(done + 1).last() == all[done]);
                lemma_one_more(ledger, events, done);
                lemma_result_events(all, retiring@, open_failures@, ledger, done);
            }
            let timed_out = result.is_none();
            let probe = match result {
                Some(probe) => probe,
                None => NodeProbe::failed(),
            };
            all_complete = all_complete && probe.complete;
            all_healthy = all_healthy && probe.healthy;
            let mut read = probe.outcomes;
            outcomes.append(&mut read);
            let settled = self.ledger.settle(node, probe.healthy, probe.inventory);
            let evict = settled.evict_channel || timed_out;
            assert(evict == evicts(ledger, all, done));
            if evict {
                self.channels.retire_node(&node);
            }
            if self.publishes {
                let action = node_action(node, evict, &settled.inventory);
                actions.push(action);
            }
            let ghost before = inventories@;
            match settled.inventory {
                Some(inventory) => {
                    inventories.push(inventory);
                    assert(inventories_view(inventories@) =~= inventories_view(before).push(
                        inventory@,
                    ));
                },
                None => {},
            }
            proof {
                lemma_evicted_step(ledger, all, done as nat);
                let gone = evicted(ledger, all, (done + 1) as nat);
                assert(self.channels.active() =~= from.channels.active().remove_keys(gone));
                assert(self.channels.retiring()
                    =~= from.channels.retiring().union_prefer_right(
                    from.channels.active().restrict(gone),
                ));
                done = done + 1;
            }
        }
        assert(all.take(done) =~= all);
        for i in 0..retiring.len()
            invariant
                ledger == from.ledger@,
                events == tick_events(all, retiring@, open_failures@),
                self.ledger@ == ledger_after(ledger, events.take(all.len() + i)),
                inventories_view(inventories@) == reports(ledger, events, (all.len() + i) as nat),
                *self == (Enumerator { channels: self.channels, ledger: self.ledger, ..from }),
                self.wf(),
                i > 0 ==> !all_complete && !all_healthy,
                i == 0 ==> all_complete == forall|i: int|
                    0 <= i < all.len() ==> ((#[trigger] all[i]).1 matches Some(probe)
                        && probe.complete),
                i == 0 ==> all_healthy == forall|i: int|
                    0 <= i < all.len() ==> ((#[trigger] all[i]).1 matches Some(probe)
                        && probe.healthy),
                self.channels.active() == from.channels.active().remove_keys(
                    evicted(ledger, all, all.len()),
                ),
                self.channels.retiring() == from.channels.retiring().union_prefer_right(
                    from.channels.active().restrict(evicted(ledger, all, all.len())),
                ),
        {
            proof {
                assert(events[all.len() + i] == unhealthy_event(retiring@[i as int]));
                lemma_one_more(ledger, events, all.len() + i);
            }
            let ghost before = inventories@;
            match settle_unhealthy_node(
                &mut self.ledger,
                retiring[i],
                &mut all_complete,
                &mut all_healthy,
            ) {
                Some(inventory) => {
                    inventories.push(inventory);
                    assert(inventories_view(inventories@) =~= inventories_view(before).push(
                        inventory@,
                    ));
                },
                None => {},
            }
        }
        let ghost listed = all.len() + retiring@.len();
        for i in 0..open_failures.len()
            invariant
                ledger == from.ledger@,
                events == tick_events(all, retiring@, open_failures@),
                listed == all.len() + retiring@.len(),
                self.ledger@ == ledger_after(ledger, events.take(listed + i)),
                inventories_view(inventories@) == reports(ledger, events, (listed + i) as nat),
                *self == (Enumerator { channels: self.channels, ledger: self.ledger, ..from }),
                self.wf(),
                retiring@.len() > 0 || i > 0 ==> !all_complete && !all_healthy,
                retiring@.len() == 0 && i == 0 ==> all_complete == forall|i: int|
                    0 <= i < all.len() ==> ((#[trigger] all[i]).1 matches Some(probe)
                        && probe.complete),
                retiring@.len() == 0 && i == 0 ==> all_healthy == forall|i: int|
                    0 <= i < all.len() ==> ((#[trigger] all[i]).1 matches Some(probe)
                        && probe.healthy),
                self.channels.active() == from.channels.active().remove_keys(
                    evicted(ledger, all, all.len()),
                ),
                self.channels.retiring() == from.channels.retiring().union_prefer_right(
                    from.channels.active().restrict(evicted(ledger, all, all.len())),
                ),
        {
            proof {
                assert(events[listed + i] == unhealthy_event(open_failures@[i as int]));
                lemma_one_more(ledger, events, listed + i);
            }
            let ghost before = inventories@;
            match settle_unhealthy_node(
                &mut self.ledger,
                open_failures[i],
                &mut all_complete,
                &mut all_healthy,
            ) {
                Some(inventory) => {
                    inventories.push(inventory);
                    assert(inventories_view(inventories@) =~= inventories_view(before).push(
                        inventory@,
                    ));
                },
                None => {},
            }
        }
        assert(events.take((listed + open_failures@.len()) as int) =~= events);
        let seen = self.probes.apply_outcomes(outcomes);
        self.probes.evict_unseen(seen.as_slice());
        TickReport { inventories, all_complete, all_healthy, actions }
    }

    /// Whether the probe cache must be written to disk now.
    pub fn needs_flush(&self) -> (flush: bool)
        ensures
            flush == (self.persists && self.probes.is_dirty()),
    {
        self.persists && self.probes.needs_flush()
    }
}

/// What to publish for a settled node.
fn node_action(node: u64, evict: bool, inventory: &Option<DeviceInventory>) -> (action: RegistryAction)
    ensures
        action@ == {
            let routes = match inventory_view(*inventory) {
                Some(inventory) => inventory_routes(inventory),
                None => Seq::empty(),
            };
            if evict || routes.len() == 0 {
                ActionView::RemoveNode { node }
            } else {
                ActionView::ReplaceNode { node, routes }
            }
        },
{
    if evict {
        return RegistryAction::RemoveNode { node };
    }
    match inventory {
        Some(inventory) => {
            let one: Vec<DeviceInventory> = vec![inventory.clone()];
            let routes = routes_for_inventories(one.as_slice());
            proof {
                let view = inventories_view(one@);
                assert(view =~= seq![inventory@]);
                reveal_with_fuel(routes_of, 2);
                assert(view.drop_last() =~= Seq::empty());
                assert(routes_of(view) =~= inventory_routes(inventory@));
                assert(routes_view(routes@).len() == routes@.len());
            }
            if routes.is_empty() {
                RegistryAction::RemoveNode { node }
            } else {
                RegistryAction::ReplaceNode { node, routes }
            }
        },
        None => RegistryAction::RemoveNode { node },
    }
}

/// The results' own events are the first events of the tick.
proof fn lemma_result_events(
    results: Seq<ProbeResult>,
    retiring: Seq<u64>,
    open_failures: Seq<u64>,
    ledger: Map<u64, RecordView>,
    i: int,
)
    requires
        0 <= i < results.len(),
    ensures
        ({
            let own = results.map_values(|result: ProbeResult| result_event(result));
            let events = tick_events(results, retiring, open_failures);
            record_at(ledger, own, i) == record_at(ledger, events, i) && report_at(ledger, own, i)
                == report_at(ledger, events, i)
        }),
{
    let own = results.map_values(|result: ProbeResult| result_event(result));
    let events = tick_events(results, retiring, open_failures);
    assert(own.take(i) =~= events.take(i));
    assert(own[i] == events[i]);
}

proof fn lemma_evicted_step(ledger: Map<u64, RecordView>, results: Seq<ProbeResult>, n: nat)
    requires
        n < results.len(),
    ensures
        evicted(ledger, results, n + 1) == if evicts(ledger, results, n as int) {
            evicted(ledger, results, n).insert(results[n as int].0)
        } else {
            evicted(ledger, results, n)
        },
{
    let more = evicted(ledger, results, n + 1);
    let expected = if evicts(ledger, results, n as int) {
        evicted(ledger, results, n).insert(results[n as int].0)
    } else {
        evicted(ledger, results, n)
    };
    assert forall|node: u64| #[trigger] more.contains(node) <==> expected.contains(node) by {
        if evicted(ledger, results, n).contains(node) {
            let i = choose|i: int|
                0 <= i < n && (#[trigger] results[i]).0 == node && evicts(ledger, results, i);
            assert(0 <= i < n + 1 && results[i].0 == node && evicts(ledger, results, i));
        }
        if more.contains(node) {
            let i = choose|i: int|
                0 <= i < n + 1 && (#[trigger] results[i]).0 == node && evicts(ledger, results, i);
            if i < n {
                assert(evicted(ledger, results, n).contains(node));
            }
        }
    }
    assert(more =~= expected);
}

/// Whether `retiring` is what is left of the retiring channels after every
/// unlisted node retired: a channel leaves only where its node is unlisted and
/// nobody else owns it.
pub open spec fn retired_by<Channel, Q: Fn(&Channel) -> bool>(
    before: ChannelCache<Channel>,
    seen: Set<u64>,
    is_quiescent: Q,
    retiring: Map<u64, Channel>,
) -> bool {
    let all = before.retiring().union_prefer_right(before.active().remove_keys(seen));
    &&& retiring.submap_of(all)
    &&& forall|node: u64| #[trigger]
        retiring.contains_key(node) ==> seen.contains(node) || call_ensures(
            is_quiescent,
            (&all[node],),
            false,
        )
    &&& forall|node: u64| #[trigger]
        all.contains_key(node) && !retiring.contains_key(node) ==> !seen.contains(node)
            && call_ensures(is_quiescent, (&all[node],), true)
}

/// Whether `added` lists, each once, the connected ones of the first `n` of
/// `cached`.
spec fn live_prefix(cached: Seq<(u64, bool)>, n: int, added: Seq<u64>) -> bool {
    &&& added.no_duplicates()
    &&& forall|node: u64| #[trigger]
        added.contains(node) <==> exists|k: int| 0 <= k < n && #[trigger] cached[k] == (node, true)
}

proof fn lemma_live_step(
    earlier: Seq<(u64, bool)>,
    cached: Seq<(u64, bool)>,
    absent: Seq<u64>,
    added: Seq<u64>,
)
    requires
        live_prefix(earlier, earlier.len() as int, added),
        cached.len() == earlier.len() + 1,
        cached.drop_last() == earlier,
        cached.len() <= absent.len(),
        absent.no_duplicates(),
        forall|k: int| 0 <= k < cached.len() ==> (#[trigger] cached[k]).0 == absent[k],
    ensures
        live_prefix(
            cached,
            cached.len() as int,
            if cached.last().1 {
                added.push(cached.last().0)
            } else {
                added
            },
        ),
{
    let n = earlier.len() as int;
    let node = cached.last().0;
    let after = if cached.last().1 {
        added.push(node)
    } else {
        added
    };
    assert(cached[n] == cached.last());
    assert forall|k: int| 0 <= k < n implies #[trigger] cached[k] == earlier[k] by {
        assert(cached.drop_last()[k] == cached[k]);
    }
    assert(!added.contains(node)) by {
        if added.contains(node) {
            let k = choose|k: int| 0 <= k < n && #[trigger] earlier[k] == (node, true);
            assert(cached[k].0 == absent[k]);
            assert(cached[n].0 == absent[n]);
        }
    }
    assert forall|x: u64| #[trigger] after.contains(x) <==> exists|k: int|
        0 <= k < n + 1 && #[trigger] cached[k] == (x, true) by {
        if added.contains(x) {
            let k = choose|k: int| 0 <= k < n && #[trigger] earlier[k] == (x, true);
            assert(cached[k] == (x, true));
            let j = choose|j: int| 0 <= j < added.len() && added[j] == x;
            assert(after[j] == x);
        }
        if after.contains(x) && !added.contains(x) {
            let j = choose|j: int| 0 <= j < after.len() && after[j] == x;
            if j < added.len() {
                assert(added[j] == x);
            }
            assert(cached[n] == (x, true));
        }
        if exists|k: int| 0 <= k < n + 1 && #[trigger] cached[k] == (x, true) {
            let k = choose|k: int| 0 <= k < n + 1 && #[trigger] cached[k] == (x, true);
            if k < n {
                assert(earlier[k] == (x, true));
            } else {
                assert(after[added.len() as int] == x);
            }
        }
    }
}

/// A node that no event names keeps its record.
pub proof fn lemma_other_nodes_keep_their_records(
    ledger: Map<u64, RecordView>,
    events: Seq<NodeEvent>,
    node: u64,
)
    requires
        forall|i: int| 0 <= i < events.len() ==> (#[trigger] events[i]).node != node,
    ensures
        ledger_after(ledger, events).contains_key(node) == ledger.contains_key(node),
        record_of(ledger_after(ledger, events), node) == record_of(ledger, node),
    decreases events.len(),
{
    if events.len() > 0 {
        let before = events.drop_last();
        assert forall|i: int| 0 <= i < before.len() implies (#[trigger] before[i]).node != node by {
            assert(before[i] == events[i]);
        }
        assert(events[events.len() - 1].node != node);
        lemma_other_nodes_keep_their_records(ledger, before, node);
    }
}

/// A listed node whose probe failed is not reported as absent: within the
/// grace its last good inventory is reported, whatever the other nodes say.
pub proof fn lemma_failed_node_is_replayed(
    ledger: Map<u64, RecordView>,
    events: Seq<NodeEvent>,
    i: int,
)
    requires
        0 <= i < events.len(),
        !events[i].healthy,
        forall|k: int| 0 <= k < i ==> (#[trigger] events[k]).node != events[i].node,
        record_of(ledger, events[i].node).last_good is Some,
        record_of(ledger, events[i].node).failures < REPLAY_GRACE,
    ensures
        report_at(ledger, events, i) == record_of(ledger, events[i].node).last_good,
{
    let earlier = events.take(i);
    assert forall|k: int| 0 <= k < earlier.len() implies (#[trigger] earlier[k]).node
        != events[i].node by {
        assert(earlier[k] == events[k]);
    }
    lemma_other_nodes_keep_their_records(ledger, earlier, events[i].node);
}

/// A node whose probe ran out of time is published without routes and loses
/// its channel, whatever was known of it before.
pub proof fn lemma_timed_out_node_is_withdrawn(
    ledger: Map<u64, RecordView>,
    results: Seq<ProbeResult>,
    i: int,
)
    requires
        0 <= i < results.len(),
        results[i].1 is None,
    ensures
        action_at(ledger, results, i) == (ActionView::RemoveNode { node: results[i].0 }),
        evicted(ledger, results, results.len()).contains(results[i].0),
{
}

/// Attempts a one-shot inventory makes before it settles for what it last read.
pub const ONESHOT_ATTEMPTS: u8 = 4;

/// Delay between the attempts of a one-shot inventory, in nanoseconds.
pub const ONESHOT_RETRY_DELAY: u64 = 300_000_000;

/// Whether a one-shot inventory is done: it is complete, or it is healthy and
/// the same as the healthy one before it, or the attempts are used up.
pub open spec fn stops(
    previous: Option<Seq<InventoryView>>,
    current: Seq<InventoryView>,
    all_complete: bool,
    all_healthy: bool,
    attempt: u8,
) -> bool {
    ||| all_complete
    ||| all_healthy && previous == Some(current)
    ||| attempt >= ONESHOT_ATTEMPTS
}

/// The value of an optional list of inventories.
pub open spec fn previous_view(previous: Option<&[DeviceInventory]>) -> Option<Seq<InventoryView>> {
    match previous {
        Some(previous) => Some(inventories_view(previous@)),
        None => None,
    }
}

/// Whether a one-shot inventory stops after this attempt. An unchanged
/// inventory from a failed probe is no evidence that it settled.
pub fn one_shot_should_stop(
    previous: Option<&[DeviceInventory]>,
    current: &[DeviceInventory],
    all_complete: bool,
    all_healthy: bool,
    attempt: u8,
) -> (stop: bool)
    ensures
        stop == stops(
            previous_view(previous),
            inventories_view(current@),
            all_complete,
            all_healthy,
            attempt,
        ),
{
    let unchanged = match previous {
        Some(previous) => same_inventories(previous, current),
        None => false,
    };
    all_complete || (all_healthy && unchanged) || attempt >= ONESHOT_ATTEMPTS
}

/// What a one-shot inventory does after an attempt.
#[derive(Debug, PartialEq, Eq)]
pub enum OneShotStep {
    Done(Vec<DeviceInventory>),
    /// Try again after this many nanoseconds.
    RetryAfter(u64),
}

/// A one-shot inventory under way.
pub struct OneShot {
    previous: Option<Vec<DeviceInventory>>,
    attempt: u8,
}

impl OneShot {
    /// The attempt under way, counted from one.
    pub closed spec fn attempt(&self) -> u8 {
        self.attempt
    }

    /// The inventory of the attempt before, where that was healthy.
    pub closed spec fn previous(&self) -> Option<Seq<InventoryView>> {
        match self.previous {
            Some(previous) => Some(inventories_view(previous@)),
            None => None,
        }
    }

    /// No more attempts than allowed.
    pub open spec fn wf(&self) -> bool {
        1 <= self.attempt() <= ONESHOT_ATTEMPTS
    }

    /// Start with the first attempt.
    pub fn new() -> (one_shot: OneShot)
        ensures
            one_shot.wf(),
            one_shot.attempt() == 1,
            one_shot.previous() is None,
    {
        OneShot { previous: None, attempt: 1 }
    }

    /// Take in one attempt's inventory. Only a healthy one counts as evidence
    /// for the attempt after it.
    pub fn observe(
        &mut self,
        inventories: Vec<DeviceInventory>,
        all_complete: bool,
        all_healthy: bool,
    ) -> (step: OneShotStep)
        requires
            old(self).wf(),
        ensures
            final(self).wf(),
            stops(
                old(self).previous(),
                inventories_view(inventories@),
                all_complete,
                all_healthy,
                old(self).attempt(),
            ) ==> step == OneShotStep::Done(inventories) && *final(self) == *old(self),
            !stops(
                old(self).previous(),
                inventories_view(inventories@),
                all_complete,
                all_healthy,
                old(self).attempt(),
            ) ==> {
                &&& step == OneShotStep::RetryAfter(ONESHOT_RETRY_DELAY)
                &&& final(self).attempt() == old(self).attempt() + 1
                &&& final(self).previous() == if all_healthy {
                    Some(inventories_view(inventories@))
                } else {
                    None
                }
            },
    {
        let stop = match &self.previous {
            Some(previous) => one_shot_should_stop(
                Some(previous.as_slice()),
                inventories.as_slice(),
                all_complete,
                all_healthy,
                self.attempt,
            ),
            None => one_shot_should_stop(
                None,
                inventories.as_slice(),
                all_complete,
                all_healthy,
                self.attempt,
            ),
        };
        if stop {
            return OneShotStep::Done(inventories);
        }
        self.previous = if all_healthy {
            Some(inventories)
        } else {
            None
        };
        self.attempt = self.attempt + 1;
        OneShotStep::RetryAfter(ONESHOT_RETRY_DELAY)
    }
}

/// One attempt of a one-shot inventory.
pub struct Pass {
    pub inventories: Seq<InventoryView>,
    pub all_complete: bool,
    pub all_healthy: bool,
}

/// Whether a one-shot inventory that sees `passes` stops at pass `n`, counted
/// from none.
pub open spec fn stops_at(passes: Seq<Pass>, n: int) -> bool {
    let previous = if n > 0 && passes[n - 1].all_healthy {
        Some(passes[n - 1].inventories)
    } else {
        None
    };
    stops(
        previous,
        passes[n].inventories,
        passes[n].all_complete,
        passes[n].all_healthy,
        (n + 1) as u8,
    )
}

/// A one-shot inventory ends by its last allowed attempt, whatever it reads.
pub proof fn lemma_one_shot_is_bounded(passes: Seq<Pass>)
    requires
        passes.len() >= ONESHOT_ATTEMPTS,
    ensures
        stops_at(passes, ONESHOT_ATTEMPTS - 1),
{
}

/// Before the last attempt an incomplete inventory is settled for only on two
/// healthy attempts in a row that read the same.
pub proof fn lemma_early_stop_needs_stable_evidence(passes: Seq<Pass>, n: int)
    requires
        0 <= n < passes.len(),
        n + 1 < ONESHOT_ATTEMPTS,
        stops_at(passes, n),
        !passes[n].all_complete,
    ensures
        n > 0,
        passes[n - 1].all_healthy,
        passes[n].all_healthy,
        passes[n - 1].inventories == passes[n].inventories,
{
}

} // verus!
