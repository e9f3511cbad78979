//! Per-node memory of the last good inventory.
//!
//! A node the OS still lists but whose probe failed is not reported as absent:
//! its last good inventory is replayed for a bounded number of consecutive
//! failures, and after a few of them its channel is given up for reopening.

use crate::device::{inventory_view, DeviceInventory, InventoryView};
use crate::node_set::{absent_nodes, lemma_take_contains};
use std::collections::{HashMap, HashSet};
use vstd::prelude::*;

verus! {

/// Consecutive failed probes through which a node's last good inventory is
/// still replayed.
pub const REPLAY_GRACE: u8 = 3;

/// Consecutive failed probes after which a node's channel is given up.
pub const EVICT_AFTER: u8 = 2;

/// What is remembered of one node.
pub struct NodeRecord {
    pub last_good: Option<DeviceInventory>,
    pub failures: u8,
}

/// The value of a node's record.
pub struct RecordView {
    pub last_good: Option<InventoryView>,
    pub failures: u8,
}

impl View for NodeRecord {
    type V = RecordView;

    open spec fn view(&self) -> RecordView {
        RecordView { last_good: inventory_view(self.last_good), failures: self.failures }
    }
}

/// What one probe of a node settles on.
#[derive(Debug)]
pub struct Settled {
    /// The inventory to report for the node this tick.
    pub inventory: Option<DeviceInventory>,
    /// Whether the node's channel must be given up and reopened.
    pub evict_channel: bool,
}

/// The record of a node that was never probed.
pub open spec fn blank_record() -> RecordView {
    RecordView { last_good: None, failures: 0 }
}

/// A node's record in a ledger, blank where the ledger holds none.
pub open spec fn record_of(ledger: Map<u64, RecordView>, node: u64) -> RecordView {
    if ledger.contains_key(node) {
        ledger[node]
    } else {
        blank_record()
    }
}

/// The record after one more probe: a healthy probe starts over with what it
/// read, a failed one counts, and past the grace nothing is left to replay.
pub open spec fn record_after(
    before: RecordView,
    healthy: bool,
    inventory: Option<InventoryView>,
) -> RecordView {
    if healthy {
        RecordView { last_good: inventory, failures: 0 }
    } else {
        let failures: u8 = if before.failures == u8::MAX {
            u8::MAX
        } else {
            (before.failures + 1) as u8
        };
        RecordView {
            last_good: if failures <= REPLAY_GRACE {
                before.last_good
            } else {
                None
            },
            failures,
        }
    }
}

/// What is reported for a node: the probe's own inventory when it was healthy,
/// else the replayed last good one, else whatever partial read there was.
pub open spec fn reported(
    after: RecordView,
    healthy: bool,
    inventory: Option<InventoryView>,
) -> Option<InventoryView> {
    if !healthy && after.last_good is Some {
        after.last_good
    } else {
        inventory
    }
}

/// Last good inventory and failure count per node.
pub struct NodeLedger {
    nodes: HashMap<u64, NodeRecord>,
}

impl View for NodeLedger {
    type V = Map<u64, RecordView>;

    closed spec fn view(&self) -> Map<u64, RecordView> {
        self.nodes@.map_values(|record: NodeRecord| record@)
    }
}

impl Default for NodeLedger {
    fn default() -> (ledger: Self)
        ensures
            ledger@ == Map::<u64, RecordView>::empty(),
    {
        let ledger = NodeLedger { nodes: HashMap::new() };
        assert(ledger@ =~= Map::<u64, RecordView>::empty());
        ledger
    }
}

impl NodeLedger {
    /// Account for one probe of `node` and say what to report for it.
    pub fn settle(
        &mut self,
        node: u64,
        healthy: bool,
        inventory: Option<DeviceInventory>,
    ) -> (settled: Settled)
        ensures
            final(self)@ == old(self)@.insert(
                node,
                record_after(record_of(old(self)@, node), healthy, inventory_view(inventory)),
            ),
            inventory_view(settled.inventory) == reported(
                final(self)@[node],
                healthy,
                inventory_view(inventory),
            ),
            settled.evict_channel == (!healthy && final(self)@[node].failures >= EVICT_AFTER),
    {
        let (last_good, failures) = match self.nodes.remove(&node) {
            Some(record) => (record.last_good, record.failures),
            None => (None, 0u8),
        };
        let ghost before = record_of(old(self)@, node);
        assert(before.last_good == inventory_view(last_good) && before.failures == failures);
        let (record, settled) = if healthy {
            let copy = match &inventory {
                Some(inventory) => Some(inventory.clone()),
                None => None,
            };
            (
                NodeRecord { last_good: copy, failures: 0 },
                Settled { inventory, evict_channel: false },
            )
        } else {
            let failures: u8 = if failures == u8::MAX {
                u8::MAX
            } else {
                failures + 1
            };
            let last_good = if failures <= REPLAY_GRACE {
                last_good
            } else {
                None
            };
            let report = match &last_good {
                Some(last_good) => Some(last_good.clone()),
                None => inventory,
            };
            (
                NodeRecord { last_good, failures },
                Settled { inventory: report, evict_channel: failures >= EVICT_AFTER },
            )
        };
        self.nodes.insert(node, record);
        assert(self@ =~= old(self)@.insert(node, record@));
        settled
    }

    /// Forget every node that is not in `seen`.
    pub fn retain_nodes(&mut self, seen: &HashSet<u64>)
        ensures
            final(self)@ == old(self)@.restrict(seen@),
    {
        let absent = absent_nodes(&self.nodes, seen);
        for i in 0..absent.len()
            invariant
                forall|node: u64| #[trigger]
                    absent@.contains(node) <==> old(self).nodes@.contains_key(node)
                        && !seen@.contains(node),
                forall|node: u64| #[trigger]
                    self.nodes@.contains_key(node) <==> old(self).nodes@.contains_key(node)
                        && !absent@.take(i as int).contains(node),
                forall|node: u64|
                    self.nodes@.contains_key(node) ==> #[trigger] self.nodes@[node]
                        == old(self).nodes@[node],
        {
            self.nodes.remove(&absent[i]);
            proof {
                lemma_take_contains(absent@, i as int);
            }
        }
        assert(absent@.take(absent@.len() as int) =~= absent@);
        assert(self@ =~= old(self)@.restrict(seen@));
    }
}

/// The record after `n` more failed probes that read nothing.
pub open spec fn failed_times(
    record: RecordView,
    n: nat,
) -> RecordView
    decreases n,
{
    if n == 0 {
        record
    } else {
        record_after(failed_times(record, (n - 1) as nat), false, None)
    }
}

/// With a good inventory on record and no failures since, failed probe number
/// `n` replays that inventory exactly while `n` is within [`REPLAY_GRACE`].
pub proof fn lemma_replay_is_bounded(good: InventoryView, n: nat)
    requires
        1 <= n <= u8::MAX,
    ensures
        ({
            let healthy = record_after(blank_record(), true, Some(good));
            let after = failed_times(healthy, n);
            &&& after.failures == n
            &&& reported(after, false, None) == if n <= REPLAY_GRACE {
                Some(good)
            } else {
                None
            }
        }),
    decreases n,
{
    if n > 1 {
        lemma_replay_is_bounded(good, (n - 1) as nat);
    } else {
        assert(failed_times(record_after(blank_record(), true, Some(good)), 0) == record_after(
            blank_record(),
            true,
            Some(good),
        ));
    }
}

/// A healthy probe is authoritative whatever came before it: what it read is
/// reported and remembered, and the failures are forgotten.
pub proof fn lemma_healthy_probe_starts_over(before: RecordView, inventory: Option<InventoryView>)
    ensures
        record_after(before, true, inventory) == (RecordView { last_good: inventory, failures: 0 }),
        reported(record_after(before, true, inventory), true, inventory) == inventory,
{
}

} // verus!
