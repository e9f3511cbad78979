//! What one probe of a HID node reads, and how partial reads are completed.

use crate::device::{
    clone_model, clone_text, BatteryInfo, Capabilities, DeviceInventory, DeviceKind, DeviceModelInfo,
    PairedDevice, ReceiverInfo,
};
use crate::route::is_receiver_pid;
use vstd::prelude::*;
use vstd::slice::slice_subrange;
use vstd::utf8::{decode_utf8, valid_utf8};

verus! {

/// Ticks after which a cached probe is read anew.
pub const REFRESH_TICKS: u64 = 150;

/// Upper bound on probing one directly attached HID node, in nanoseconds.
pub const PROBE_BUDGET: u64 = 25_000_000_000;

/// Upper bound on probing one receiver node, in nanoseconds.
pub const RECEIVER_PROBE_BUDGET: u64 = 13_000_000_000;

/// How long a receiver is given to report the devices that arrive, in
/// nanoseconds.
pub const ARRIVAL_DRAIN: u64 = 1_500_000_000;

/// Pairing slots of a Bolt receiver.
pub const MAX_BOLT_SLOTS: u8 = 6;

/// Upper bound on the feature walk of one Bolt slot, in nanoseconds.
pub const BOLT_SLOT_PROBE: u64 = 10_000_000_000;

/// Upper bound on the feature walk of one Unifying slot, in nanoseconds.
pub const UNIFYING_SLOT_PROBE: u64 = 3_500_000_000;

/// Slots are walked at the same time, so a receiver that answers at all is done
/// within its budget: the arrivals and the slowest slot fit into it.
pub proof fn lemma_receiver_budget_fits_the_slowest_slot()
    ensures
        ARRIVAL_DRAIN + BOLT_SLOT_PROBE < RECEIVER_PROBE_BUDGET,
        ARRIVAL_DRAIN + UNIFYING_SLOT_PROBE < RECEIVER_PROBE_BUDGET,
        RECEIVER_PROBE_BUDGET < PROBE_BUDGET,
{
}

/// The time a probe of a node with this product id may take: receivers answer
/// register reads over local USB, only directly attached devices need the long
/// feature walk.
pub fn probe_budget(product_id: u16) -> (budget: u64)
    ensures
        budget == if is_receiver_pid(product_id) {
            RECEIVER_PROBE_BUDGET
        } else {
            PROBE_BUDGET
        },
{
    if is_receiver_pid(product_id) {
        RECEIVER_PROBE_BUDGET
    } else {
        PROBE_BUDGET
    }
}

/// The feature a battery reading comes from, by feature index.
#[derive(Debug, Clone, Copy, PartialEq, Eq, Structural)]
pub enum BatteryProbe {
    Unified(u8),
    Status(u8),
}

/// What a feature walk read of one device.
#[derive(Debug, PartialEq, Eq)]
pub struct ProbedFeatures {
    pub model_info: Option<DeviceModelInfo>,
    /// Whether a read of the identity failed, so that `model_info` is partial.
    pub identity_incomplete: bool,
    pub kind: Option<DeviceKind>,
    pub battery: Option<BatteryInfo>,
    pub capabilities: Option<Capabilities>,
}

impl Default for ProbedFeatures {
    fn default() -> (features: Self)
        ensures
            features == (ProbedFeatures {
                model_info: None,
                identity_incomplete: false,
                kind: None,
                battery: None,
                capabilities: None,
            }),
    {
        ProbedFeatures {
            model_info: None,
            identity_incomplete: false,
            kind: None,
            battery: None,
            capabilities: None,
        }
    }
}

impl Clone for ProbedFeatures {
    fn clone(&self) -> (copy: Self)
        ensures
            copy == *self,
    {
        ProbedFeatures {
            model_info: clone_model(&self.model_info),
            identity_incomplete: self.identity_incomplete,
            kind: self.kind,
            battery: self.battery,
            capabilities: self.capabilities,
        }
    }
}

/// A device's probe, kept for reuse.
#[derive(Debug, PartialEq, Eq)]
pub struct Cached {
    pub probe: ProbedFeatures,
    pub battery: Option<BatteryProbe>,
    pub probed_tick: u64,
}

impl Clone for Cached {
    fn clone(&self) -> (copy: Self)
        ensures
            copy == *self,
    {
        Cached {
            probe: self.probe.clone(),
            battery: self.battery,
            probed_tick: self.probed_tick,
        }
    }
}

/// Whether a cached probe is due for a fresh read at `tick`. Ticks count in
/// wrapping arithmetic.
pub fn is_stale(cached: &Cached, tick: u64) -> (stale: bool)
    ensures
        stale == ((tick - cached.probed_tick) % 0x1_0000_0000_0000_0000 >= REFRESH_TICKS),
{
    tick.wrapping_sub(cached.probed_tick) >= REFRESH_TICKS
}

/// The identity that a probe has after the gaps of an incomplete read were
/// filled from an earlier probe of the same device: a missing record is taken
/// whole, a missing serial alone, and what was read is never overwritten.
pub open spec fn backfilled_model(
    fresh: ProbedFeatures,
    cached: ProbedFeatures,
) -> Option<DeviceModelInfo> {
    if !fresh.identity_incomplete {
        fresh.model_info
    } else {
        match (fresh.model_info, cached.model_info) {
            (None, earlier) => earlier,
            (Some(read), None) => Some(read),
            (Some(read), Some(earlier)) => if read.serial_number is None {
                Some(DeviceModelInfo { serial_number: earlier.serial_number, ..read })
            } else {
                Some(read)
            },
        }
    }
}

/// Whether an incomplete identity gained what it lacked.
pub open spec fn backfill_completes(fresh: ProbedFeatures, cached: ProbedFeatures) -> bool {
    match (fresh.model_info, cached.model_info) {
        (None, Some(_)) => true,
        (Some(read), Some(earlier)) => read.serial_number is None && earlier.serial_number is Some,
        _ => false,
    }
}

/// Complete an incomplete identity, and a device kind that was not read, from
/// an earlier probe of the same device.
pub fn backfill_identity(fresh: &mut ProbedFeatures, cached: &ProbedFeatures)
    ensures
        *final(fresh) == (ProbedFeatures {
            model_info: backfilled_model(*old(fresh), *cached),
            identity_incomplete: old(fresh).identity_incomplete && !backfill_completes(
                *old(fresh),
                *cached,
            ),
            kind: if old(fresh).kind is Some {
                old(fresh).kind
            } else {
                cached.kind
            },
            ..*old(fresh)
        }),
{
    if fresh.kind.is_none() {
        fresh.kind = cached.kind;
    }
    if !fresh.identity_incomplete {
        return ;
    }
    match &cached.model_info {
        None => {},
        Some(earlier) => {
            match fresh.model_info.take() {
                None => {
                    fresh.model_info = Some(earlier.clone());
                    fresh.identity_incomplete = false;
                },
                Some(read) => {
                    if read.serial_number.is_none() {
                        if earlier.serial_number.is_some() {
                            fresh.identity_incomplete = false;
                        }
                        fresh.model_info = Some(
                            DeviceModelInfo {
                                entity_count: read.entity_count,
                                serial_number: clone_text(&earlier.serial_number),
                                unit_id: read.unit_id,
                                transports: read.transports,
                                model_ids: read.model_ids,
                                extended_model_id: read.extended_model_id,
                            },
                        );
                    } else {
                        fresh.model_info = Some(read);
                    }
                },
            }
        },
    }
}

/// A complete probe is left as it was read: the cache supplies a device kind
/// that was not read, and nothing else.
pub proof fn lemma_complete_probe_keeps_its_identity(fresh: ProbedFeatures, cached: ProbedFeatures)
    requires
        !fresh.identity_incomplete,
    ensures
        backfilled_model(fresh, cached) == fresh.model_info,
{
}

/// Whatever was read of an identity survives the backfill: only a serial
/// number that was not read can change.
pub proof fn lemma_backfill_keeps_what_was_read(
    fresh: ProbedFeatures,
    cached: ProbedFeatures,
    read: DeviceModelInfo,
)
    requires
        fresh.model_info == Some(read),
    ensures
        backfilled_model(fresh, cached) matches Some(result) && {
            &&& result == DeviceModelInfo { serial_number: result.serial_number, ..read }
            &&& read.serial_number is Some ==> result == read
        },
{
}

/// Key under which a device's probe is cached.
#[derive(Debug, PartialEq, Eq)]
pub enum CacheKey {
    /// A Bolt device, by the unit id its pairing register holds.
    Bolt { unit_id: [u8; 4] },
    /// A pairing slot of a receiver that speaks the Unifying protocol.
    UnifyingSlot { receiver_uid: String, slot: u8 },
    /// A directly attached node.
    Direct { node: u64 },
}

/// The value of a cache key.
pub enum KeyView {
    Bolt { unit_id: Seq<u8> },
    UnifyingSlot { receiver_uid: Seq<char>, slot: u8 },
    Direct { node: u64 },
}

impl View for CacheKey {
    type V = KeyView;

    open spec fn view(&self) -> KeyView {
        match self {
            CacheKey::Bolt { unit_id } => KeyView::Bolt { unit_id: unit_id@ },
            CacheKey::UnifyingSlot { receiver_uid, slot } => KeyView::UnifyingSlot {
                receiver_uid: receiver_uid@,
                slot: *slot,
            },
            CacheKey::Direct { node } => KeyView::Direct { node: *node },
        }
    }
}

impl Clone for CacheKey {
    fn clone(&self) -> (copy: Self)
        ensures
            copy == *self,
    {
        match self {
            CacheKey::Bolt { unit_id } => CacheKey::Bolt { unit_id: *unit_id },
            CacheKey::UnifyingSlot { receiver_uid, slot } => CacheKey::UnifyingSlot {
                receiver_uid: receiver_uid.clone(),
                slot: *slot,
            },
            CacheKey::Direct { node } => CacheKey::Direct { node: *node },
        }
    }
}

/// Whether a probe under this key is worth keeping on disk: a unit id names one
/// physical device, while a slot may be paired anew and a node number is only
/// good for one run.
pub open spec fn persistable(key: KeyView) -> bool {
    key is Bolt
}

impl CacheKey {
    /// Whether two keys are the same.
    pub fn same(&self, other: &CacheKey) -> (same: bool)
        ensures
            same == (self@ == other@),
    {
        match (self, other) {
            (CacheKey::Bolt { unit_id: a }, CacheKey::Bolt { unit_id: b }) => {
                let same = a[0] == b[0] && a[1] == b[1] && a[2] == b[2] && a[3] == b[3];
                assert(same ==> a@ =~= b@);
                same
            },
            (
                CacheKey::UnifyingSlot { receiver_uid: a, slot: i },
                CacheKey::UnifyingSlot { receiver_uid: b, slot: j },
            ) => *a == *b && *i == *j,
            (CacheKey::Direct { node: a }, CacheKey::Direct { node: b }) => *a == *b,
            _ => false,
        }
    }

    /// Whether a probe under this key is kept on disk.
    pub fn is_persistable(&self) -> (keep: bool)
        ensures
            keep == persistable(self@),
    {
        match self {
            CacheKey::Bolt { .. } => true,
            _ => false,
        }
    }
}

/// What one device's probe means for the cache.
#[derive(Debug)]
pub enum CacheOutcome {
    /// A completed full probe.
    Fresh(CacheKey, Cached),
    /// A cached probe whose volatile part was read anew.
    Update(CacheKey, Cached),
    /// The device is there, with nothing new to remember.
    Seen(CacheKey),
    /// The device cannot be told from others.
    Unkeyed,
}

/// The result of probing one HID node.
#[derive(Debug)]
pub struct NodeProbe {
    pub inventory: Option<DeviceInventory>,
    /// Whether the walk saw everything there is to see.
    pub complete: bool,
    /// Whether the node answered well enough to be believed.
    pub healthy: bool,
    pub outcomes: Vec<CacheOutcome>,
}

impl NodeProbe {
    /// A probe that could not be carried out: "couldn't check", not "nothing
    /// there".
    pub fn failed() -> (probe: NodeProbe)
        ensures
            probe.inventory is None,
            !probe.complete,
            !probe.healthy,
            probe.outcomes@ == Seq::<CacheOutcome>::empty(),
    {
        NodeProbe { inventory: None, complete: false, healthy: false, outcomes: Vec::new() }
    }
}

/// Put a Bolt receiver's slot walk together. The walk is complete, and may
/// replace the last good inventory, exactly when the pairing-count register
/// answered and agrees with the number of readable slots.
pub fn assemble_bolt_probe(
    receiver: ReceiverInfo,
    pairing_count: Option<u8>,
    slots: Vec<(PairedDevice, CacheOutcome)>,
) -> (probe: NodeProbe)
    ensures
        probe.complete == (pairing_count matches Some(count) && count == slots@.len()),
        probe.healthy == probe.complete,
        probe.inventory matches Some(inventory) && {
            &&& inventory.receiver == receiver
            &&& inventory.paired@ == slots@.map_values(
                |slot: (PairedDevice, CacheOutcome)| slot.0,
            )
        },
        probe.outcomes@ == slots@.map_values(|slot: (PairedDevice, CacheOutcome)| slot.1),
{
    let ghost all = slots@;
    let complete = match pairing_count {
        Some(count) => count as usize == slots.len(),
        None => false,
    };
    let mut slots = slots;
    let mut paired: Vec<PairedDevice> = Vec::new();
    let mut outcomes: Vec<CacheOutcome> = Vec::new();
    while slots.len() > 0
        invariant
            paired@.len() == outcomes@.len(),
            paired@.len() + slots@.len() == all.len(),
            slots@ == all.skip(paired@.len() as int),
            forall|i: int| 0 <= i < paired@.len() ==> #[trigger] paired@[i] == all[i].0,
            forall|i: int| 0 <= i < outcomes@.len() ==> #[trigger] outcomes@[i] == all[i].1,
        decreases slots@.len(),
    {
        let (device, outcome) = slots.remove(0);
        paired.push(device);
        outcomes.push(outcome);
        assert(slots@ =~= all.skip(paired@.len() as int));
    }
    assert(paired@ =~= all.map_values(|slot: (PairedDevice, CacheOutcome)| slot.0));
    assert(outcomes@ =~= all.map_values(|slot: (PairedDevice, CacheOutcome)| slot.1));
    NodeProbe {
        inventory: Some(DeviceInventory { receiver, paired }),
        complete,
        healthy: complete,
        outcomes,
    }
}

/// `std::str::from_utf8`: the text that `bytes` encode in UTF-8, or nothing
/// where they are not valid UTF-8.
#[verifier::external_body]
fn utf8_text(bytes: &[u8]) -> (text: Option<&str>)
    ensures
        match text {
            Some(text) => valid_utf8(bytes@) && text@ == decode_utf8(bytes@),
            None => !valid_utf8(bytes@),
        },
{
    std::str::from_utf8(bytes).ok()
}

/// The name bytes of a codename register: a sub-register byte, a length byte,
/// then the name, of which no more is read than the answer holds.
pub open spec fn codename_bytes(response: Seq<u8>) -> Option<Seq<u8>> {
    if response.len() < 2 {
        None
    } else if 2 + response[1] <= response.len() {
        Some(response.subrange(2, 2 + response[1]))
    } else {
        Some(response.subrange(2, response.len() as int))
    }
}

/// The device name in the answer of a Unifying receiver's codename register.
pub fn parse_codename_unifying(response: &[u8]) -> (codename: Option<String>)
    ensures
        match codename_bytes(response@) {
            None => codename is None,
            Some(bytes) => match codename {
                Some(name) => valid_utf8(bytes) && name@ == decode_utf8(bytes),
                None => !valid_utf8(bytes),
            },
        },
{
    if response.len() < 2 {
        return None;
    }
    let length = response[1] as usize;
    let end: usize = if length <= response.len() - 2 {
        2 + length
    } else {
        response.len()
    };
    match utf8_text(slice_subrange(response, 2, end)) {
        Some(name) => Some(name.to_owned()),
        None => None,
    }
}

/// The name of a directly attached device: its own marketing name where it
/// gave one, else what the OS calls it.
pub fn preferred_direct_codename(marketing_name: Option<&str>, os_name: &str) -> (codename: String)
    ensures
        codename@ == match marketing_name {
            Some(name) => name@,
            None => os_name@,
        },
{
    match marketing_name {
        Some(name) => name.to_owned(),
        None => os_name.to_owned(),
    }
}

/// An identity that could not be read in full is completed from the earlier
/// probe: a record that is missing is taken whole, and a serial number that is
/// missing from one that was read.
pub proof fn lemma_backfill_fills_what_is_missing(
    fresh: ProbedFeatures,
    cached: ProbedFeatures,
    earlier: DeviceModelInfo,
)
    requires
        fresh.identity_incomplete,
        cached.model_info == Some(earlier),
    ensures
        fresh.model_info is None ==> backfilled_model(fresh, cached) == Some(earlier)
            && backfill_completes(fresh, cached),
        fresh.model_info matches Some(read) ==> (backfilled_model(fresh, cached) matches Some(
            result,
        ) && {
            &&& read.serial_number is None ==> result.serial_number == earlier.serial_number
            &&& read.serial_number is Some ==> result.serial_number == read.serial_number
            &&& backfill_completes(fresh, cached) <==> read.serial_number is None
                && earlier.serial_number is Some
        }),
{
}

/// Without an earlier identity there is nothing to complete one from.
pub proof fn lemma_nothing_is_made_up(fresh: ProbedFeatures, cached: ProbedFeatures)
    requires
        cached.model_info is None,
    ensures
        backfilled_model(fresh, cached) == fresh.model_info,
        !backfill_completes(fresh, cached),
{
}

/// The name in a codename answer is as long as the answer says, or as long as
/// the answer is, and is taken byte for byte from where it starts.
pub proof fn lemma_codename_is_taken_byte_for_byte(response: Seq<u8>)
    ensures
        codename_bytes(response) is None <==> response.len() < 2,
        codename_bytes(response) matches Some(bytes) ==> {
            &&& bytes.len() <= response[1]
            &&& bytes.len() <= response.len() - 2
            &&& bytes.len() == response[1] || bytes.len() == response.len() - 2
            &&& forall|i: int| 0 <= i < bytes.len() ==> #[trigger] bytes[i] == response[i + 2]
        },
{
}

/// A key's value tells everything about it.
pub proof fn lemma_key_value_is_whole(a: CacheKey, b: CacheKey)
    requires
        a@ == b@,
    ensures
        match (a, b) {
            (CacheKey::Bolt { unit_id: a }, CacheKey::Bolt { unit_id: b }) => a@ == b@,
            (
                CacheKey::UnifyingSlot { receiver_uid: a, slot: i },
                CacheKey::UnifyingSlot { receiver_uid: b, slot: j },
            ) => a@ == b@ && i == j,
            (CacheKey::Direct { node: a }, CacheKey::Direct { node: b }) => a == b,
            _ => false,
        },
{
}

} // verus!
