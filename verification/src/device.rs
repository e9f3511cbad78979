//! What an inventory pass reports about receivers and the devices behind them.

use vstd::prelude::*;

verus! {

/// Broad class of a device, as its pairing register or feature table names it.
#[derive(Debug, Clone, Copy, PartialEq, Eq, Structural)]
pub enum DeviceKind {
    Mouse,
    Keyboard,
    Numpad,
    Presenter,
    Remote,
    Trackball,
    Touchpad,
    Headset,
    Unknown,
}

/// Coarse battery level.
#[derive(Debug, Clone, Copy, PartialEq, Eq, Structural)]
pub enum BatteryLevel {
    Critical,
    Low,
    Good,
    Full,
}

/// Whether the battery is being drained or filled.
#[derive(Debug, Clone, Copy, PartialEq, Eq, Structural)]
pub enum BatteryStatus {
    Discharging,
    Charging,
    Full,
    Error,
}

/// One live battery reading.
#[derive(Debug, Clone, Copy, PartialEq, Eq, Structural)]
pub struct BatteryInfo {
    pub percentage: u8,
    pub level: BatteryLevel,
    pub status: BatteryStatus,
}

/// Links a device can be reached over.
#[derive(Debug, Clone, Copy, PartialEq, Eq, Structural)]
pub struct DeviceTransports {
    pub bluetooth: bool,
    pub btle: bool,
    pub equad: bool,
    pub usb: bool,
}

impl Default for DeviceTransports {
    fn default() -> (transports: Self)
        ensures
            !transports.bluetooth,
            !transports.btle,
            !transports.equad,
            !transports.usb,
    {
        DeviceTransports { bluetooth: false, btle: false, equad: false, usb: false }
    }
}

/// Controls a device supports, one bit per control.
#[derive(Debug, Clone, Copy, PartialEq, Eq, Structural)]
pub struct Capabilities {
    pub bits: u64,
}

/// Immutable identity a device reports about itself.
#[derive(Debug, PartialEq, Eq)]
pub struct DeviceModelInfo {
    pub entity_count: u8,
    pub serial_number: Option<String>,
    pub unit_id: [u8; 4],
    pub transports: DeviceTransports,
    pub model_ids: [u16; 3],
    pub extended_model_id: u8,
}

/// A copy of an optional string.
pub fn clone_text(text: &Option<String>) -> (copy: Option<String>)
    ensures
        copy == *text,
{
    match text {
        Some(text) => Some(text.clone()),
        None => None,
    }
}

/// What an optional string spells.
pub open spec fn text_view(text: Option<String>) -> Option<Seq<char>> {
    match text {
        Some(text) => Some(text@),
        None => None,
    }
}

/// Whether two optional strings spell the same.
pub fn same_text(a: &Option<String>, b: &Option<String>) -> (same: bool)
    ensures
        same == (text_view(*a) == text_view(*b)),
{
    match (a, b) {
        (Some(a), Some(b)) => *a == *b,
        (None, None) => true,
        _ => false,
    }
}

impl Clone for DeviceModelInfo {
    fn clone(&self) -> (copy: Self)
        ensures
            copy == *self,
    {
        DeviceModelInfo {
            entity_count: self.entity_count,
            serial_number: clone_text(&self.serial_number),
            unit_id: self.unit_id,
            transports: self.transports,
            model_ids: self.model_ids,
            extended_model_id: self.extended_model_id,
        }
    }
}

/// The value of a model record, with its strings spelled out.
pub struct ModelView {
    pub entity_count: u8,
    pub serial_number: Option<Seq<char>>,
    pub unit_id: Seq<u8>,
    pub transports: DeviceTransports,
    pub model_ids: Seq<u16>,
    pub extended_model_id: u8,
}

impl View for DeviceModelInfo {
    type V = ModelView;

    open spec fn view(&self) -> ModelView {
        ModelView {
            entity_count: self.entity_count,
            serial_number: text_view(self.serial_number),
            unit_id: self.unit_id@,
            transports: self.transports,
            model_ids: self.model_ids@,
            extended_model_id: self.extended_model_id,
        }
    }
}

impl DeviceModelInfo {
    /// Whether two model records describe the same device.
    pub fn same(&self, other: &DeviceModelInfo) -> (same: bool)
        ensures
            same == (self@ == other@),
    {
        let same = self.entity_count == other.entity_count
            && same_text(&self.serial_number, &other.serial_number)
            && self.unit_id[0] == other.unit_id[0] && self.unit_id[1] == other.unit_id[1]
            && self.unit_id[2] == other.unit_id[2] && self.unit_id[3] == other.unit_id[3]
            && self.transports == other.transports
            && self.model_ids[0] == other.model_ids[0] && self.model_ids[1] == other.model_ids[1]
            && self.model_ids[2] == other.model_ids[2]
            && self.extended_model_id == other.extended_model_id;
        proof {
            if same {
                assert(self@.unit_id =~= other@.unit_id);
                assert(self@.model_ids =~= other@.model_ids);
            }
        }
        same
    }
}

/// One device paired to a receiver, or reached directly.
#[derive(Debug, PartialEq, Eq)]
pub struct PairedDevice {
    pub slot: u8,
    pub codename: Option<String>,
    pub wpid: Option<u16>,
    pub kind: DeviceKind,
    pub online: bool,
    pub battery: Option<BatteryInfo>,
    pub model_info: Option<DeviceModelInfo>,
    pub capabilities: Option<Capabilities>,
}

/// The value of a paired device, with its strings spelled out.
pub struct PairedView {
    pub slot: u8,
    pub codename: Option<Seq<char>>,
    pub wpid: Option<u16>,
    pub kind: DeviceKind,
    pub online: bool,
    pub battery: Option<BatteryInfo>,
    pub model_info: Option<ModelView>,
    pub capabilities: Option<Capabilities>,
}

/// The value of an optional model record.
pub open spec fn model_view(model: Option<DeviceModelInfo>) -> Option<ModelView> {
    match model {
        Some(model) => Some(model@),
        None => None,
    }
}

/// A copy of an optional model record.
pub fn clone_model(model: &Option<DeviceModelInfo>) -> (copy: Option<DeviceModelInfo>)
    ensures
        copy == *model,
{
    match model {
        Some(model) => Some(model.clone()),
        None => None,
    }
}

/// Whether two optional model records have the same value.
pub fn same_model(a: &Option<DeviceModelInfo>, b: &Option<DeviceModelInfo>) -> (same: bool)
    ensures
        same == (model_view(*a) == model_view(*b)),
{
    match (a, b) {
        (Some(a), Some(b)) => a.same(b),
        (None, None) => true,
        _ => false,
    }
}

impl View for PairedDevice {
    type V = PairedView;

    open spec fn view(&self) -> PairedView {
        PairedView {
            slot: self.slot,
            codename: text_view(self.codename),
            wpid: self.wpid,
            kind: self.kind,
            online: self.online,
            battery: self.battery,
            model_info: model_view(self.model_info),
            capabilities: self.capabilities,
        }
    }
}

impl Clone for PairedDevice {
    fn clone(&self) -> (copy: Self)
        ensures
            copy == *self,
    {
        PairedDevice {
            slot: self.slot,
            codename: clone_text(&self.codename),
            wpid: self.wpid,
            kind: self.kind,
            online: self.online,
            battery: self.battery,
            model_info: clone_model(&self.model_info),
            capabilities: self.capabilities,
        }
    }
}

impl PairedDevice {
    /// Whether two paired-device records have the same value.
    pub fn same(&self, other: &PairedDevice) -> (same: bool)
        ensures
            same == (self@ == other@),
    {
        self.slot == other.slot && same_text(&self.codename, &other.codename) && self.wpid
            == other.wpid && self.kind == other.kind && self.online == other.online && self.battery
            == other.battery && same_model(&self.model_info, &other.model_info)
            && self.capabilities == other.capabilities
    }
}

/// The receiver (or, for a direct device, the device itself) an inventory was
/// read from.
#[derive(Debug, PartialEq, Eq)]
pub struct ReceiverInfo {
    pub name: String,
    pub vendor_id: u16,
    pub product_id: u16,
    pub unique_id: Option<String>,
}

/// The value of a receiver record, with its strings spelled out.
pub struct ReceiverView {
    pub name: Seq<char>,
    pub vendor_id: u16,
    pub product_id: u16,
    pub unique_id: Option<Seq<char>>,
}

impl View for ReceiverInfo {
    type V = ReceiverView;

    open spec fn view(&self) -> ReceiverView {
        ReceiverView {
            name: self.name@,
            vendor_id: self.vendor_id,
            product_id: self.product_id,
            unique_id: text_view(self.unique_id),
        }
    }
}

impl Clone for ReceiverInfo {
    fn clone(&self) -> (copy: Self)
        ensures
            copy == *self,
    {
        ReceiverInfo {
            name: self.name.clone(),
            vendor_id: self.vendor_id,
            product_id: self.product_id,
            unique_id: clone_text(&self.unique_id),
        }
    }
}

impl ReceiverInfo {
    /// Whether two receiver records have the same value.
    pub fn same(&self, other: &ReceiverInfo) -> (same: bool)
        ensures
            same == (self@ == other@),
    {
        self.name == other.name && self.vendor_id == other.vendor_id && self.product_id
            == other.product_id && same_text(&self.unique_id, &other.unique_id)
    }
}

/// One receiver and the devices paired to it.
#[derive(Debug, PartialEq, Eq)]
pub struct DeviceInventory {
    pub receiver: ReceiverInfo,
    pub paired: Vec<PairedDevice>,
}

/// The value of an inventory: the receiver and the paired devices in order.
#[verifier::ext_equal]
pub struct InventoryView {
    pub receiver: ReceiverView,
    pub paired: Seq<PairedView>,
}

impl View for DeviceInventory {
    type V = InventoryView;

    open spec fn view(&self) -> InventoryView {
        InventoryView {
            receiver: self.receiver@,
            paired: self.paired@.map_values(|device: PairedDevice| device@),
        }
    }
}

impl Clone for DeviceInventory {
    fn clone(&self) -> (copy: Self)
        ensures
            copy@ == self@,
    {
        let mut paired: Vec<PairedDevice> = Vec::new();
        for i in 0..self.paired.len()
            invariant
                paired@ == self.paired@.take(i as int),
        {
            paired.push(self.paired[i].clone());
            assert(self.paired@.take(i + 1) =~= self.paired@.take(i as int).push(
                self.paired@[i as int],
            ));
        }
        assert(paired@ =~= self.paired@);
        DeviceInventory { receiver: self.receiver.clone(), paired }
    }
}

impl DeviceInventory {
    /// Whether two inventories have the same value.
    pub fn same(&self, other: &DeviceInventory) -> (same: bool)
        ensures
            same == (self@ == other@),
    {
        if !self.receiver.same(&other.receiver) || self.paired.len() != other.paired.len() {
            assert(self@.paired.len() != other@.paired.len() || self@.receiver != other@.receiver);
            return false;
        }
        for i in 0..self.paired.len()
            invariant
                self.paired@.len() == other.paired@.len(),
                forall|k: int| 0 <= k < i ==> (#[trigger] self.paired@[k])@ == other.paired@[k]@,
        {
            if !self.paired[i].same(&other.paired[i]) {
                assert(self@.paired[i as int] != other@.paired[i as int]);
                return false;
            }
        }
        assert(self@.paired =~= other@.paired);
        true
    }
}

/// The values of a list of inventories.
pub open spec fn inventories_view(inventories: Seq<DeviceInventory>) -> Seq<InventoryView> {
    inventories.map_values(|inventory: DeviceInventory| inventory@)
}

/// The value of an optional inventory.
pub open spec fn inventory_view(inventory: Option<DeviceInventory>) -> Option<InventoryView> {
    match inventory {
        Some(inventory) => Some(inventory@),
        None => None,
    }
}

/// Whether two lists of inventories have the same values in the same order.
pub fn same_inventories(a: &[DeviceInventory], b: &[DeviceInventory]) -> (same: bool)
    ensures
        same == (inventories_view(a@) == inventories_view(b@)),
{
    if a.len() != b.len() {
        assert(inventories_view(a@).len() != inventories_view(b@).len());
        return false;
    }
    for i in 0..a.len()
        invariant
            a@.len() == b@.len(),
            forall|k: int| 0 <= k < i ==> (#[trigger] a@[k])@ == b@[k]@,
    {
        if !a[i].same(&b[i]) {
            assert(inventories_view(a@)[i as int] != inventories_view(b@)[i as int]);
            return false;
        }
    }
    assert(inventories_view(a@) =~= inventories_view(b@));
    true
}

/// The value of a model record tells everything about it.
pub proof fn lemma_model_value_is_whole(a: DeviceModelInfo, b: DeviceModelInfo)
    requires
        a@ == b@,
    ensures
        a.entity_count == b.entity_count,
        a.serial_number is Some == b.serial_number is Some,
        a.serial_number is Some ==> a.serial_number->0@ == b.serial_number->0@,
        a.unit_id@ == b.unit_id@,
        a.transports == b.transports,
        a.model_ids@ == b.model_ids@,
        a.extended_model_id == b.extended_model_id,
{
}

/// The value of a paired device tells everything about it.
pub proof fn lemma_device_value_is_whole(a: PairedDevice, b: PairedDevice)
    requires
        a@ == b@,
    ensures
        a.slot == b.slot,
        a.codename is Some == b.codename is Some,
        a.codename is Some ==> a.codename->0@ == b.codename->0@,
        a.wpid == b.wpid,
        a.kind == b.kind,
        a.online == b.online,
        a.battery == b.battery,
        a.model_info is Some == b.model_info is Some,
        a.model_info is Some ==> a.model_info->0@ == b.model_info->0@,
        a.capabilities == b.capabilities,
{
}

/// The value of an inventory tells everything about the receiver and every
/// paired device, in order.
pub proof fn lemma_inventory_value_is_whole(a: DeviceInventory, b: DeviceInventory)
    requires
        a@ == b@,
    ensures
        a.receiver.name@ == b.receiver.name@,
        a.receiver.vendor_id == b.receiver.vendor_id,
        a.receiver.product_id == b.receiver.product_id,
        a.receiver.unique_id is Some == b.receiver.unique_id is Some,
        a.receiver.unique_id is Some ==> a.receiver.unique_id->0@ == b.receiver.unique_id->0@,
        a.paired@.len() == b.paired@.len(),
        forall|i: int|
            0 <= i < a.paired@.len() ==> (#[trigger] a.paired@[i])@ == b.paired@[i]@,
{
    assert(a@.paired.len() == a.paired@.len());
    assert(b@.paired.len() == b.paired@.len());
    assert forall|i: int| 0 <= i < a.paired@.len() implies (#[trigger] a.paired@[i])@
        == b.paired@[i]@ by {
        assert(a@.paired[i] == a.paired@[i]@);
        assert(b@.paired[i] == b.paired@[i]@);
    }
}

/// Lists of inventories with the same values are as long and, place by place,
/// the same.
pub proof fn lemma_inventories_are_told_apart(a: Seq<DeviceInventory>, b: Seq<DeviceInventory>)
    ensures
        inventories_view(a).len() == a.len(),
        inventories_view(a) == inventories_view(b) <==> a.len() == b.len() && forall|i: int|
            0 <= i < a.len() ==> (#[trigger] a[i])@ == b[i]@,
{
    if inventories_view(a) == inventories_view(b) {
        assert(inventories_view(a).len() == inventories_view(b).len());
        assert forall|i: int| 0 <= i < a.len() implies (#[trigger] a[i])@ == b[i]@ by {
            assert(inventories_view(a)[i] == a[i]@);
            assert(inventories_view(b)[i] == b[i]@);
        }
    } else if a.len() == b.len() && forall|i: int|
        0 <= i < a.len() ==> (#[trigger] a[i])@ == b[i]@ {
        assert forall|i: int| 0 <= i < a.len() implies inventories_view(a)[i]
            == inventories_view(b)[i] by {
            assert(a[i]@ == b[i]@);
        }
        assert(inventories_view(a) =~= inventories_view(b));
    }
}

} // verus!
