//! How a device is addressed: through a receiver's pairing slot, or directly.

use crate::device::{inventories_view, DeviceInventory, InventoryView};
use vstd::prelude::*;

verus! {

/// Device index that addresses a directly attached device.
pub const DIRECT_DEVICE_INDEX: u8 = 0xff;

/// Product id of the Bolt receiver.
pub const BOLT_PID: u16 = 0xc548;

/// Product ids of the Unifying receivers.
pub const UNIFYING_PID: u16 = 0xc52b;

pub const UNIFYING_PID_SMALL: u16 = 0xc532;

/// First and last product id of the Lightspeed receivers.
pub const LIGHTSPEED_PID_FIRST: u16 = 0xc539;

pub const LIGHTSPEED_PID_LAST: u16 = 0xc547;

/// Whether `product_id` is a Bolt receiver.
#[verifier::allow_in_spec]
pub fn is_bolt_pid(product_id: u16) -> bool
    returns
        product_id == BOLT_PID,
{
    product_id == BOLT_PID
}

/// Whether `product_id` is a receiver that speaks the Unifying register
/// protocol: the Unifying receivers and the Lightspeed dongles.
#[verifier::allow_in_spec]
pub fn speaks_unifying_protocol(product_id: u16) -> bool
    returns
        product_id == UNIFYING_PID || product_id == UNIFYING_PID_SMALL || (LIGHTSPEED_PID_FIRST
            <= product_id && product_id <= LIGHTSPEED_PID_LAST),
{
    product_id == UNIFYING_PID || product_id == UNIFYING_PID_SMALL || (LIGHTSPEED_PID_FIRST
        <= product_id && product_id <= LIGHTSPEED_PID_LAST)
}

/// Whether `product_id` is a receiver of any family.
#[verifier::allow_in_spec]
pub fn is_receiver_pid(product_id: u16) -> bool
    returns
        is_bolt_pid(product_id) || speaks_unifying_protocol(product_id),
{
    is_bolt_pid(product_id) || speaks_unifying_protocol(product_id)
}

/// The address of one device.
#[derive(Debug, PartialEq, Eq)]
pub enum DeviceRoute {
    /// A pairing slot of a Bolt receiver.
    Bolt { receiver_uid: String, slot: u8 },
    /// A pairing slot of a receiver that speaks the Unifying protocol.
    Unifying { receiver_uid: String, slot: u8 },
    /// A device attached by cable or Bluetooth.
    Direct { vendor_id: u16, product_id: u16 },
}

/// The value of a route, with its receiver id spelled out.
pub enum RouteView {
    Bolt { receiver_uid: Seq<char>, slot: u8 },
    Unifying { receiver_uid: Seq<char>, slot: u8 },
    Direct { vendor_id: u16, product_id: u16 },
}

impl View for DeviceRoute {
    type V = RouteView;

    open spec fn view(&self) -> RouteView {
        match self {
            DeviceRoute::Bolt { receiver_uid, slot } => RouteView::Bolt {
                receiver_uid: receiver_uid@,
                slot: *slot,
            },
            DeviceRoute::Unifying { receiver_uid, slot } => RouteView::Unifying {
                receiver_uid: receiver_uid@,
                slot: *slot,
            },
            DeviceRoute::Direct { vendor_id, product_id } => RouteView::Direct {
                vendor_id: *vendor_id,
                product_id: *product_id,
            },
        }
    }
}

impl Clone for DeviceRoute {
    fn clone(&self) -> (copy: Self)
        ensures
            copy == *self,
    {
        match self {
            DeviceRoute::Bolt { receiver_uid, slot } => DeviceRoute::Bolt {
                receiver_uid: receiver_uid.clone(),
                slot: *slot,
            },
            DeviceRoute::Unifying { receiver_uid, slot } => DeviceRoute::Unifying {
                receiver_uid: receiver_uid.clone(),
                slot: *slot,
            },
            DeviceRoute::Direct { vendor_id, product_id } => DeviceRoute::Direct {
                vendor_id: *vendor_id,
                product_id: *product_id,
            },
        }
    }
}

/// The route that reaches pairing slot `slot` of an inventory, where there is
/// one: a receiver is addressed by its unique id, so one that reported none has
/// no routes, and a device that is no receiver answers only at
/// [`DIRECT_DEVICE_INDEX`].
pub open spec fn route_view_for(inventory: InventoryView, slot: u8) -> Option<RouteView> {
    let pid = inventory.receiver.product_id;
    if is_receiver_pid(pid) {
        match inventory.receiver.unique_id {
            Some(receiver_uid) => if is_bolt_pid(pid) {
                Some(RouteView::Bolt { receiver_uid, slot })
            } else {
                Some(RouteView::Unifying { receiver_uid, slot })
            },
            None => None,
        }
    } else if slot == DIRECT_DEVICE_INDEX {
        Some(RouteView::Direct { vendor_id: inventory.receiver.vendor_id, product_id: pid })
    } else {
        None
    }
}

/// The value of an optional route.
pub open spec fn route_view(route: Option<DeviceRoute>) -> Option<RouteView> {
    match route {
        Some(route) => Some(route@),
        None => None,
    }
}

/// The HID++ device index that a route's requests are addressed to.
pub open spec fn route_index(route: RouteView) -> u8 {
    match route {
        RouteView::Bolt { slot, .. } => slot,
        RouteView::Unifying { slot, .. } => slot,
        RouteView::Direct { .. } => DIRECT_DEVICE_INDEX,
    }
}

/// A copy of an optional route.
pub fn clone_route(route: &Option<DeviceRoute>) -> (copy: Option<DeviceRoute>)
    ensures
        copy == *route,
{
    match route {
        Some(route) => Some(route.clone()),
        None => None,
    }
}

impl DeviceRoute {
    /// The route that reaches pairing slot `slot` of `inventory`.
    pub fn device_route_for(inventory: &DeviceInventory, slot: u8) -> (route: Option<DeviceRoute>)
        ensures
            route_view(route) == route_view_for(inventory@, slot),
    {
        let product_id = inventory.receiver.product_id;
        if is_receiver_pid(product_id) {
            match &inventory.receiver.unique_id {
                Some(uid) => if is_bolt_pid(product_id) {
                    Some(DeviceRoute::Bolt { receiver_uid: uid.clone(), slot })
                } else {
                    Some(DeviceRoute::Unifying { receiver_uid: uid.clone(), slot })
                },
                None => None,
            }
        } else if slot == DIRECT_DEVICE_INDEX {
            Some(DeviceRoute::Direct { vendor_id: inventory.receiver.vendor_id, product_id })
        } else {
            None
        }
    }

    /// The HID++ device index requests on this route are addressed to.
    pub fn device_index(&self) -> (index: u8)
        ensures
            index == route_index(self@),
    {
        match self {
            DeviceRoute::Bolt { slot, .. } => *slot,
            DeviceRoute::Unifying { slot, .. } => *slot,
            DeviceRoute::Direct { .. } => DIRECT_DEVICE_INDEX,
        }
    }

    /// Whether two routes address the same device.
    pub fn same(&self, other: &DeviceRoute) -> (same: bool)
        ensures
            same == (self@ == other@),
    {
        match (self, other) {
            (
                DeviceRoute::Bolt { receiver_uid: a, slot: i },
                DeviceRoute::Bolt { receiver_uid: b, slot: j },
            ) => *a == *b && *i == *j,
            (
                DeviceRoute::Unifying { receiver_uid: a, slot: i },
                DeviceRoute::Unifying { receiver_uid: b, slot: j },
            ) => *a == *b && *i == *j,
            (
                DeviceRoute::Direct { vendor_id: a, product_id: i },
                DeviceRoute::Direct { vendor_id: b, product_id: j },
            ) => *a == *b && *i == *j,
            _ => false,
        }
    }
}

/// The values of a list of routes.
pub open spec fn routes_view(routes: Seq<DeviceRoute>) -> Seq<RouteView> {
    routes.map_values(|route: DeviceRoute| route@)
}

/// The routes of the first `n` paired devices of an inventory, in order;
/// devices without a route are left out.
pub open spec fn routes_up_to(inventory: InventoryView, n: nat) -> Seq<RouteView>
    decreases n,
{
    if n == 0 {
        Seq::empty()
    } else {
        let before = routes_up_to(inventory, (n - 1) as nat);
        match route_view_for(inventory, inventory.paired[n - 1].slot) {
            Some(route) => before.push(route),
            None => before,
        }
    }
}

/// The routes of one inventory's paired devices, in order.
pub open spec fn inventory_routes(inventory: InventoryView) -> Seq<RouteView> {
    routes_up_to(inventory, inventory.paired.len())
}

/// The routes of several inventories, one inventory after the other.
pub open spec fn routes_of(inventories: Seq<InventoryView>) -> Seq<RouteView>
    decreases inventories.len(),
{
    if inventories.len() == 0 {
        Seq::empty()
    } else {
        routes_of(inventories.drop_last()) + inventory_routes(inventories.last())
    }
}

/// The routes that reach every addressable device of `inventories`.
pub fn routes_for_inventories(inventories: &[DeviceInventory]) -> (routes: Vec<DeviceRoute>)
    ensures
        routes_view(routes@) == routes_of(inventories_view(inventories@)),
{
    let mut routes: Vec<DeviceRoute> = Vec::new();
    let ghost views = inventories_view(inventories@);
    assert(routes_view(routes@) =~= routes_of(views.take(0)));
    for i in 0..inventories.len()
        invariant
            views == inventories_view(inventories@),
            routes_view(routes@) == routes_of(views.take(i as int)),
    {
        let inventory = &inventories[i];
        let ghost before = routes_of(views.take(i as int));
        assert(before + routes_up_to(inventory@, 0) =~= before);
        for k in 0..inventory.paired.len()
            invariant
                routes_view(routes@) == before + routes_up_to(inventory@, k as nat),
        {
            assert(inventory@.paired[k as int] == inventory.paired@[k as int]@);
            let ghost earlier = routes@;
            match DeviceRoute::device_route_for(inventory, inventory.paired[k].slot) {
                Some(route) => {
                    routes.push(route);
                    assert(routes_view(routes@) =~= routes_view(earlier).push(route@));
                    assert(routes_view(routes@) =~= before + routes_up_to(
                        inventory@,
                        (k + 1) as nat,
                    ));
                },
                None => {},
            }
        }
        assert(views.take(i + 1).drop_last() =~= views.take(i as int));
        assert(views.take(i + 1).last() == inventory@);
    }
    assert(views.take(inventories@.len() as int) =~= views);
    routes
}

/// Every route of an inventory addresses one of its paired slots, and names
/// the receiver (or the device) that the inventory was read from.
pub proof fn lemma_routes_address_paired_slots(inventory: InventoryView, n: nat, k: int)
    requires
        n <= inventory.paired.len(),
        0 <= k < routes_up_to(inventory, n).len(),
    ensures
        exists|i: int|
            0 <= i < n && #[trigger] route_view_for(inventory, inventory.paired[i].slot) == Some(
                routes_up_to(inventory, n)[k],
            ),
    decreases n,
{
    let before = routes_up_to(inventory, (n - 1) as nat);
    if k < before.len() {
        lemma_routes_address_paired_slots(inventory, (n - 1) as nat, k);
        let i = choose|i: int|
            0 <= i < n - 1 && #[trigger] route_view_for(inventory, inventory.paired[i].slot) == Some(
                before[k],
            );
        assert(route_view_for(inventory, inventory.paired[i].slot) == Some(
            routes_up_to(inventory, n)[k],
        ));
    } else {
        assert(route_view_for(inventory, inventory.paired[n - 1].slot) == Some(
            routes_up_to(inventory, n)[k],
        ));
    }
}

/// A receiver that reported its unique id publishes one route per paired
/// device, in slot-list order, each addressing exactly that device's slot.
pub proof fn lemma_receiver_routes_are_exact(inventory: InventoryView, n: nat)
    requires
        is_receiver_pid(inventory.receiver.product_id),
        inventory.receiver.unique_id is Some,
        n <= inventory.paired.len(),
    ensures
        routes_up_to(inventory, n).len() == n,
        forall|i: int|
            0 <= i < n ==> Some(#[trigger] routes_up_to(inventory, n)[i]) == route_view_for(
                inventory,
                inventory.paired[i].slot,
            ),
    decreases n,
{
    if n > 0 {
        lemma_receiver_routes_are_exact(inventory, (n - 1) as nat);
    }
}

/// A route addresses the slot that it is for, over the receiver or at the
/// device that the inventory was read from. There is one for every slot of a
/// receiver that has an id, and one for a device that is no receiver at its own
/// index alone.
pub proof fn lemma_route_reaches_its_slot(inventory: InventoryView, slot: u8)
    ensures
        ({
            let receiver = inventory.receiver;
            let pid = receiver.product_id;
            let bolt = pid == BOLT_PID;
            let unifying = pid == UNIFYING_PID || pid == UNIFYING_PID_SMALL
                || LIGHTSPEED_PID_FIRST <= pid <= LIGHTSPEED_PID_LAST;
            let route = route_view_for(inventory, slot);
            &&& route is Some <==> if bolt || unifying {
                receiver.unique_id is Some
            } else {
                slot == DIRECT_DEVICE_INDEX
            }
            &&& route matches Some(route) ==> route_index(route) == slot
            &&& route matches Some(RouteView::Bolt { receiver_uid, .. }) ==> bolt
                && receiver.unique_id == Some(receiver_uid)
            &&& route matches Some(RouteView::Unifying { receiver_uid, .. }) ==> unifying
                && receiver.unique_id == Some(receiver_uid)
            &&& route matches Some(RouteView::Direct { vendor_id, product_id }) ==> !bolt
                && !unifying && vendor_id == receiver.vendor_id && product_id == pid
        }),
{
}

/// Two slots of an inventory never share a route.
pub proof fn lemma_routes_tell_slots_apart(inventory: InventoryView, a: u8, b: u8)
    requires
        route_view_for(inventory, a) is Some,
        route_view_for(inventory, a) == route_view_for(inventory, b),
    ensures
        a == b,
{
    lemma_route_reaches_its_slot(inventory, a);
    lemma_route_reaches_its_slot(inventory, b);
}

/// A route's value tells everything about it.
pub proof fn lemma_route_value_is_whole(a: DeviceRoute, b: DeviceRoute)
    requires
        a@ == b@,
    ensures
        match (a, b) {
            (
                DeviceRoute::Bolt { receiver_uid: a, slot: i },
                DeviceRoute::Bolt { receiver_uid: b, slot: j },
            ) => a@ == b@ && i == j,
            (
                DeviceRoute::Unifying { receiver_uid: a, slot: i },
                DeviceRoute::Unifying { receiver_uid: b, slot: j },
            ) => a@ == b@ && i == j,
            (
                DeviceRoute::Direct { vendor_id: a, product_id: i },
                DeviceRoute::Direct { vendor_id: b, product_id: j },
            ) => a == b && i == j,
            _ => false,
        },
{
}

/// How many of the first `n` paired devices can be addressed.
pub open spec fn addressable(inventory: InventoryView, n: nat) -> nat
    decreases n,
{
    if n == 0 {
        0
    } else {
        addressable(inventory, (n - 1) as nat) + if route_view_for(
            inventory,
            inventory.paired[n - 1].slot,
        ) is Some {
            1nat
        } else {
            0nat
        }
    }
}

proof fn lemma_addressable_grows(inventory: InventoryView, m: nat, n: nat)
    requires
        m < n,
    ensures
        addressable(inventory, m) + (if route_view_for(
            inventory,
            inventory.paired[m as int].slot,
        ) is Some {
            1nat
        } else {
            0nat
        }) <= addressable(inventory, n),
    decreases n,
{
    if m + 1 < n {
        lemma_addressable_grows(inventory, m, (n - 1) as nat);
    }
}

/// Every device that can be addressed has its route, in its place, and there
/// is no other route.
pub proof fn lemma_every_addressable_device_is_routed(inventory: InventoryView, n: nat)
    requires
        n <= inventory.paired.len(),
    ensures
        routes_up_to(inventory, n).len() == addressable(inventory, n),
        n == inventory.paired.len() ==> inventory_routes(inventory) == routes_up_to(inventory, n),
        forall|i: nat| #![trigger addressable(inventory, i)]
            i < n ==> (route_view_for(inventory, inventory.paired[i as int].slot) matches Some(
                route,
            ) ==> {
                &&& addressable(inventory, i) < routes_up_to(inventory, n).len()
                &&& routes_up_to(inventory, n)[addressable(inventory, i) as int] == route
            }),
    decreases n,
{
    if n > 0 {
        let m = (n - 1) as nat;
        lemma_every_addressable_device_is_routed(inventory, m);
        assert forall|i: nat| #![trigger addressable(inventory, i)] i < n implies (route_view_for(
            inventory,
            inventory.paired[i as int].slot,
        ) matches Some(route) ==> {
            &&& addressable(inventory, i) < routes_up_to(inventory, n).len()
            &&& routes_up_to(inventory, n)[addressable(inventory, i) as int] == route
        }) by {
            if i < m {
                lemma_addressable_grows(inventory, i, m);
            }
        }
    }
}

/// The routes of several inventories are those of each, one after the other.
pub proof fn lemma_routes_are_gathered(first: Seq<InventoryView>, second: Seq<InventoryView>)
    ensures
        routes_of(first + second) == routes_of(first) + routes_of(second),
        first.len() == 0 ==> routes_of(first) == Seq::<RouteView>::empty(),
        first.len() == 1 ==> routes_of(first) == inventory_routes(first[0]),
    decreases second.len(),
{
    if first.len() == 1 {
        reveal_with_fuel(routes_of, 2);
        assert(first.drop_last() =~= Seq::empty());
        assert(routes_of(first) =~= inventory_routes(first[0]));
    }
    if second.len() == 0 {
        assert(first + second =~= first);
        assert(routes_of(first) + routes_of(second) =~= routes_of(first));
    } else {
        lemma_routes_are_gathered(first, second.drop_last());
        assert((first + second).drop_last() =~= first + second.drop_last());
        assert((first + second).last() == second.last());
        assert(routes_of(first + second) =~= routes_of(first) + routes_of(second));
    }
}

} // verus!
