//! What the scan does with the events that an adapter reports: which of them
//! touch the device list, and which devices are left out.

use vstd::prelude::*;
use std::collections::HashSet;
use ::uuid::Uuid;
use crate::adapters::AdapterState;
use crate::gatt::{fw_service_uuid, has_fw_service};

verus! {

/// The kinds of event that an adapter reports while scanning.
#[derive(Debug, Clone, Copy)]
pub enum CentralEventKind {
    DeviceDiscovered,
    DeviceUpdated,
    DeviceConnected,
    DeviceDisconnected,
    ManufacturerDataAdvertisement,
    ServiceDataAdvertisement,
    ServicesAdvertisement,
    StateUpdate(AdapterState),
}

/// What to do about an adapter event.
#[derive(Debug, Clone, Copy, PartialEq, Eq, Structural)]
pub enum EventAction {
    /// Look at the device the event is about; `on_discovered` tells whether
    /// the event announced its discovery.
    Discover { on_discovered: bool },
    /// The adapter was powered off: every device is lost.
    ClearAll,
    /// Nothing to do.
    Ignore,
}

/// What to do about an adapter event of kind `kind`. A disconnection does
/// not count as seeing a device, since it may come from a timeout.
pub fn event_action(kind: &CentralEventKind) -> (action: EventAction)
    ensures
        action == match *kind {
            CentralEventKind::DeviceDiscovered => EventAction::Discover { on_discovered: true },
            CentralEventKind::DeviceDisconnected => EventAction::Ignore,
            CentralEventKind::StateUpdate(AdapterState::PoweredOff) => EventAction::ClearAll,
            CentralEventKind::StateUpdate(_) => EventAction::Ignore,
            _ => EventAction::Discover { on_discovered: false },
        },
{
    match kind {
        CentralEventKind::DeviceDiscovered => EventAction::Discover { on_discovered: true },
        CentralEventKind::DeviceUpdated => EventAction::Discover { on_discovered: false },
        CentralEventKind::DeviceConnected => EventAction::Discover { on_discovered: false },
        CentralEventKind::DeviceDisconnected => EventAction::Ignore,
        CentralEventKind::ManufacturerDataAdvertisement => EventAction::Discover { on_discovered: false },
        CentralEventKind::ServiceDataAdvertisement => EventAction::Discover { on_discovered: false },
        CentralEventKind::ServicesAdvertisement => EventAction::Discover { on_discovered: false },
        CentralEventKind::StateUpdate(state) => match state {
            AdapterState::PoweredOff => EventAction::ClearAll,
            _ => EventAction::Ignore,
        },
    }
}

/// What to do with a device that an event is about.
#[derive(Debug, Clone, Copy, PartialEq, Eq, Structural)]
pub enum DiscoverAction {
    /// Leave it out of the device list.
    Skip,
    /// Record it in the device list; with `only_existing`, only if it is
    /// already there.
    Touch { only_existing: bool },
}

/// The devices that the adapter knew before the scan started. Their first
/// discovery event may be stale, so it is not believed.
pub struct PreScan {
    addrs: HashSet<u64>,
}

impl View for PreScan {
    type V = Set<u64>;

    closed spec fn view(&self) -> Set<u64> {
        self.addrs@
    }
}

/// What to do with the device `addr`: skip its discovery if the adapter
/// knew it before the scan; otherwise record it when its properties show the
/// firmware service, skip it when they show other services only, and when
/// there are no properties record it only if it is already known.
pub open spec fn discover_spec(
    known_before: bool,
    on_discovered: bool,
    services: Option<Seq<Uuid>>,
) -> DiscoverAction {
    if known_before && on_discovered {
        DiscoverAction::Skip
    } else {
        match services {
            Some(s) => if s.contains(fw_service_uuid()) {
                DiscoverAction::Touch { only_existing: false }
            } else {
                DiscoverAction::Skip
            },
            None => DiscoverAction::Touch { only_existing: true },
        }
    }
}

/// Only a device that advertises the firmware service is recorded as a
/// possibly new device: whatever the event and whether the adapter knew the
/// device before the scan, a device whose properties list services without
/// the firmware service is skipped; a device is recorded without being known
/// already only when its services contain the firmware service; a device
/// without properties is only refreshed if it is already known; and the
/// first discovery of a device the adapter knew before the scan is skipped.
pub proof fn lemma_discover_needs_fw_service(
    known_before: bool,
    on_discovered: bool,
    services: Option<Seq<Uuid>>,
)
    ensures
        services matches Some(s) && !s.contains(fw_service_uuid()) ==> discover_spec(
            known_before,
            on_discovered,
            services,
        ) == DiscoverAction::Skip,
        discover_spec(known_before, on_discovered, services) == (DiscoverAction::Touch {
            only_existing: false,
        }) ==> (services matches Some(s) && s.contains(fw_service_uuid())),
        discover_spec(known_before, on_discovered, services) == (DiscoverAction::Touch {
            only_existing: true,
        }) ==> services is None,
        known_before && on_discovered ==> discover_spec(known_before, on_discovered, services)
            == DiscoverAction::Skip,
        !(known_before && on_discovered) && (services matches Some(s) && s.contains(fw_service_uuid()))
            ==> discover_spec(known_before, on_discovered, services) == (DiscoverAction::Touch {
            only_existing: false,
        }),
        !(known_before && on_discovered) && services is None ==> discover_spec(
            known_before,
            on_discovered,
            services,
        ) == (DiscoverAction::Touch { only_existing: true }),
{
}

impl PreScan {
    /// No device is known from before the scan.
    pub fn new() -> (pre_scan: Self)
        ensures
            pre_scan@ == Set::<u64>::empty(),
    {
        PreScan { addrs: HashSet::new() }
    }

    /// Adds the devices that the adapter already knew.
    pub fn extend(&mut self, addrs: &Vec<u64>)
        ensures
            final(self)@ == old(self)@ + addrs@.to_set(),
    {
        let mut i: usize = 0;
        while i < addrs.len()
            invariant
                i <= addrs@.len(),
                self@ == old(self)@ + addrs@.take(i as int).to_set(),
            decreases addrs@.len() - i,
        {
            self.addrs.insert(addrs[i]);
            proof {
                assert(addrs@.take(i + 1) =~= addrs@.take(i as int).push(addrs@[i as int]));
                addrs@.take(i as int).lemma_push_to_set_commute(addrs@[i as int]);
                assert(self@ =~= old(self)@ + addrs@.take(i + 1).to_set());
            }
            i = i + 1;
        }
        proof {
            assert(addrs@.take(addrs@.len() as int) =~= addrs@);
        }
    }

    /// Decides what to do with the device `addr` that an event is about.
    /// `services` are the services in the device's properties, `None` when
    /// it has none. The device no longer counts as known from before.
    pub fn discover(&mut self, addr: u64, on_discovered: bool, services: Option<&Vec<Uuid>>) -> (action: DiscoverAction)
        ensures
            final(self)@ == old(self)@.remove(addr),
            action == discover_spec(
                old(self)@.contains(addr),
                on_discovered,
                match services {
                    Some(s) => Some(s@),
                    None => None,
                },
            ),
            services matches Some(s) && !s@.contains(fw_service_uuid()) ==> action
                == DiscoverAction::Skip,
            action == (DiscoverAction::Touch { only_existing: false }) ==> (services matches Some(s)
                && s@.contains(fw_service_uuid())),
            action == (DiscoverAction::Touch { only_existing: true }) ==> services is None,
            old(self)@.contains(addr) && on_discovered ==> action == DiscoverAction::Skip,
            !(old(self)@.contains(addr) && on_discovered) && (services matches Some(s) && s@.contains(
                fw_service_uuid(),
            )) ==> action == (DiscoverAction::Touch { only_existing: false }),
            !(old(self)@.contains(addr) && on_discovered) && services is None ==> action == (
            DiscoverAction::Touch { only_existing: true }),
    {
        proof {
            lemma_discover_needs_fw_service(
                old(self)@.contains(addr),
                on_discovered,
                match services {
                    Some(s) => Some(s@),
                    None => None,
                },
            );
        }
        let known_before = self.addrs.remove(&addr);
        if known_before && on_discovered {
            return DiscoverAction::Skip;
        }
        match services {
            Some(s) => if has_fw_service(s) {
                DiscoverAction::Touch { only_existing: false }
            } else {
                DiscoverAction::Skip
            },
            None => DiscoverAction::Touch { only_existing: true },
        }
    }
}

} // verus!
