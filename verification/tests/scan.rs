use double_compresso::adapters::AdapterState;
use double_compresso::gatt::{GATT_CHAR_FW_VER_VALUE, GATT_SERVICE_FW_VALUE};
use double_compresso::scan::{event_action, CentralEventKind, DiscoverAction, EventAction, PreScan};
use uuid::Uuid;

#[test]
fn event_actions() {
    let d = |on_discovered| EventAction::Discover { on_discovered };
    assert_eq!(event_action(&CentralEventKind::DeviceDiscovered), d(true));
    assert_eq!(event_action(&CentralEventKind::DeviceUpdated), d(false));
    assert_eq!(event_action(&CentralEventKind::DeviceConnected), d(false));
    assert_eq!(event_action(&CentralEventKind::DeviceDisconnected), EventAction::Ignore);
    assert_eq!(event_action(&CentralEventKind::ManufacturerDataAdvertisement), d(false));
    assert_eq!(event_action(&CentralEventKind::ServiceDataAdvertisement), d(false));
    assert_eq!(event_action(&CentralEventKind::ServicesAdvertisement), d(false));
    assert_eq!(event_action(&CentralEventKind::StateUpdate(AdapterState::PoweredOff)), EventAction::ClearAll);
    assert_eq!(event_action(&CentralEventKind::StateUpdate(AdapterState::PoweredOn)), EventAction::Ignore);
    assert_eq!(event_action(&CentralEventKind::StateUpdate(AdapterState::Unknown)), EventAction::Ignore);
}

#[test]
fn pre_scan_devices_skip_their_first_discovery_only() {
    let fw = vec![Uuid::from_u128(GATT_SERVICE_FW_VALUE)];
    let mut pre = PreScan::new();
    pre.extend(&vec![1, 2]);
    assert_eq!(pre.discover(1, true, Some(&fw)), DiscoverAction::Skip);
    assert_eq!(pre.discover(1, true, Some(&fw)), DiscoverAction::Touch { only_existing: false });
    // an update of a pre-scan device is believed, and it no longer counts as pre-scan
    assert_eq!(pre.discover(2, false, Some(&fw)), DiscoverAction::Touch { only_existing: false });
    assert_eq!(pre.discover(2, true, Some(&fw)), DiscoverAction::Touch { only_existing: false });
}

#[test]
fn services_decide() {
    let mut pre = PreScan::new();
    let other = vec![Uuid::from_u128(GATT_CHAR_FW_VER_VALUE)];
    let fw = vec![Uuid::from_u128(GATT_CHAR_FW_VER_VALUE), Uuid::from_u128(GATT_SERVICE_FW_VALUE)];
    assert_eq!(pre.discover(5, true, Some(&other)), DiscoverAction::Skip);
    assert_eq!(pre.discover(5, false, Some(&fw)), DiscoverAction::Touch { only_existing: false });
    assert_eq!(pre.discover(5, false, None), DiscoverAction::Touch { only_existing: true });
}
