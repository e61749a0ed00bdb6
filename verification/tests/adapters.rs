use double_compresso::adapters::{
    adapter_rank, find_adapter, order_adapters, select_adapter, AdapterInfo, AdapterSelection,
    AdapterState,
};

fn info(name: &str, state: AdapterState) -> AdapterInfo {
    AdapterInfo { name: name.to_string(), state }
}

#[test]
fn ranks() {
    assert_eq!(adapter_rank(&AdapterState::PoweredOn), Some(0));
    assert_eq!(adapter_rank(&AdapterState::Unknown), Some(1));
    assert_eq!(adapter_rank(&AdapterState::PoweredOff), None);
}

#[test]
fn order_by_state_then_name_then_position() {
    let adapters = vec![
        info("hci2", AdapterState::Unknown),
        info("hci1", AdapterState::PoweredOff),
        info("hci3", AdapterState::PoweredOn),
        info("hci0", AdapterState::PoweredOn),
        info("hci0", AdapterState::Unknown),
        info("hci0", AdapterState::PoweredOn),
    ];
    assert_eq!(order_adapters(&adapters), vec![3, 5, 2, 4, 0]);
    assert_eq!(order_adapters(&vec![]), Vec::<usize>::new());
    assert_eq!(order_adapters(&vec![info("off", AdapterState::PoweredOff)]), Vec::<usize>::new());
}

#[test]
fn order_names_bytewise() {
    let adapters = vec![
        info("b", AdapterState::PoweredOn),
        info("B", AdapterState::PoweredOn),
        info("ab", AdapterState::PoweredOn),
        info("a", AdapterState::PoweredOn),
        info("é", AdapterState::PoweredOn),
    ];
    assert_eq!(order_adapters(&adapters), vec![1, 3, 2, 0, 4]);
}

fn names(list: &[&str]) -> Vec<String> {
    list.iter().map(|s| s.to_string()).collect()
}

#[test]
fn find_prefers_first_exact_match() {
    let n = names(&["hci0 (usb)", "hci0", "hci1", "hci0"]);
    assert_eq!(find_adapter(&n, "hci0"), Some(1));
    assert_eq!(find_adapter(&n, "usb"), Some(0));
    assert_eq!(find_adapter(&n, "hci1"), Some(2));
    assert_eq!(find_adapter(&n, "ci"), Some(0));
    assert_eq!(find_adapter(&n, "hci9"), None);
    assert_eq!(find_adapter(&n, ""), Some(0));
    assert_eq!(find_adapter(&names(&[]), "x"), None);
}

#[test]
fn select_by_kind() {
    let n = names(&["alpha", "beta"]);
    assert_eq!(select_adapter(&n, AdapterSelection::Any).unwrap(), Some(0));
    assert_eq!(select_adapter(&names(&[]), AdapterSelection::Any).unwrap(), None);
    assert_eq!(select_adapter(&n, AdapterSelection::Index(1)).unwrap(), Some(1));
    assert_eq!(select_adapter(&n, AdapterSelection::PartialName("et")).unwrap(), Some(1));
    assert!(select_adapter(&n, AdapterSelection::PartialName("gamma")).is_err());
    assert!(matches!(AdapterSelection::default(), AdapterSelection::Any));
}
