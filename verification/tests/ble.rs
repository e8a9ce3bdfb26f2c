use mcumgr_smp::ble::{
    bounded_prefix, find_characteristic, local_name_matches, scan_again,
    BLE_TRANSPORT_CHARACTERISTIC_UUID, BLE_TRANSPORT_SERVICE_UUID, MAX_MTU, SCAN_ROUNDS,
};

#[test]
fn ble_write_is_cut_at_mtu() {
    let data: Vec<u8> = (0..300u32).map(|i| i as u8).collect();
    assert_eq!(bounded_prefix(&data, MAX_MTU), data[..252].to_vec());
    assert_eq!(bounded_prefix(&data[..10], MAX_MTU), data[..10].to_vec());
    assert_eq!(bounded_prefix(&data, 0), Vec::<u8>::new());
}

#[test]
fn ble_characteristic_lookup() {
    let uuids = [1u128, BLE_TRANSPORT_SERVICE_UUID, BLE_TRANSPORT_CHARACTERISTIC_UUID, BLE_TRANSPORT_CHARACTERISTIC_UUID];
    assert_eq!(find_characteristic(&uuids, BLE_TRANSPORT_CHARACTERISTIC_UUID), Some(2));
    assert_eq!(find_characteristic(&uuids[..2], BLE_TRANSPORT_CHARACTERISTIC_UUID), None);
    assert_eq!(BLE_TRANSPORT_CHARACTERISTIC_UUID, 0xda2e7828fbce4e01ae9e261174997c48);
    assert_eq!(BLE_TRANSPORT_SERVICE_UUID, 0x8d53dc1d1db74cd3868b8a527460aa84);
}

#[test]
fn ble_local_name_match() {
    assert!(local_name_matches(&Some("Zephyr mcumgr".to_string()), "mcumgr"));
    assert!(local_name_matches(&Some("abc".to_string()), ""));
    assert!(!local_name_matches(&Some("Zephyr".to_string()), "mcumgr"));
    assert!(!local_name_matches(&None, "mcumgr"));
    assert!(!local_name_matches(&None, ""));
}

#[test]
fn ble_scan_rounds() {
    assert_eq!(SCAN_ROUNDS, 10);
    assert!(scan_again(0));
    assert!(scan_again(9));
    assert!(!scan_again(10));
}
