use rpiboot_rs_lib::error::BootError;
use rpiboot_rs_lib::usb::{
    endpoints, generation_for_product, locate_device, DeviceFilter, DeviceInfo, DeviceSession, Generation,
    BROADCOM_VENDOR_ID,
};

fn info(vendor_id: u16, product_id: u16, serial: Option<&str>) -> DeviceInfo {
    DeviceInfo { vendor_id, product_id, serial_number: serial.map(|s| s.to_string()) }
}

#[test]
fn generations_of_products() {
    assert_eq!(generation_for_product(0x2763), Some(Generation::Legacy2763));
    assert_eq!(generation_for_product(0x2764), Some(Generation::Legacy2764));
    assert_eq!(generation_for_product(0x2711), Some(Generation::Bcm2711));
    assert_eq!(generation_for_product(0x2712), Some(Generation::Bcm2712));
    assert_eq!(generation_for_product(0x1234), None);
}

#[test]
fn endpoints_by_generation() {
    assert_eq!(endpoints(Generation::Legacy2763), (1, 2));
    assert_eq!(endpoints(Generation::Legacy2764), (1, 2));
    assert_eq!(endpoints(Generation::Bcm2711), (3, 4));
    assert_eq!(endpoints(Generation::Bcm2712), (3, 4));
}

#[test]
fn session_of_newer_device() {
    let s = DeviceSession::from_info(&info(BROADCOM_VENDOR_ID, 0x2712, Some("abc"))).unwrap();
    assert_eq!((s.out_ep, s.in_ep), (3, 4));
    assert!(s.bcm2712());
    assert!(!s.bcm2711());
    assert_eq!(s.serial_number, Some("abc".to_string()));
    assert!(DeviceSession::from_info(&info(BROADCOM_VENDOR_ID, 0x0001, None)).is_none());
}

#[test]
fn locate_first_by_vendor() {
    let devices = vec![
        info(0x1234, 0x2711, None),
        info(BROADCOM_VENDOR_ID, 0x9999, None),
        info(BROADCOM_VENDOR_ID, 0x2763, Some("s1")),
        info(BROADCOM_VENDOR_ID, 0x2711, Some("s2")),
    ];
    let (i, s) = locate_device(&devices, &DeviceFilter::Vendor(BROADCOM_VENDOR_ID)).unwrap();
    assert_eq!(i, 2);
    assert_eq!((s.out_ep, s.in_ep), (1, 2));
    assert_eq!(s.generation, Generation::Legacy2763);
}

#[test]
fn locate_by_serial() {
    let devices = vec![
        info(BROADCOM_VENDOR_ID, 0x2763, Some("s1")),
        info(0x1234, 0x2711, Some("s2")),
        info(BROADCOM_VENDOR_ID, 0x2711, Some("s2")),
    ];
    let (i, s) = locate_device(&devices, &DeviceFilter::Serial("s2".to_string())).unwrap();
    assert_eq!(i, 2);
    assert_eq!((s.out_ep, s.in_ep), (3, 4));
    assert!(matches!(
        locate_device(&devices, &DeviceFilter::Serial("s3".to_string())),
        Err(BootError::NotFound)
    ));
}

#[test]
fn locate_nothing() {
    let devices: Vec<DeviceInfo> = Vec::new();
    assert!(matches!(locate_device(&devices, &DeviceFilter::Vendor(BROADCOM_VENDOR_ID)), Err(BootError::NotFound)));
}
