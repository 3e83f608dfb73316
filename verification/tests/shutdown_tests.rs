use device_tree_parser::{DeviceTreeNode, DtbError, Property, PropertyValue};
use iris_mmu::shutdown::{choose_shutdown_device, find_shutdown_device, InitError, ShutdownDevice};

#[test]
fn no_test_device_means_sbi() {
    assert!(matches!(choose_shutdown_device(None), Ok(ShutdownDevice::Sbi(_))));
}

#[test]
fn test_device_at_its_first_register_range() {
    let r = choose_shutdown_device(Some(("test@100000", Ok(vec![(0x10_0000, 0x1000), (0x20_0000, 0x10)]))));
    assert!(matches!(r, Ok(ShutdownDevice::Qemu(q)) if q.addr() == 0x10_0000));
}

#[test]
fn test_device_without_registers() {
    let r = choose_shutdown_device(Some(("test@100000", Ok(vec![]))));
    assert!(matches!(r, Err(InitError::NoReg("test@100000"))));
}

#[test]
fn unreadable_registers() {
    let r = choose_shutdown_device(Some(("test@100000", Err(DtbError::MalformedHeader))));
    assert!(matches!(r, Err(InitError::DtbError(DtbError::MalformedHeader))));
}

fn tree_with_test_device<'a>(reg: Option<&'a [u8]>, address_cells: u32) -> DeviceTreeNode<'a> {
    let mut root = DeviceTreeNode::new("");
    root.add_property(Property { name: "#address-cells", value: PropertyValue::U32(address_cells) });
    root.add_property(Property { name: "#size-cells", value: PropertyValue::U32(1) });
    let mut device = DeviceTreeNode::new("test@100000");
    device.add_property(Property { name: "compatible", value: PropertyValue::String("sifive,test1") });
    if let Some(bytes) = reg {
        device.add_property(Property { name: "reg", value: PropertyValue::U32Array(bytes) });
    }
    root.children.push(device);
    root
}

const REG: [u8; 12] = [0, 0, 0, 0, 0, 0x10, 0, 0, 0, 0, 0x10, 0];

#[test]
fn device_tree_with_a_test_device() {
    let root = tree_with_test_device(Some(&REG), 2);
    let r = find_shutdown_device(&root);
    assert!(matches!(r, Ok(ShutdownDevice::Qemu(q)) if q.addr() == 0x10_0000));
}

#[test]
fn device_tree_with_a_test_device_without_reg() {
    let root = tree_with_test_device(None, 2);
    let r = find_shutdown_device(&root);
    assert!(matches!(r, Err(InitError::NoReg("test@100000"))));
}

#[test]
fn device_tree_with_bad_address_cells() {
    let root = tree_with_test_device(Some(&REG), 0);
    let r = find_shutdown_device(&root);
    assert!(matches!(r, Err(InitError::DtbError(_))));
}

#[test]
fn device_tree_without_a_test_device() {
    let mut root = DeviceTreeNode::new("");
    root.children.push(DeviceTreeNode::new("uart@10000000"));
    assert!(matches!(find_shutdown_device(&root), Ok(ShutdownDevice::Sbi(_))));
}
