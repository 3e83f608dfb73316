use device_tree_parser::{DeviceTreeNode, Property, PropertyValue};
use iris_mmu::dtb::{
    memory_regions, read_boot_device_tree, reservations_in_bounds, tree_parse_in_bounds, BootTreeError,
};

const REG: [u8; 8] = [0x80, 0, 0, 0, 0x08, 0, 0, 0];

fn memory_node(name: &'static str, reg: &'static [u8]) -> DeviceTreeNode<'static> {
    let mut node = DeviceTreeNode::new(name);
    node.add_property(Property { name: "device_type", value: PropertyValue::String("memory") });
    node.add_property(Property { name: "reg", value: PropertyValue::U32Array(reg) });
    node
}

fn root_with(children: Vec<DeviceTreeNode<'static>>) -> DeviceTreeNode<'static> {
    let mut root = DeviceTreeNode::new("");
    root.add_property(Property { name: "#address-cells", value: PropertyValue::U32(1) });
    root.add_property(Property { name: "#size-cells", value: PropertyValue::U32(1) });
    root.children = children;
    root
}

#[test]
fn memory_nodes_give_their_ranges() {
    let root = root_with(vec![DeviceTreeNode::new("cpus"), memory_node("memory@80000000", &REG)]);
    assert_eq!(memory_regions(&root).unwrap(), vec![(0x8000_0000, 0x0800_0000)]);
}

#[test]
fn no_memory_node_no_ranges() {
    let root = root_with(vec![DeviceTreeNode::new("uart@10000000")]);
    assert_eq!(memory_regions(&root).unwrap(), vec![]);
}

#[test]
fn a_memory_node_without_reg_has_no_ranges() {
    let mut node = DeviceTreeNode::new("memory@0");
    node.add_property(Property { name: "device_type", value: PropertyValue::String("memory") });
    let root = root_with(vec![node]);
    assert_eq!(memory_regions(&root).unwrap(), vec![]);
}

#[test]
fn bad_address_cells_are_an_error() {
    let mut root = DeviceTreeNode::new("");
    root.add_property(Property { name: "#address-cells", value: PropertyValue::U32(0) });
    root.add_property(Property { name: "#size-cells", value: PropertyValue::U32(1) });
    root.children.push(memory_node("memory@80000000", &REG));
    assert!(memory_regions(&root).is_err());
}

#[test]
fn reservation_block_bounds() {
    assert!(reservations_in_bounds(&[0u8; 8]));
    let mut header = [0u8; 40];
    header[0..4].copy_from_slice(&0xd00d_feedu32.to_be_bytes());
    header[16..20].copy_from_slice(&41u32.to_be_bytes());
    assert!(!reservations_in_bounds(&header));
    header[16..20].copy_from_slice(&40u32.to_be_bytes());
    assert!(reservations_in_bounds(&header));
}

#[test]
fn a_blob_without_a_header_is_refused() {
    let blob = [0u8; 16];
    assert!(matches!(read_boot_device_tree(&blob), Err(BootTreeError::Tree(_))));
}

/// A small flattened device tree: one reserved range and one memory node.
fn small_blob() -> Vec<u8> {
    fn be(v: &mut Vec<u8>, x: u32) {
        v.extend_from_slice(&x.to_be_bytes());
    }
    let strings: &[u8] = b"#address-cells\0#size-cells\0device_type\0reg\0";
    let mut st: Vec<u8> = Vec::new();
    be(&mut st, 1);
    be(&mut st, 0);
    be(&mut st, 3);
    be(&mut st, 4);
    be(&mut st, 0);
    be(&mut st, 2);
    be(&mut st, 3);
    be(&mut st, 4);
    be(&mut st, 15);
    be(&mut st, 2);
    be(&mut st, 1);
    st.extend_from_slice(b"memory@80000000\0");
    be(&mut st, 3);
    be(&mut st, 7);
    be(&mut st, 27);
    st.extend_from_slice(b"memory\0\0");
    be(&mut st, 3);
    be(&mut st, 16);
    be(&mut st, 39);
    for x in [0u32, 0x8000_0000, 0, 0x0800_0000] {
        be(&mut st, x);
    }
    be(&mut st, 2);
    be(&mut st, 2);
    be(&mut st, 9);
    let mut rsv: Vec<u8> = Vec::new();
    rsv.extend_from_slice(&0x8000_0000u64.to_be_bytes());
    rsv.extend_from_slice(&0x1000u64.to_be_bytes());
    rsv.extend_from_slice(&[0u8; 16]);
    let off_rsv = 40u32;
    let off_struct = off_rsv + rsv.len() as u32;
    let off_strings = off_struct + st.len() as u32;
    let total = off_strings + strings.len() as u32;
    let mut blob: Vec<u8> = Vec::new();
    for x in [0xd00d_feedu32, total, off_struct, off_strings, off_rsv, 17, 16, 0, strings.len() as u32, st.len() as u32] {
        be(&mut blob, x);
    }
    blob.extend_from_slice(&rsv);
    blob.extend_from_slice(&st);
    blob.extend_from_slice(strings);
    blob
}

#[test]
fn a_small_blob_is_read() {
    let blob = small_blob();
    assert!(reservations_in_bounds(&blob));
    assert!(tree_parse_in_bounds(&blob));
    let tree = match read_boot_device_tree(&blob) {
        Ok(t) => t,
        Err(e) => panic!("{e:?}"),
    };
    assert_eq!(tree.memory, vec![(0x8000_0000, 0x0800_0000)]);
    assert_eq!(tree.reserved, vec![(0x8000_0000, 0x1000)]);
    assert_eq!(tree.root.children.len(), 1);
}

#[test]
fn a_property_whose_padding_runs_past_the_block_is_caught() {
    let mut st: Vec<u8> = Vec::new();
    for x in [1u32, 0, 3, 5, 0] {
        st.extend_from_slice(&x.to_be_bytes());
    }
    st.extend_from_slice(&[1, 2, 3, 4, 5]);
    let strings: &[u8] = b"reg\0";
    let off_struct = 40u32;
    let off_strings = off_struct + st.len() as u32;
    let total = off_strings + strings.len() as u32;
    let mut blob: Vec<u8> = Vec::new();
    for x in [0xd00d_feedu32, total, off_struct, off_strings, total, 17, 16, 0, strings.len() as u32, st.len() as u32] {
        blob.extend_from_slice(&x.to_be_bytes());
    }
    blob.extend_from_slice(&st);
    blob.extend_from_slice(strings);
    assert!(!tree_parse_in_bounds(&blob));
    // The same block with its last word whole is fine.
    let mut whole = blob.clone();
    whole[36..40].copy_from_slice(&28u32.to_be_bytes());
    whole.splice(off_strings as usize..off_strings as usize, [0u8, 0, 0]);
    whole[12..16].copy_from_slice(&(off_strings + 3).to_be_bytes());
    assert!(tree_parse_in_bounds(&whole));
}

#[test]
fn a_reservation_block_up_to_its_end_entry() {
    let blob = small_blob();
    let tree = read_boot_device_tree(&blob).unwrap_or_else(|e| panic!("{e:?}"));
    assert_eq!(tree.reserved.len(), 1);
}
