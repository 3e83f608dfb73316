//! The choice of the device that powers the machine off.
use vstd::prelude::*;

use device_tree_parser::{DeviceTreeNode, DtbError};

verus! {

#[verifier::external_type_specification]
#[verifier::external_body]
pub struct ExDeviceTreeNode<'a>(DeviceTreeNode<'a>);

#[verifier::external_type_specification]
#[verifier::external_body]
pub struct ExDtbError(DtbError);

/// The `compatible` string of QEMU's test device, which can end the run.
pub const TEST_DEVICE_COMPATIBLE: &'static str = "sifive,test1";

/// Why the shutdown device could not be set up.
#[derive(Debug)]
pub enum InitError<'a> {
    /// The device tree could not be read.
    DtbError(DtbError),
    /// The named device has no `reg` property.
    NoReg(&'a str),
    /// A shutdown device was set up already.
    AlreadyInitialized,
}

/// Shutdown through the SBI system-reset call.
#[derive(Debug, Clone, Copy)]
pub struct SbiShutdown;

/// Shutdown through the QEMU test device at a physical address.
#[derive(Debug, Clone, Copy)]
pub struct QemuShutdown {
    addr: u64,
}

impl QemuShutdown {
    pub closed spec fn spec_addr(&self) -> u64 {
        self.addr
    }

    /// The test device whose registers start at `addr`.
    pub fn new(addr: u64) -> (r: Self)
        ensures
            r.spec_addr() == addr,
    {
        Self { addr }
    }

    /// The address of the device's registers.
    pub fn addr(&self) -> (r: u64)
        ensures
            r == self.spec_addr(),
    {
        self.addr
    }
}

/// The device chosen to power the machine off.
#[derive(Debug, Clone, Copy)]
pub enum ShutdownDevice {
    Sbi(SbiShutdown),
    Qemu(QemuShutdown),
}

/// What `DeviceTreeNode::find_compatible_nodes` returns for the tree rooted
/// at `root` and the string `compatible`: the matching nodes, in the order of
/// a depth-first walk.
pub uninterp spec fn compatible_nodes(root: DeviceTreeNode, compatible: Seq<char>) -> Seq<DeviceTreeNode>;

/// The `name` field of a node.
pub uninterp spec fn node_name_of(node: DeviceTreeNode) -> Seq<char>;

/// What `DeviceTreeNode::translate_reg_addresses` returns for `node` with
/// `parent` as its parent: the (address, size) pairs of its `reg` property,
/// or the error met while reading them.
pub uninterp spec fn reg_ranges(node: DeviceTreeNode, parent: DeviceTreeNode) -> Result<Seq<(u64, u64)>, DtbError>;

/// Calls `DeviceTreeNode::find_compatible_nodes`: the nodes of the tree
/// rooted at `root` whose `compatible` property lists `compatible`. The
/// result is claimed to depend on the tree and the string alone.
#[verifier::external_body]
fn find_compatible_nodes<'a, 'b>(root: &'b DeviceTreeNode<'a>, compatible: &str) -> (r: Vec<
    &'b DeviceTreeNode<'a>,
>)
    ensures
        r@.len() == compatible_nodes(*root, compatible@).len(),
        forall|i: int| 0 <= i < r@.len() ==> *r@[i] == compatible_nodes(*root, compatible@)[i],
{
    root.find_compatible_nodes(compatible)
}

/// Calls `DeviceTreeNode::translate_reg_addresses` with `parent` as the
/// parent node: the (address, size) pairs of the node's `reg` property. The
/// result is claimed to depend on the two nodes alone.
#[verifier::external_body]
pub(crate) fn translate_reg_addresses<'a>(node: &DeviceTreeNode<'a>, parent: &DeviceTreeNode<'a>) -> (r: Result<
    Vec<(u64, u64)>,
    DtbError,
>)
    ensures
        match r {
            Ok(v) => reg_ranges(*node, *parent) == Ok::<Seq<(u64, u64)>, DtbError>(v@),
            Err(e) => reg_ranges(*node, *parent) == Err::<Seq<(u64, u64)>, DtbError>(e),
        },
{
    node.translate_reg_addresses(Some(parent))
}

/// Reads the public `name` field of a `DeviceTreeNode`.
#[verifier::external_body]
fn node_name<'a>(node: &DeviceTreeNode<'a>) -> (r: &'a str)
    ensures
        r@ == node_name_of(*node),
{
    node.name
}

/// What the shutdown device is, given what the device tree says of the
/// first test device: its name and its register ranges, or nothing when
/// there is none. Without a test device the SBI is used; an error reading
/// the registers is reported; a device without registers is refused by
/// name; otherwise the device whose registers start at the first range.
pub open spec fn shutdown_choice<'a>(
    test_device: Option<(Seq<char>, Result<Seq<(u64, u64)>, DtbError>)>,
    r: Result<ShutdownDevice, InitError<'a>>,
) -> bool {
    match test_device {
        None => r matches Ok(ShutdownDevice::Sbi(_)),
        Some((name, Err(e))) => r == Err::<ShutdownDevice, InitError<'a>>(InitError::DtbError(e)),
        Some((name, Ok(regs))) => if regs.len() == 0 {
            r matches Err(InitError::NoReg(n)) && n@ == name
        } else {
            r matches Ok(ShutdownDevice::Qemu(q)) && q.spec_addr() == regs[0].0
        },
    }
}

/// The first node of the tree rooted at `root` that is compatible with QEMU's
/// test device, with its name and register ranges, if there is one.
pub open spec fn test_device_of(root: DeviceTreeNode) -> Option<(Seq<char>, Result<Seq<(u64, u64)>, DtbError>)> {
    let nodes = compatible_nodes(root, TEST_DEVICE_COMPATIBLE@);
    if nodes.len() == 0 {
        None
    } else {
        Some((node_name_of(nodes[0]), reg_ranges(nodes[0], root)))
    }
}

/// The shutdown device, from what the device tree says of the first test
/// device: its name and its register ranges, or nothing when there is none.
/// Without a test device the SBI is used; otherwise the device whose
/// registers start at the first range.
pub fn choose_shutdown_device<'a>(
    test_device: Option<(&'a str, Result<Vec<(u64, u64)>, DtbError>)>,
) -> (r: Result<ShutdownDevice, InitError<'a>>)
    ensures
        shutdown_choice(
            match test_device {
                None => None,
                Some((name, Ok(regs))) => Some((name@, Ok(regs@))),
                Some((name, Err(e))) => Some((name@, Err(e))),
            },
            r,
        ),
        match test_device {
            Some((name, Ok(regs))) => regs@.len() == 0 ==> r == Err::<ShutdownDevice, InitError<'a>>(
                InitError::NoReg(name),
            ),
            _ => true,
        },
{
    match test_device {
        None => Ok(ShutdownDevice::Sbi(SbiShutdown)),
        Some((name, regs)) => match regs {
            Err(e) => Err(InitError::DtbError(e)),
            Ok(regs) => {
                if regs.len() == 0 {
                    Err(InitError::NoReg(name))
                } else {
                    let (addr, _size) = regs[0];
                    Ok(ShutdownDevice::Qemu(QemuShutdown::new(addr)))
                }
            },
        },
    }
}

/// Looks for QEMU's test device in the device tree and chooses the shutdown
/// device from what it finds: the first compatible node, its name and its
/// register ranges read with the root as parent.
pub fn find_shutdown_device<'a>(dt_root: &DeviceTreeNode<'a>) -> (r: Result<
    ShutdownDevice,
    InitError<'a>,
>)
    ensures
        shutdown_choice(test_device_of(*dt_root), r),
{
    let test_devices = find_compatible_nodes(dt_root, TEST_DEVICE_COMPATIBLE);
    let test_device = if test_devices.len() > 0 {
        let device = test_devices[0];
        Some((node_name(device), translate_reg_addresses(device, dt_root)))
    } else {
        None
    };
    choose_shutdown_device(test_device)
}

} // verus!
