//! Device tree: the registry of detected devices and the bus scans that
//! fill it.
//!
//! Probing hardware (the PS/2 status port) is left to the caller, which
//! hands the scans what it found.
use vstd::prelude::*;
use vstd::string::StringSliceAdditionalSpecFns;

verus! {

/// Bus types supported by the system.
#[derive(Debug, Clone, Copy, PartialEq, Eq, Structural)]
pub enum BusType {
    /// Platform devices (built-in)
    Platform,
    /// PS/2 keyboard/mouse
    PS2,
    /// PCI/PCIe devices
    PCI,
    /// Paravirtualized devices
    Virtio,
}

/// Device state tracking.
#[derive(Debug, Clone, Copy, PartialEq, Eq, Structural)]
pub enum DeviceState {
    /// Device found but not initialized
    Detected,
    /// Driver init in progress
    Initializing,
    /// Device operational
    Active,
    /// Initialization failed
    Failed,
    /// Device shut down
    Shutdown,
}

/// A hardware device.
#[derive(Debug, Clone, Copy)]
pub struct Device {
    /// Device name
    pub name: &'static str,
    /// Bus the device sits on
    pub bus: BusType,
    /// I/O base address
    pub io_base: u64,
    /// Interrupt line, if any
    pub irq: Option<u8>,
    /// Target CPU core for IRQ routing
    pub irq_affinity: Option<u8>,
    /// Driver bound to the device
    pub driver: Option<&'static str>,
    /// Lifecycle state
    pub state: DeviceState,
}

/// Maximum number of devices supported.
pub const MAX_DEVICES: usize = 64;

/// Byte-wise string equality, as `==` on `str` compares.
fn names_equal(a: &str, b: &str) -> (r: bool)
    ensures
        r == (a.spec_bytes() == b.spec_bytes()),
{
    let x = a.as_bytes();
    let y = b.as_bytes();
    if x.len() != y.len() {
        return false;
    }
    let mut i: usize = 0;
    while i < x.len()
        invariant
            x@ == a.spec_bytes(),
            y@ == b.spec_bytes(),
            x@.len() == y@.len(),
            i <= x@.len(),
            forall|j: int| 0 <= j < i ==> x@[j] == y@[j],
        decreases x@.len() - i,
    {
        if x[i] != y[i] {
            return false;
        }
        i = i + 1;
    }
    assert(x@ =~= y@);
    true
}

/// Device `i` is the first one named `name`.
pub open spec fn first_named(devices: Seq<Device>, name: &str, i: int) -> bool {
    &&& 0 <= i < devices.len()
    &&& devices[i].name.spec_bytes() == name.spec_bytes()
    &&& forall|j: int| 0 <= j < i ==> (#[trigger] devices[j]).name.spec_bytes() != name.spec_bytes()
}

/// The devices on `bus`, in registration order.
pub open spec fn on_bus(devices: Seq<Device>, bus: BusType) -> Seq<Device> {
    devices.filter(|d: Device| d.bus == bus)
}

/// The registered devices, in registration order.
pub struct DeviceRegistry {
    devices: Vec<Device>,
}

impl View for DeviceRegistry {
    type V = Seq<Device>;

    closed spec fn view(&self) -> Seq<Device> {
        self.devices@
    }
}

impl DeviceRegistry {
    /// At most `MAX_DEVICES` devices.
    pub open spec fn wf(&self) -> bool {
        self@.len() <= MAX_DEVICES
    }

    /// No device.
    pub fn new() -> (r: Self)
        ensures
            r.wf(),
            r@ == Seq::<Device>::empty(),
    {
        DeviceRegistry { devices: Vec::new() }
    }

    /// Add `device`; an error when `MAX_DEVICES` are registered.
    pub fn register(&mut self, device: Device) -> (r: Result<(), &'static str>)
        requires
            old(self).wf(),
        ensures
            final(self).wf(),
            r is Ok <==> old(self)@.len() < MAX_DEVICES,
            r is Ok ==> final(self)@ == old(self)@.push(device),
            r is Err ==> final(self)@ == old(self)@ && r == Err::<(), &'static str>("Device registry full"),
    {
        if self.devices.len() >= MAX_DEVICES {
            return Err("Device registry full");
        }
        self.devices.push(device);
        Ok(())
    }

    /// Number of registered devices.
    pub fn len(&self) -> (r: usize)
        ensures
            r == self@.len(),
    {
        self.devices.len()
    }

    /// The first device named `name`.
    pub fn find_by_name(&self, name: &str) -> (r: Option<Device>)
        ensures
            r is Some <==> exists|i: int| first_named(self@, name, i),
            forall|i: int| first_named(self@, name, i) ==> r == Some(self@[i]),
    {
        let mut i: usize = 0;
        while i < self.devices.len()
            invariant
                i <= self@.len(),
                forall|j: int| 0 <= j < i ==> (#[trigger] self@[j]).name.spec_bytes() != name.spec_bytes(),
            decreases self@.len() - i,
        {
            if names_equal(self.devices[i].name, name) {
                proof {
                    assert(first_named(self@, name, i as int));
                    assert forall|k: int| first_named(self@, name, k) implies k == i by {
                        if k < i {
                            assert(self@[k].name.spec_bytes() != name.spec_bytes());
                        } else if k > i {
                            assert(self@[i as int].name.spec_bytes() != name.spec_bytes());
                        }
                    }
                }
                return Some(self.devices[i]);
            }
            i = i + 1;
        }
        None
    }

    /// The devices on `bus`, in registration order.
    pub fn find_by_bus(&self, bus: BusType) -> (r: Vec<Device>)
        ensures
            r@ == on_bus(self@, bus),
    {
        let mut r: Vec<Device> = Vec::new();
        let mut i: usize = 0;
        while i < self.devices.len()
            invariant
                i <= self@.len(),
                r@ == on_bus(self@.subrange(0, i as int), bus),
            decreases self@.len() - i,
        {
            let d = self.devices[i];
            proof {
                let s = self@.subrange(0, i as int);
                assert(self@.subrange(0, i + 1) =~= s.push(d));
                s.lemma_filter_push(d, |x: Device| x.bus == bus);
            }
            if d.bus == bus {
                r.push(d);
            }
            i = i + 1;
        }
        assert(self@.subrange(0, self@.len() as int) =~= self@);
        r
    }
}

/// Register `device`; it is dropped when the registry is full.
pub fn device_register(tree: &mut DeviceRegistry, device: Device)
    requires
        old(tree).wf(),
    ensures
        final(tree).wf(),
        old(tree)@.len() < MAX_DEVICES ==> final(tree)@ == old(tree)@.push(device),
        old(tree)@.len() >= MAX_DEVICES ==> final(tree)@ == old(tree)@,
{
    let _ = tree.register(device);
}

/// Number of registered devices.
pub fn device_count(tree: &DeviceRegistry) -> (r: usize)
    ensures
        r == tree@.len(),
{
    tree.len()
}

/// The first device registered under `name`.
pub fn find_device_by_name(tree: &DeviceRegistry, name: &str) -> (r: Option<Device>)
    ensures
        r is Some <==> exists|i: int| first_named(tree@, name, i),
        forall|i: int| first_named(tree@, name, i) ==> r == Some(tree@[i]),
{
    tree.find_by_name(name)
}

/// Every registered device, in registration order, for the caller to visit.
pub fn for_each_device(tree: &DeviceRegistry) -> (r: Vec<Device>)
    ensures
        r@ == tree@,
{
    let mut r: Vec<Device> = Vec::new();
    let mut i: usize = 0;
    while i < tree.len()
        invariant
            i <= tree@.len(),
            r@ == tree@.subrange(0, i as int),
        decreases tree@.len() - i,
    {
        let d = tree.devices[i];
        r.push(d);
        proof {
            assert(r@ =~= tree@.subrange(0, i + 1));
        }
        i = i + 1;
    }
    assert(tree@.subrange(0, tree@.len() as int) =~= tree@);
    r
}

/// The devices on `bus`, in registration order, for the caller to visit.
pub fn for_each_device_on_bus(tree: &DeviceRegistry, bus: BusType) -> (r: Vec<Device>)
    ensures
        r@ == on_bus(tree@, bus),
{
    tree.find_by_bus(bus)
}

/// Scan the platform bus: no platform device is registered yet.
pub fn scan_platform_bus(tree: &mut DeviceRegistry)
    ensures
        final(tree)@ == old(tree)@,
{
}

/// The keyboard found behind a PS/2 controller.
pub open spec fn ps2_keyboard() -> Device {
    Device {
        name: "ps2-keyboard",
        bus: BusType::PS2,
        io_base: 0x60,
        irq: Some(1u8),
        irq_affinity: None,
        driver: None,
        state: DeviceState::Detected,
    }
}

/// The virtio block device at its standard QEMU location.
pub open spec fn virtio_blk() -> Device {
    Device {
        name: "virtio-blk",
        bus: BusType::Virtio,
        io_base: 0,
        irq: None,
        irq_affinity: None,
        driver: None,
        state: DeviceState::Detected,
    }
}

/// `devices` with `d` registered, unless the registry is full.
pub open spec fn registered(devices: Seq<Device>, d: Device) -> Seq<Device> {
    if devices.len() < MAX_DEVICES { devices.push(d) } else { devices }
}

/// Scan the PS/2 bus: register the keyboard when a controller is present.
pub fn scan_ps2_bus(tree: &mut DeviceRegistry, controller_present: bool)
    requires
        old(tree).wf(),
    ensures
        final(tree).wf(),
        final(tree)@ == if controller_present { registered(old(tree)@, ps2_keyboard()) } else { old(tree)@ },
{
    if controller_present {
        let kbd_device = Device {
            name: "ps2-keyboard",
            bus: BusType::PS2,
            io_base: 0x60,
            irq: Some(1),
            irq_affinity: None,
            driver: None,
            state: DeviceState::Detected,
        };
        device_register(tree, kbd_device);
    }
}

/// Scan the PCI bus: enumeration is not implemented, nothing is registered.
pub fn scan_pci_bus(tree: &mut DeviceRegistry)
    ensures
        final(tree)@ == old(tree)@,
{
}

/// Scan the virtio bus: register the virtio block device.
pub fn scan_virtio_bus(tree: &mut DeviceRegistry)
    requires
        old(tree).wf(),
    ensures
        final(tree).wf(),
        final(tree)@ == registered(old(tree)@, virtio_blk()),
{
    let virtio = Device {
        name: "virtio-blk",
        bus: BusType::Virtio,
        io_base: 0,
        irq: None,
        irq_affinity: None,
        driver: None,
        state: DeviceState::Detected,
    };
    device_register(tree, virtio);
}

/// Scan every bus in order (platform, PS/2, PCI, virtio): the number of
/// registered devices afterwards.
pub fn init_device_tree(tree: &mut DeviceRegistry, ps2_present: bool) -> (r: usize)
    requires
        old(tree).wf(),
    ensures
        final(tree).wf(),
        final(tree)@ == registered(
            if ps2_present { registered(old(tree)@, ps2_keyboard()) } else { old(tree)@ },
            virtio_blk(),
        ),
        r == final(tree)@.len(),
{
    scan_platform_bus(tree);
    scan_ps2_bus(tree, ps2_present);
    scan_pci_bus(tree);
    scan_virtio_bus(tree);
    device_count(tree)
}

} // verus!
