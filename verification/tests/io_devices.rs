use mellos::io::bio::{
    batch_trim, submit_trim, BioOp, BioQueue, BioQueueManager, BioRequest, MAX_QUEUE_DEPTH, TARGET_QUEUE_DEPTH_NVME,
    TARGET_QUEUE_DEPTH_SATA,
};
use mellos::io::devtree::{
    device_count, device_register, find_device_by_name, for_each_device, for_each_device_on_bus, init_device_tree,
    BusType, Device, DeviceRegistry, DeviceState, MAX_DEVICES,
};
use mellos::io::irq::{
    get_all_irq_stats, get_irq_stats, handle_irq, init_ioapic_routing, ioapic_vector, is_irq_registered, mask_entry,
    max_redirects, redirect_entry, register_irq_handler, register_irq_handler_affinity, registered_irq_count,
    unmask_entry, unregister_irq_handler, IrqRegistry,
};

fn device(name: &'static str, bus: BusType, io_base: u64, irq: Option<u8>) -> Device {
    Device { name, bus, io_base, irq, irq_affinity: None, driver: None, state: DeviceState::Detected }
}

#[test]
fn test_device_registration() {
    let mut tree = DeviceRegistry::new();
    let device = Device {
        name: "test-device",
        bus: BusType::Platform,
        io_base: 0x1000,
        irq: Some(5),
        irq_affinity: None,
        driver: None,
        state: DeviceState::Detected,
    };

    device_register(&mut tree, device.clone());

    let found = find_device_by_name(&tree, "test-device");
    assert!(found.is_some());

    let found_device = found.unwrap();
    assert_eq!(found_device.name, "test-device");
    assert_eq!(found_device.bus, BusType::Platform);
    assert_eq!(found_device.io_base, 0x1000);
}

#[test]
fn test_find_devices_by_bus() {
    let mut tree = DeviceRegistry::new();
    let device1 = Device {
        name: "ps2-kbd",
        bus: BusType::PS2,
        io_base: 0x60,
        irq: Some(1),
        irq_affinity: None,
        driver: None,
        state: DeviceState::Detected,
    };

    let device2 = Device {
        name: "virtio-blk",
        bus: BusType::Virtio,
        io_base: 0,
        irq: None,
        irq_affinity: None,
        driver: None,
        state: DeviceState::Detected,
    };

    device_register(&mut tree, device1);
    device_register(&mut tree, device2);

    let mut ps2_count = 0;
    for _ in for_each_device_on_bus(&tree, BusType::PS2) {
        ps2_count += 1;
    }
    assert!(ps2_count >= 1);

    let mut virtio_count = 0;
    for _ in for_each_device_on_bus(&tree, BusType::Virtio) {
        virtio_count += 1;
    }
    assert!(virtio_count >= 1);
}

#[test]
fn registry_refuses_device_beyond_capacity() {
    let mut tree = DeviceRegistry::new();
    for _ in 0..MAX_DEVICES {
        assert!(tree.register(device("d", BusType::PCI, 0, None)).is_ok());
    }
    assert_eq!(tree.register(device("extra", BusType::PCI, 0, None)), Err("Device registry full"));
    assert_eq!(device_count(&tree), MAX_DEVICES);
    assert!(find_device_by_name(&tree, "extra").is_none());
}

#[test]
fn find_by_name_returns_first_registered() {
    let mut tree = DeviceRegistry::new();
    device_register(&mut tree, device("dup", BusType::PCI, 1, None));
    device_register(&mut tree, device("dup", BusType::PCI, 2, None));
    assert_eq!(find_device_by_name(&tree, "dup").unwrap().io_base, 1);
    assert!(find_device_by_name(&tree, "du").is_none());
    assert_eq!(for_each_device(&tree).len(), 2);
}

#[test]
fn init_device_tree_scans_buses_in_order() {
    let mut tree = DeviceRegistry::new();
    assert_eq!(init_device_tree(&mut tree, true), 2);
    let all = for_each_device(&tree);
    assert_eq!(all[0].name, "ps2-keyboard");
    assert_eq!(all[0].irq, Some(1));
    assert_eq!(all[0].io_base, 0x60);
    assert_eq!(all[1].name, "virtio-blk");
    assert_eq!(all[1].bus, BusType::Virtio);

    let mut tree2 = DeviceRegistry::new();
    assert_eq!(init_device_tree(&mut tree2, false), 1);
    assert_eq!(for_each_device(&tree2)[0].name, "virtio-blk");
}

fn read(device_id: u64, block: u64) -> BioRequest {
    BioRequest::new(BioOp::Read, device_id, block, 1, 0x8000)
}

#[test]
fn bio_request_builders() {
    let r = BioRequest::new(BioOp::Write, 3, 10, 4, 0x1000);
    assert_eq!(r.priority, 128);
    assert_eq!(r.request_id, 0);
    let r = r.with_priority(7).with_id(99);
    assert_eq!(r.priority, 7);
    assert_eq!(r.request_id, 99);
    assert_eq!(r.start_block, 10);
}

#[test]
fn bio_queue_submit_then_complete_restores_depth() {
    let mut q = BioQueue::new();
    q.init(5, 4);
    assert!(q.is_for_device(5));
    assert_eq!(q.target_depth(), 4);
    let id = q.submit(read(5, 0)).unwrap();
    assert_eq!(id, 1);
    assert_eq!(q.depth(), 1);
    assert!(q.complete(id));
    assert_eq!(q.depth(), 0);
    assert_eq!(q.submitted_count(), 1);
    assert_eq!(q.completed_count(), 1);
    assert!(!q.complete(id));
}

#[test]
fn bio_queue_refuses_beyond_target_depth() {
    let mut q = BioQueue::new();
    q.init(1, 2);
    assert_eq!(q.submit(read(1, 0)), Some(1));
    assert_eq!(q.submit(read(1, 1)), Some(2));
    assert!(!q.has_space());
    assert_eq!(q.submit(read(1, 2)), None);
    q.set_target_depth(10_000);
    assert_eq!(q.target_depth(), MAX_QUEUE_DEPTH);
    assert_eq!(q.submit(read(1, 2)), Some(3));
}

#[test]
fn bio_queue_batch_stops_at_first_refusal() {
    let mut q = BioQueue::new();
    q.init(1, 3);
    let reqs = [read(1, 0), read(1, 1), read(1, 2), read(1, 3), read(1, 4)];
    assert_eq!(q.submit_batch(&reqs), 3);
    assert_eq!(q.depth(), 3);
    q.reset();
    assert!(!q.is_in_use());
    assert_eq!(q.depth(), 0);
}

#[test]
fn bio_manager_registers_and_routes() {
    let mut m = BioQueueManager::new();
    assert_eq!(m.register_device(10, true), Some(0));
    assert_eq!(m.register_device(20, false), Some(1));
    assert_eq!(m.register_device(10, false), Some(0));
    assert_eq!(m.get_queue(10).unwrap().target_depth(), TARGET_QUEUE_DEPTH_NVME);
    assert_eq!(m.get_queue(20).unwrap().target_depth(), TARGET_QUEUE_DEPTH_SATA);
    assert!(m.get_queue(30).is_none());
    let id = m.submit(read(10, 0)).unwrap();
    assert!(m.complete(10, id));
    assert!(!m.complete(30, id));
    assert_eq!(m.submit(read(30, 0)), None);
    m.unregister_device(10);
    assert!(m.get_queue(10).is_none());
    assert_eq!(m.register_device(40, false), Some(0));
}

#[test]
fn trim_requests_go_to_device_queue() {
    let mut m = BioQueueManager::new();
    m.register_device(7, true);
    assert_eq!(submit_trim(&mut m, 7, 100, 8), Some(1));
    assert_eq!(submit_trim(&mut m, 8, 100, 8), None);
    let ranges: Vec<(u64, usize)> = (0..70).map(|i| (i as u64 * 20, 10)).collect();
    assert_eq!(batch_trim(&mut m, 7, &ranges), 64);
    assert_eq!(m.get_queue(7).unwrap().depth(), 65);
    assert_eq!(batch_trim(&mut m, 9, &ranges), 0);
}

#[test]
fn adjacent_trim_ranges_are_coalesced() {
    let mut m = BioQueueManager::new();
    m.register_device(9, false);
    assert_eq!(batch_trim(&mut m, 9, &[(0, 8), (8, 8)]), 1);
    assert_eq!(m.get_queue(9).unwrap().depth(), 1);
    let contiguous: Vec<(u64, usize)> = (0..70).map(|i| (i as u64 * 10, 10)).collect();
    assert_eq!(batch_trim(&mut m, 9, &contiguous), 1);
    assert_eq!(batch_trim(&mut m, 9, &[(0, 8), (100, 8), (108, 2)]), 2);
}

#[test]
fn irq_registration_requires_ioapic() {
    let mut reg: IrqRegistry<u32> = IrqRegistry::new();
    assert_eq!(
        register_irq_handler(&mut reg, 1, 11),
        Err("IOAPIC not initialized - call init_ioapic_routing() first")
    );
    assert!(init_ioapic_routing(&mut reg));
    assert!(!init_ioapic_routing(&mut reg));
    assert_eq!(register_irq_handler(&mut reg, 1, 11), Ok(0));
    assert_eq!(register_irq_handler(&mut reg, 1, 12), Err("IRQ already registered"));
    assert_eq!(register_irq_handler_affinity(&mut reg, 4, 14, Some(3)), Ok(3));
    assert!(is_irq_registered(&reg, 1));
    assert_eq!(registered_irq_count(&reg), 2);
    unregister_irq_handler(&mut reg, 1);
    assert!(!is_irq_registered(&reg, 1));
    assert_eq!(registered_irq_count(&reg), 1);
}

#[test]
fn irq_dispatch_counts_per_cpu() {
    let mut reg: IrqRegistry<u32> = IrqRegistry::new();
    init_ioapic_routing(&mut reg);
    register_irq_handler(&mut reg, 9, 99).unwrap();
    assert_eq!(handle_irq(&mut reg, 9, 2), Some(99));
    assert_eq!(handle_irq(&mut reg, 9, 2), Some(99));
    assert_eq!(handle_irq(&mut reg, 9, 20), Some(99));
    assert_eq!(handle_irq(&mut reg, 3, 0), None);
    let mut stats = [7u64; 8];
    assert!(get_irq_stats(&reg, 9, &mut stats));
    assert_eq!(stats, [0, 0, 2, 0, 0, 0, 0, 0]);
    let mut other = [7u64; 8];
    assert!(!get_irq_stats(&reg, 3, &mut other));
    assert_eq!(other, [7u64; 8]);
    register_irq_handler(&mut reg, 2, 22).unwrap();
    let mut buf = [(0u8, [0u64; 8]); 4];
    assert_eq!(get_all_irq_stats(&reg, &mut buf, 4), 2);
    assert_eq!(buf[0].0, 2);
    assert_eq!(buf[1].0, 9);
    assert_eq!(buf[1].1[2], 2);
    let mut one = [(0u8, [0u64; 8]); 1];
    assert_eq!(get_all_irq_stats(&reg, &mut one, 1), 1);
    assert_eq!(one[0].0, 2);
}

#[test]
fn ioapic_register_values() {
    assert_eq!(ioapic_vector(1), 33);
    let w = redirect_entry(1, 33, 2);
    assert_eq!(w.low_reg, 0x12);
    assert_eq!(w.high_reg, 0x13);
    assert_eq!(w.low_value, 33);
    assert_eq!(w.high_value, 0);
    assert_eq!(mask_entry(0x21), 0x10021);
    assert_eq!(unmask_entry(0x10021), 0x21);
    assert_eq!(max_redirects(0x0017_0011), 0x17);
}
