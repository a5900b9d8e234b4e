use usb_boot_core::bridge::{
    add_scancode, deliver_uninitialized, DeliverOutcome, PollByte, ScancodeQueue, ScancodeStream,
    SCANCODE_QUEUE_CAPACITY,
};
use usb_boot_core::controller::{
    probe_controller, reset_ehci_controller, InMemoryDevice, EHCI_USBCMD_OFFSET, USB_CMD_RESET,
};
use usb_boot_core::frames::{
    BootInfoFrameAllocator, EmptyFrameAllocator, MemoryRegion, RegionKind,
};
use usb_boot_core::line::{LineAction, LineBuffer, LINE_BUFFER_CAPACITY};
use usb_boot_core::mapping::{
    map_mmio_region, virt_to_phys, InMemoryMapper, MappingError, EHCI_MMIO_VADDR,
};
use usb_boot_core::pci::{
    find_ehci_controller, pci_config_address, pci_read_config_byte, pci_read_config_word,
    SynthDevice, SyntheticConfigSpace,
};

fn ehci_device(bus: u8, slot: u8, func: u8) -> SynthDevice {
    SynthDevice {
        bus,
        slot,
        func,
        vendor_id: 0x8086,
        device_id: 0x2937,
        class_code: 0x0C,
        subclass: 0x03,
        prog_if: 0x20,
        header_type: 0x80,
        bar0: 0xF000_0000,
    }
}

fn other_device(bus: u8, slot: u8, func: u8, header_type: u8) -> SynthDevice {
    SynthDevice {
        bus,
        slot,
        func,
        vendor_id: 0x1234,
        device_id: 0x5678,
        class_code: 0x02,
        subclass: 0x00,
        prog_if: 0x00,
        header_type,
        bar0: 0,
    }
}

#[test]
fn config_address_composition() {
    assert_eq!(pci_config_address(1, 2, 3, 0x11), 0x8001_1310);
    assert_eq!(pci_config_address(0, 0, 0, 0x00), 0x8000_0000);
    assert_eq!(pci_config_address(255, 31, 7, 0xFC), 0x80FF_FFFC);
}

#[test]
fn config_word_and_byte_extraction() {
    let mut space = SyntheticConfigSpace::new(vec![ehci_device(0, 0, 0)]);
    assert_eq!(pci_read_config_word(&mut space, 0, 0, 0, 0x00), 0x8086);
    assert_eq!(pci_read_config_word(&mut space, 0, 0, 0, 0x02), 0x2937);
    assert_eq!(pci_read_config_byte(&mut space, 0, 0, 0, 0x0B), 0x0C);
    assert_eq!(pci_read_config_byte(&mut space, 0, 0, 0, 0x0A), 0x03);
    assert_eq!(pci_read_config_byte(&mut space, 0, 0, 0, 0x09), 0x20);
    assert_eq!(pci_read_config_byte(&mut space, 0, 0, 0, 0x0E), 0x80);
    // an empty location answers all-ones
    assert_eq!(pci_read_config_word(&mut space, 1, 0, 0, 0x00), 0xFFFF);
}

#[test]
fn find_single_match_returns_injected_identity() {
    let mut space = SyntheticConfigSpace::new(vec![
        other_device(0, 0, 0, 0x80),
        ehci_device(0, 4, 0),
    ]);
    let d = find_ehci_controller(&mut space).expect("controller present");
    assert_eq!(d.bus, 0);
    assert_eq!(d.slot, 4);
    assert_eq!(d.func, 0);
    assert_eq!(d.vendor_id, 0x8086);
    assert_eq!(d.device_id, 0x2937);
    assert_eq!(d.class_code, 0x0C);
    assert_eq!(d.subclass, 0x03);
    assert_eq!(d.prog_if, 0x20);
    assert_eq!(d.bar0, 0xF000_0000);
}

#[test]
fn find_on_empty_space_visits_every_location_once() {
    let mut space = SyntheticConfigSpace::new(vec![]);
    assert!(find_ehci_controller(&mut space).is_none());
    // one vendor read for each of the 256 * 32 * 8 locations
    assert_eq!(space.reads, 65536);
}

#[test]
fn find_first_match_in_scan_order_wins() {
    let mut space = SyntheticConfigSpace::new(vec![
        ehci_device(3, 0, 0),
        ehci_device(1, 2, 0),
    ]);
    let d = find_ehci_controller(&mut space).expect("controller present");
    assert_eq!((d.bus, d.slot, d.func), (1, 2, 0));
}

#[test]
fn single_function_slot_skips_higher_functions() {
    // function 0 answers and declares the slot single-function, so the
    // matching device on function 3 is never queried
    let mut hidden = SyntheticConfigSpace::new(vec![
        other_device(0, 0, 0, 0x00),
        ehci_device(0, 0, 3),
    ]);
    assert!(find_ehci_controller(&mut hidden).is_none());
    // slot (0,0): vendor + class triple + header type = 5 reads; functions
    // 1-7 untouched; every other location: one vendor read
    assert_eq!(hidden.reads, 5 + (65536 - 8));

    // the same slot marked multi-function is scanned past function 0
    let mut visible = SyntheticConfigSpace::new(vec![
        other_device(0, 0, 0, 0x80),
        ehci_device(0, 0, 3),
    ]);
    let d = find_ehci_controller(&mut visible).expect("controller present");
    assert_eq!((d.bus, d.slot, d.func), (0, 0, 3));
    // slot (0,0): 5 reads on function 0, one vendor read each on functions
    // 1 and 2, then vendor + class triple + device id + bar0 on function 3
    assert_eq!(visible.reads, 5 + 2 + 6);
}

fn test_regions() -> Vec<MemoryRegion> {
    vec![
        MemoryRegion { start: 0x1000, end: 0x4000, kind: RegionKind::Usable },
        MemoryRegion { start: 0x4000, end: 0x5000, kind: RegionKind::Reserved },
        MemoryRegion { start: 0x8000, end: 0xA000, kind: RegionKind::Usable },
    ]
}

#[test]
fn allocator_hands_out_each_usable_frame_once() {
    let mut alloc = BootInfoFrameAllocator::init(test_regions());
    let expected = [0x1000u64, 0x2000, 0x3000, 0x8000, 0x9000];
    let mut got = Vec::new();
    for _ in 0..expected.len() {
        got.push(alloc.allocate_frame().expect("usable frame left"));
    }
    assert_eq!(got, expected);
    // strictly increasing, no repeats
    for w in got.windows(2) {
        assert!(w[0] < w[1]);
    }
    // the (N+1)-th call and every later one fails
    assert!(alloc.allocate_frame().is_none());
    assert!(alloc.allocate_frame().is_none());
}

#[test]
fn empty_allocator_never_allocates() {
    let mut alloc = EmptyFrameAllocator;
    assert!(alloc.allocate_frame().is_none());
}

#[test]
fn mapping_reports_fixed_virtual_address() {
    let mut mapper = InMemoryMapper::new();
    let mut alloc = BootInfoFrameAllocator::init(test_regions());
    let virt = map_mmio_region(0xF000_0123, &mut mapper, &mut alloc).expect("mapping installed");
    assert_eq!(virt, EHCI_MMIO_VADDR);
    assert_eq!(virt, 0xFE00_0000);
}

#[test]
fn second_mapping_fails_deterministically() {
    let mut mapper = InMemoryMapper::new();
    let mut alloc = BootInfoFrameAllocator::init(test_regions());
    map_mmio_region(0xF000_0000, &mut mapper, &mut alloc).expect("first mapping installed");
    let second = map_mmio_region(0xF000_0000, &mut mapper, &mut alloc);
    assert_eq!(second, Err(MappingError::PageAlreadyMapped));
    let other = map_mmio_region(0xD000_0000, &mut mapper, &mut alloc);
    assert_eq!(other, Err(MappingError::PageAlreadyMapped));
}

#[test]
fn mapping_fails_when_frames_run_out() {
    let mut mapper = InMemoryMapper::new();
    let mut alloc = BootInfoFrameAllocator::init(vec![]);
    let r = map_mmio_region(0xF000_0000, &mut mapper, &mut alloc);
    assert_eq!(r, Err(MappingError::FrameAllocationFailed));
}

fn capability_regs() -> Vec<u8> {
    let mut regs = vec![0u8; 64];
    regs[0x00] = 0x20; // CAPLENGTH
    regs[0x02] = 0x00; // HCIVERSION low
    regs[0x03] = 0x01; // HCIVERSION high
    regs[0x04] = 0x12; // HCSPARAMS
    regs[0x05] = 0x34;
    regs[0x06] = 0x56;
    regs[0x07] = 0x78;
    regs[0x08] = 0xAA; // HCCPARAMS
    regs[0x09] = 0xBB;
    regs[0x0A] = 0xCC;
    regs[0x0B] = 0xDD;
    regs
}

#[test]
fn probe_reads_documented_registers() {
    let mut dev = InMemoryDevice::new(capability_regs(), 0);
    let report = probe_controller(&mut dev);
    assert_eq!(report.caplength, 0x20);
    assert_eq!(report.hciversion, 0x0100);
    assert_eq!(report.hcsparams, 0x7856_3412);
    assert_eq!(report.hccparams, 0xDDCC_BBAA);
}

#[test]
fn reset_polls_until_bit_clears() {
    let mut dev = InMemoryDevice::new(capability_regs(), 3);
    let last = reset_ehci_controller(&mut dev);
    assert_eq!(last & USB_CMD_RESET, 0);
    // the poll budget was really consumed and the bit really cleared
    assert_eq!(dev.polls_until_clear, 0);
    assert_eq!(dev.regs[0x20] & 0x02, 0);
    // and the probe values survived the reset polling
    let report = probe_controller(&mut dev);
    assert_eq!(report.caplength, 0x20);
    assert_eq!(report.hciversion, 0x0100);
}

#[test]
fn end_to_end_discover_map_probe_reset() {
    // inject the controller, then drive it through map, probe and reset
    let mut space = SyntheticConfigSpace::new(vec![ehci_device(0, 4, 0)]);
    let d = find_ehci_controller(&mut space).expect("controller present");
    assert_eq!((d.class_code, d.subclass, d.prog_if), (0x0C, 0x03, 0x20));
    assert_eq!((d.vendor_id, d.device_id), (0x8086, 0x2937));
    assert_eq!(d.bar0, 0xF000_0000);

    let mut mapper = InMemoryMapper::new();
    let mut alloc = BootInfoFrameAllocator::init(test_regions());
    let virt = map_mmio_region(d.bar0 as u64, &mut mapper, &mut alloc).expect("mapping installed");
    assert_eq!(virt, 0xFE00_0000);

    let mut dev = InMemoryDevice::new(capability_regs(), 4);
    let report = probe_controller(&mut dev);
    assert_eq!(report.caplength, 0x20);
    assert_eq!(report.hciversion, 0x0100);
    assert_eq!(report.hcsparams, 0x7856_3412);
    assert_eq!(report.hccparams, 0xDDCC_BBAA);

    let last = reset_ehci_controller(&mut dev);
    assert_eq!(last & USB_CMD_RESET, 0);
    // the mock really saw the reset bit arrive at the command register
    assert_eq!(EHCI_USBCMD_OFFSET, 0x20);
}

#[test]
fn bridge_overflow_drops_newest_byte() {
    let mut bridge = ScancodeQueue::new();
    assert_eq!(bridge.buffered(), 0);
    for i in 0..SCANCODE_QUEUE_CAPACITY {
        assert_eq!(add_scancode(&mut bridge, i as u8), DeliverOutcome::Delivered);
    }
    assert_eq!(bridge.buffered(), SCANCODE_QUEUE_CAPACITY);
    // capacity C is buffered; the (C+1)-th delivery is dropped
    assert_eq!(add_scancode(&mut bridge, 0xEE), DeliverOutcome::DroppedFull);
    assert_eq!(bridge.buffered(), SCANCODE_QUEUE_CAPACITY);
    // the buffered bytes are still the first C, in order
    let waker = futures_util::task::noop_waker();
    let mut stream = ScancodeStream::new();
    for i in 0..SCANCODE_QUEUE_CAPACITY {
        assert_eq!(stream.poll_next(&mut bridge, &waker), PollByte::Ready(i as u8));
    }
    assert_eq!(stream.poll_next(&mut bridge, &waker), PollByte::Pending);
}

#[test]
fn delivery_before_initialization_is_dropped() {
    assert_eq!(deliver_uninitialized(0x2A), DeliverOutcome::DroppedUninitialized);
}

#[test]
fn poll_sees_delivery_racing_with_registration() {
    let waker = futures_util::task::noop_waker();
    let mut bridge = ScancodeQueue::new();
    let mut stream = ScancodeStream::new();
    // the consumer finds the queue empty and suspends with its waker
    // registered
    assert_eq!(stream.poll_next(&mut bridge, &waker), PollByte::Pending);
    // a delivery lands; it wakes the registered consumer
    assert_eq!(add_scancode(&mut bridge, 0x1C), DeliverOutcome::Delivered);
    // the consumer's very next poll observes the byte: nothing is stranded
    assert_eq!(stream.poll_next(&mut bridge, &waker), PollByte::Ready(0x1C));
    assert_eq!(stream.poll_next(&mut bridge, &waker), PollByte::Pending);
}

#[test]
fn bridge_is_first_in_first_out() {
    let waker = futures_util::task::noop_waker();
    let mut bridge = ScancodeQueue::new();
    let mut stream = ScancodeStream::new();
    add_scancode(&mut bridge, 1);
    add_scancode(&mut bridge, 2);
    add_scancode(&mut bridge, 3);
    assert_eq!(stream.poll_next(&mut bridge, &waker), PollByte::Ready(1));
    assert_eq!(stream.poll_next(&mut bridge, &waker), PollByte::Ready(2));
    assert_eq!(stream.poll_next(&mut bridge, &waker), PollByte::Ready(3));
}

#[test]
fn line_editor_submits_edited_line() {
    let mut buf = LineBuffer::new();
    assert_eq!(buf.press_key('a'), LineAction::Echo('a'));
    assert_eq!(buf.press_key('b'), LineAction::Echo('b'));
    assert_eq!(buf.press_key('\x08'), LineAction::EraseLast);
    assert_eq!(buf.press_key('c'), LineAction::Echo('c'));
    match buf.press_key('\n') {
        LineAction::Submit(line) => assert_eq!(line, b"ac".to_vec()),
        other => panic!("expected a submitted line, got {:?}", other),
    }
    // the buffer starts over after a submit
    match buf.press_key('\n') {
        LineAction::Submit(line) => assert!(line.is_empty()),
        other => panic!("expected a submitted line, got {:?}", other),
    }
}

#[test]
fn line_editor_ignores_controls_and_overflow() {
    let mut buf = LineBuffer::new();
    assert_eq!(buf.press_key('\x08'), LineAction::Ignore);
    assert_eq!(buf.press_key('\t'), LineAction::Ignore);
    assert_eq!(buf.press_key('\x1B'), LineAction::Ignore);
    for _ in 0..LINE_BUFFER_CAPACITY {
        assert_eq!(buf.press_key('x'), LineAction::Echo('x'));
    }
    // a printable key on a full buffer changes nothing
    assert_eq!(buf.press_key('y'), LineAction::Ignore);
    match buf.press_key('\n') {
        LineAction::Submit(line) => assert_eq!(line.len(), LINE_BUFFER_CAPACITY),
        other => panic!("expected a submitted line, got {:?}", other),
    }
}

#[test]
fn virt_to_phys_subtracts_window_offset() {
    assert_eq!(virt_to_phys(0x1000_2000, 0x1000_0000), Some(0x2000));
    assert_eq!(virt_to_phys(0x1000_0000, 0x1000_0000), Some(0));
    assert_eq!(virt_to_phys(0x0FFF_FFFF, 0x1000_0000), None);
}
