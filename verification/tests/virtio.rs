use the_rack::fdt::{probe as probe_header, Blob, MAGIC as FDT_MAGIC};
use the_rack::frames::{alloc_frame, free_frames, init, Allocator};
use the_rack::memory::Memory;
use the_rack::virtio::{
    describe, device_features, device_name, find, probe, transports, Discovery, Error, Phase,
    Transport, DEVICE_ENTROPY, MAGIC, VERSION, VIRTIO_F_VERSION_1,
};
use the_rack::virtqueue::{Buffer, Error as QueueError, Queue, QUEUE_SIZE};

const RAM: u64 = 0x4000_0000;

fn ring_machine() -> (Allocator, Memory) {
    (init(RAM, 0x10_0000, RAM + 0x4000), Memory::new(RAM, 0x10_0000))
}

/// A device that answers a handshake: what it offers, what it keeps, and the
/// registers written to it.
struct Device {
    status: u32,
    slow: u32,
    select: u32,
    offers: u64,
    keeps: bool,
    accepted: [u32; 2],
    driver_select: u32,
    statuses: Vec<u32>,
}

impl Device {
    fn new(offers: u64, keeps: bool) -> Self {
        Device {
            status: 99,
            slow: 2,
            select: 0,
            offers,
            keeps,
            accepted: [0; 2],
            driver_select: 0,
            statuses: Vec::new(),
        }
    }

    fn write(&mut self, offset: u64, value: u32) {
        match offset {
            0x014 => self.select = value,
            0x020 => self.accepted[self.driver_select as usize] = value,
            0x024 => self.driver_select = value,
            0x070 => {
                self.statuses.push(value);
                self.status = if value & 8 != 0 && !self.keeps { value & !8 } else { value };
            }
            _ => panic!("no such register"),
        }
    }

    fn read(&mut self, offset: u64) -> u32 {
        match offset {
            0x010 => (self.offers >> (32 * self.select)) as u32,
            0x070 => {
                if self.status == 0 && self.slow > 0 {
                    self.slow -= 1;
                    return 5;
                }
                self.status
            }
            _ => panic!("no such register"),
        }
    }

    fn handshake(&mut self, wanted: u64) -> Phase {
        let transport = Transport { base: 0xa00_0000, intid: 48, device_id: 4, features: 0 };
        let mut ask = transport.reset();
        let mut phase = Phase::Resetting;
        loop {
            for write in &ask.writes {
                self.write(write.offset, write.value);
            }
            let Some(register) = ask.read else {
                return phase;
            };
            let value = self.read(register);
            (phase, ask) = transport.negotiate(phase, wanted, value);
        }
    }
}

#[test]
fn a_device_that_keeps_the_agreement_is_agreed_with() {
    let mut device = Device::new(VIRTIO_F_VERSION_1 | 0b1011, true);
    let phase = device.handshake(0b0110);
    assert_eq!(phase, Phase::Agreed { agreed: VIRTIO_F_VERSION_1 | 0b0010 });
    assert_eq!(device.accepted, [0b0010, 1]);
    assert_eq!(device.statuses, vec![0, 1, 3, 11]);
    assert_eq!(device.status & 8, 8);
}

#[test]
fn the_bare_specification_is_enough() {
    let mut device = Device::new(VIRTIO_F_VERSION_1, true);
    assert_eq!(device.handshake(0), Phase::Agreed { agreed: VIRTIO_F_VERSION_1 });
}

#[test]
fn a_legacy_device_is_given_up_on() {
    let mut device = Device::new(0xffff, true);
    assert_eq!(device.handshake(0), Phase::Failed { error: Error::Legacy });
    assert_eq!(device.statuses, vec![0, 1, 3, 128]);
}

#[test]
fn a_device_that_drops_the_agreement_is_given_up_on() {
    let mut device = Device::new(VIRTIO_F_VERSION_1, false);
    assert_eq!(device.handshake(0), Phase::Failed { error: Error::FeaturesRefused });
    assert_eq!(device.statuses, vec![0, 1, 3, 11, 128]);
}

#[test]
fn registers_say_whether_there_is_a_transport() {
    assert_eq!(
        probe(0xa00_0000, 48, 0x1234, VERSION, 4, 0),
        Err(Error::NotVirtio(0x1234))
    );
    assert_eq!(probe(0xa00_0000, 48, MAGIC, 1, 4, 0), Err(Error::WrongVersion(1)));
    let transport = probe(0xa00_0000, 48, MAGIC, VERSION, 4, device_features(1, 7)).unwrap();
    assert_eq!(transport.features, 0x1_0000_0007);
    assert_eq!(transport.status(), 0xa00_0070);
    assert_eq!(transport.set_driver_ok().value, 15);
    assert_eq!(transport.ack_interrupt(1).offset, 0x064);
}

#[test]
fn devices_have_names() {
    assert_eq!(device_name(0), "empty");
    assert_eq!(device_name(1), "network");
    assert_eq!(device_name(2), "block");
    assert_eq!(device_name(3), "console");
    assert_eq!(device_name(4), "entropy");
    assert_eq!(device_name(16), "gpu");
    assert_eq!(device_name(18), "input");
    assert_eq!(device_name(99), "unknown");
}

/// A tree with a transport node for each of these interrupts.
fn transport_tree(interrupts: &[[u32; 3]]) -> Vec<u8> {
    let strings = b"compatible\0reg\0interrupts\0#address-cells\0#size-cells\0";
    let mut bytes = vec![0u8; 40];
    let word = |bytes: &mut Vec<u8>, value: u32| bytes.extend_from_slice(&value.to_be_bytes());
    let prop = |bytes: &mut Vec<u8>, name: u32, value: &[u8]| {
        bytes.extend_from_slice(&3u32.to_be_bytes());
        bytes.extend_from_slice(&(value.len() as u32).to_be_bytes());
        bytes.extend_from_slice(&name.to_be_bytes());
        bytes.extend_from_slice(value);
        while bytes.len() % 4 != 0 {
            bytes.push(0);
        }
    };
    word(&mut bytes, 1);
    word(&mut bytes, 0);
    prop(&mut bytes, 26, &2u32.to_be_bytes());
    prop(&mut bytes, 41, &2u32.to_be_bytes());
    for (index, cells) in interrupts.iter().enumerate() {
        word(&mut bytes, 1);
        bytes.extend_from_slice(b"v@");
        bytes.push(b'a' + (index % 26) as u8);
        bytes.push(0);
        prop(&mut bytes, 0, b"virtio,mmio\0");
        let mut window = (0xa00_0000u64 + 0x200 * index as u64).to_be_bytes().to_vec();
        window.extend_from_slice(&0x200u64.to_be_bytes());
        prop(&mut bytes, 11, &window);
        let mut value = Vec::new();
        for cell in cells {
            value.extend_from_slice(&cell.to_be_bytes());
        }
        prop(&mut bytes, 15, &value);
        word(&mut bytes, 2);
    }
    word(&mut bytes, 2);
    word(&mut bytes, 9);
    let size = bytes.len() as u32 - 40;
    let at = bytes.len() as u32;
    bytes.extend_from_slice(strings);
    let header = [
        FDT_MAGIC,
        bytes.len() as u32,
        40,
        at,
        40,
        17,
        16,
        0,
        strings.len() as u32,
        size,
    ];
    for (index, field) in header.iter().enumerate() {
        bytes[index * 4..index * 4 + 4].copy_from_slice(&field.to_be_bytes());
    }
    bytes
}

fn transport_blob(bytes: &[u8]) -> Blob<'_> {
    Blob { pa: 0, va: 8, header: probe_header(8, bytes).unwrap(), data: bytes }
}

#[test]
fn interrupts_are_renumbered_for_the_controller() {
    let bytes = transport_tree(&[[0, 16, 1], [1, 14, 1], [2, 3, 1], [0, u32::MAX, 1]]);
    let blob = transport_blob(&bytes);
    let mut d = Discovery::new();
    let mut seen = Vec::new();
    while let Some(node) = d.next(&blob) {
        seen.push(describe(&blob, &node));
        d.note(&node, None);
    }
    assert_eq!(
        seen,
        vec![
            Some((0xa00_0000, 0x200, 48)),
            Some((0xa00_0200, 0x200, 30)),
            None,
            None,
        ]
    );
    assert_eq!(d.slots, 4);
    assert!(transports(&d).is_empty());
}

#[test]
fn occupied_slots_are_recorded_and_empty_ones_are_not() {
    let bytes = transport_tree(&[[0, 16, 1], [0, 17, 1], [0, 18, 1]]);
    let blob = transport_blob(&bytes);
    let mut d = Discovery::new();
    let ids = [0, DEVICE_ENTROPY, 2];
    let mut n = 0;
    while let Some(node) = d.next(&blob) {
        let (base, _, intid) = describe(&blob, &node).unwrap();
        d.note(&node, Some(probe(base, intid, MAGIC, VERSION, ids[n], 0)));
        n += 1;
    }
    assert_eq!((d.slots, transports(&d).len()), (3, 2));
    assert_eq!(find(&d, DEVICE_ENTROPY).unwrap().intid, 49);
    assert_eq!(find(&d, 2).unwrap().intid, 50);
    assert_eq!(find(&d, 1), None);
}

#[test]
fn no_more_slots_are_looked_at_than_there_is_room_for() {
    let many: Vec<[u32; 3]> = (0..40).map(|n| [0, n, 1]).collect();
    let bytes = transport_tree(&many);
    let blob = transport_blob(&bytes);
    let mut d = Discovery::new();
    while let Some(node) = d.next(&blob) {
        d.note(&node, Some(Err(Error::NotVirtio(0))));
    }
    assert_eq!(d.slots, 32);
}

/// What a device does with the request at place `n` of the available ring.
fn complete(memory: &mut Memory, queue: &Queue, n: u64, written: u32) {
    let frame = queue.frame.addr();
    let head = memory.read_u16(frame + 256 + 4 + (n % 16) * 2);
    memory.write_u32(frame + 512 + 4 + (n % 16) * 8, head as u32);
    memory.write_u32(frame + 512 + 4 + (n % 16) * 8 + 4, written);
    memory.write_u16(frame + 512 + 2, (n + 1) as u16);
}

#[test]
fn a_queue_points_the_device_at_its_rings() {
    let (mut a, mut memory) = ring_machine();
    let (queue, writes) = Queue::new(&mut a, &mut memory, 1024).ok().unwrap();
    assert_eq!(queue.free(), QUEUE_SIZE);
    let pa = RAM + 0x4000;
    assert_eq!(queue.frame.addr(), pa);
    let list: Vec<(u64, u32)> = writes.iter().map(|w| (w.offset, w.value)).collect();
    assert_eq!(
        list,
        vec![
            (0x038, 16),
            (0x080, pa as u32),
            (0x084, 0),
            (0x090, (pa + 256) as u32),
            (0x094, 0),
            (0x0a0, (pa + 512) as u32),
            (0x0a4, 0),
            (0x044, 1),
        ]
    );
    assert_eq!((Queue::select(3).offset, Queue::select(3).value), (0x030, 3));
    assert_eq!((Queue::notify(3).offset, Queue::notify(3).value), (0x050, 3));
}

#[test]
fn a_queue_that_is_too_small_is_refused() {
    let (mut a, mut memory) = ring_machine();
    let before = free_frames(&a);
    assert_eq!(Queue::new(&mut a, &mut memory, 15).err(), Some(QueueError::TooSmall(15)));
    assert_eq!(free_frames(&a), before);
}

#[test]
fn a_queue_without_memory_is_refused() {
    let mut a = init(RAM, 0x1000, RAM + 0x1000);
    let mut memory = Memory::new(RAM, 0x1000);
    assert_eq!(Queue::new(&mut a, &mut memory, 16).err(), Some(QueueError::NoMemory));
}

#[test]
fn a_request_goes_out_and_comes_back() {
    let (mut a, mut memory) = ring_machine();
    let before = free_frames(&a);
    let (mut queue, _) = Queue::new(&mut a, &mut memory, 16).ok().unwrap();
    let buffer = alloc_frame(&mut a, &mut memory).unwrap();
    let sample = 16;
    let head = queue
        .add(
            &mut memory,
            &[Buffer { pa: buffer.addr(), len: sample, device_writes: true }],
        )
        .unwrap();
    assert_eq!(head, 0);
    assert_eq!(queue.free(), QUEUE_SIZE - 1);
    let frame = queue.frame.addr();
    assert_eq!(memory.read_u64(frame), buffer.addr());
    assert_eq!(memory.read_u32(frame + 8), sample);
    assert_eq!(memory.read_u16(frame + 12), 2);
    assert_eq!(memory.read_u16(frame + 256 + 2), 1);
    assert_eq!(queue.take_used(&mut memory), None);

    complete(&mut memory, &queue, 0, 9);
    assert_eq!(queue.take_used(&mut memory), Some((head, 9)));
    assert_eq!(queue.free(), QUEUE_SIZE);
    assert_eq!(queue.take_used(&mut memory), None);

    let (select, stop) = Queue::stop(0);
    assert_eq!((select.offset, select.value), (0x030, 0));
    assert_eq!((stop.offset, stop.value), (0x044, 0));
    queue.release(&mut a);
    assert_eq!(free_frames(&a), before - 1);
}

#[test]
fn a_chain_says_where_it_ends() {
    let (mut a, mut memory) = ring_machine();
    let (mut queue, _) = Queue::new(&mut a, &mut memory, 16).ok().unwrap();
    let buffers = [
        Buffer { pa: 0x1000, len: 16, device_writes: false },
        Buffer { pa: 0x2000, len: 512, device_writes: true },
        Buffer { pa: 0x3000, len: 1, device_writes: true },
    ];
    assert_eq!(queue.add(&mut memory, &buffers), Ok(0));
    let frame = queue.frame.addr();
    let flags: Vec<u16> = (0..3).map(|i| memory.read_u16(frame + 16 * i + 12)).collect();
    assert_eq!(flags, vec![1, 3, 2]);
    assert_eq!(memory.read_u16(frame + 14), 1);
    assert_eq!(memory.read_u16(frame + 16 + 14), 2);
    assert_eq!(queue.free(), 13);
    assert_eq!(queue.add(&mut memory, &buffers[..1]), Ok(3));
    // The later one finishes first.
    complete(&mut memory, &queue, 0, 0);
    memory.write_u32(frame + 516, 3);
    assert_eq!(queue.take_used(&mut memory), Some((3, 0)));
    assert_eq!(queue.free(), 13);
    assert_eq!(queue.add(&mut memory, &buffers[..1]), Ok(3));
}

#[test]
fn a_request_needs_buffers_and_room() {
    let (mut a, mut memory) = ring_machine();
    let (mut queue, _) = Queue::new(&mut a, &mut memory, 16).ok().unwrap();
    let buffer = Buffer { pa: 0x1000, len: 1, device_writes: false };
    assert_eq!(queue.add(&mut memory, &[]), Err(QueueError::Empty));
    assert_eq!(queue.add(&mut memory, &[buffer; 17]), Err(QueueError::Full));
    assert_eq!(queue.add(&mut memory, &[buffer; 16]), Ok(0));
    assert_eq!(queue.free(), 0);
    assert_eq!(queue.add(&mut memory, &[buffer]), Err(QueueError::Full));
    complete(&mut memory, &queue, 0, 0);
    assert_eq!(queue.take_used(&mut memory), Some((0, 0)));
    assert_eq!(queue.free(), 16);
}

#[test]
fn the_indices_wrap_and_no_descriptor_is_lost() {
    let (mut a, mut memory) = ring_machine();
    let (mut queue, _) = Queue::new(&mut a, &mut memory, 16).ok().unwrap();
    let buffer = Buffer { pa: 0x1000, len: 1, device_writes: true };
    for n in 0..70_000u64 {
        let head = queue.add(&mut memory, &[buffer, buffer]).unwrap();
        assert_eq!(queue.free(), 14);
        complete(&mut memory, &queue, n, 2);
        assert_eq!(queue.take_used(&mut memory), Some((head, 2)));
        assert_eq!(queue.free(), 16);
    }
}

#[test]
fn a_device_that_makes_requests_up_is_not_believed() {
    let (mut a, mut memory) = ring_machine();
    let (mut queue, _) = Queue::new(&mut a, &mut memory, 16).unwrap();
    let buffer = Buffer { pa: 0x4008_0000, len: 4, device_writes: true };
    assert!(queue.answers(&memory));
    assert_eq!(queue.add(&mut memory, &[buffer, buffer]), Ok(0));
    assert!(queue.answers(&memory));
    let used = queue.frame.addr() + 512;
    memory.write_u16(used + 2, 1);
    for (named, answers) in [(0, true), (1, false), (2, false), (16, false), (0xffff, false)] {
        memory.write_u32(used + 4, named);
        assert_eq!(queue.answers(&memory), answers);
    }
    memory.write_u32(used + 4, 0);
    assert_eq!(queue.take_used(&mut memory), Some((0, 0)));
    assert!(queue.answers(&memory));
}
