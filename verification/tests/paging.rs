use the_rack::frames::{alloc_frame, free_frames, init, Allocator, Frame, FRAME_SIZE};
use the_rack::memory::Memory;
use the_rack::paging::{
    build_tables, config, copy_across, enable_user_translation, finish_high_half, lookup,
    map_range, parange, phys_to_virt, read_user, tcr_value, translate, user_readable,
    user_writable, AddressSpace, Attributes, Layout, KERNEL_BASE, LOW_HALF_END, PXN, UXN,
};

const BASE: u64 = 0x4000_0000;
const SIZE: u64 = 0x40_0000;

fn paged_machine() -> (Allocator, Memory) {
    (init(BASE, SIZE, BASE + 0x4000), Memory::new(BASE, SIZE as usize))
}

fn mapped(a: &mut Allocator, m: &mut Memory, space: &AddressSpace, va: u64) -> Frame {
    let frame = alloc_frame(a, m).unwrap();
    space.map(a, m, va, frame.addr(), FRAME_SIZE, Attributes::user_data());
    frame
}

#[test]
fn an_empty_space_maps_nothing() {
    let (mut a, mut m) = paged_machine();
    let space = AddressSpace::new(&mut a, &mut m);
    assert_eq!(translate(&m, space.root(), 0), None);
    assert_eq!(lookup(&m, space.root(), 0x1000), None);
    assert!(!user_readable(&m, space.root(), 0x1000, 1));
    assert!(user_readable(&m, space.root(), 0x1000, 0));
}

#[test]
fn a_mapped_page_translates_byte_by_byte() {
    let (mut a, mut m) = paged_machine();
    let space = AddressSpace::new(&mut a, &mut m);
    let frame = mapped(&mut a, &mut m, &space, 0x1000_0000);
    assert_eq!(translate(&m, space.root(), 0x1000_0000), Some(frame.addr()));
    assert_eq!(translate(&m, space.root(), 0x1000_0fff), Some(frame.addr() + 0xfff));
    assert_eq!(translate(&m, space.root(), 0x1000_1000), None);
    assert!(user_writable(&m, space.root(), 0x1000_0000, 0x1000));
    assert!(!user_writable(&m, space.root(), 0x1000_0000, 0x1001));
    assert!(!user_readable(&m, space.root(), u64::MAX - 3, 8));
    assert!(!user_readable(&m, space.root(), KERNEL_BASE, 8));
}

#[test]
fn an_address_has_48_bits() {
    let (mut a, mut m) = paged_machine();
    let space = AddressSpace::new(&mut a, &mut m);
    let frame = alloc_frame(&mut a, &mut m).unwrap();
    space.map(&mut a, &mut m, 0x40_0000, frame.addr(), FRAME_SIZE, Attributes::user_text());
    let root = space.root();
    assert!(user_readable(&m, root, 0x40_0000, 4096));
    assert!(!user_readable(&m, root, 0x0001_0000_0040_0000, 1));
    assert!(!user_readable(&m, root, 0x8000_0000_0040_0000, 1));
    // The last page of the low half is still in it.
    let last = LOW_HALF_END - FRAME_SIZE;
    mapped(&mut a, &mut m, &space, last);
    assert!(user_writable(&m, root, last, FRAME_SIZE));
    assert!(!user_writable(&m, root, last, FRAME_SIZE + 1));
    assert!(!user_writable(&m, root, last + LOW_HALF_END, 1));
}

#[test]
fn tables_and_pages_all_come_back() {
    let (mut a, mut m) = paged_machine();
    let before = free_frames(&a);
    let space = AddressSpace::new(&mut a, &mut m);
    mapped(&mut a, &mut m, &space, 0x40_0000);
    mapped(&mut a, &mut m, &space, 0x7f_f000);
    assert_eq!(free_frames(&a), before - 7);
    space.destroy(&mut a, &m);
    assert_eq!(free_frames(&a), before);
}

#[test]
fn user_text_can_be_read_and_not_written() {
    let (mut a, mut m) = paged_machine();
    let space = AddressSpace::new(&mut a, &mut m);
    let frame = alloc_frame(&mut a, &mut m).unwrap();
    space.map(&mut a, &mut m, 0x40_0000, frame.addr(), FRAME_SIZE, Attributes::user_text());
    assert!(user_readable(&m, space.root(), 0x40_0000, 4096));
    assert!(!user_writable(&m, space.root(), 0x40_0000, 1));
    let leaf = lookup(&m, space.root(), 0x40_0000).unwrap();
    assert_eq!(leaf & UXN, 0);
    assert_ne!(leaf & PXN, 0);
}

#[test]
fn kernel_memory_is_not_for_el0() {
    let (mut a, mut m) = paged_machine();
    let root = AddressSpace::new(&mut a, &mut m).root();
    map_range(
        &mut a,
        &mut m,
        root,
        BASE,
        BASE,
        0x20_0000,
        Attributes::kernel_data(),
    );
    assert_eq!(translate(&m, root, BASE + 0x12_3456), Some(BASE + 0x12_3456));
    assert!(!user_readable(&m, root, BASE, 1));
}

#[test]
fn ranges_use_blocks_where_they_can() {
    let (mut a, mut m) = paged_machine();
    let root = AddressSpace::new(&mut a, &mut m).root();
    let before = free_frames(&a);
    // A page, a 2 MiB block, and a page.
    map_range(
        &mut a,
        &mut m,
        root,
        0x1f_f000,
        0x8_001f_f000,
        0x20_2000,
        Attributes::user_data(),
    );
    // Level 1, level 2, and one level 3 table at each end.
    assert_eq!(free_frames(&a), before - 4);
    assert_eq!(translate(&m, root, 0x1f_f123), Some(0x8_001f_f123));
    assert_eq!(translate(&m, root, 0x2f_f123), Some(0x8_002f_f123));
    assert_eq!(translate(&m, root, 0x40_0123), Some(0x8_0040_0123));
    assert_eq!(translate(&m, root, 0x40_1000), None);
    assert_eq!(translate(&m, root, 0x1f_e000), None);
}

#[test]
fn bytes_are_copied_between_spaces_at_any_offset() {
    let (mut a, mut m) = paged_machine();
    let one = AddressSpace::new(&mut a, &mut m);
    let two = AddressSpace::new(&mut a, &mut m);
    mapped(&mut a, &mut m, &one, 0x1000);
    mapped(&mut a, &mut m, &one, 0x2000);
    mapped(&mut a, &mut m, &two, 0x5000);
    mapped(&mut a, &mut m, &two, 0x6000);
    let data: Vec<u8> = (0..200u8).collect();
    for (i, byte) in data.iter().enumerate() {
        let pa = translate(&m, one.root(), 0x1fa0 + i as u64).unwrap();
        m.write_u8(pa, *byte);
    }
    assert!(copy_across(&mut m, one.root(), 0x1fa0, two.root(), 0x5fe1, 200));
    assert_eq!(read_user(&m, two.root(), 0x5fe1, 200), data);
    assert_eq!(read_user(&m, two.root(), 0x5fe0, 1), vec![0]);
    // Off the end of what is mapped.
    assert!(!copy_across(&mut m, one.root(), 0x1000, two.root(), 0x6fff, 2));
}

#[test]
fn the_kernel_is_in_both_halves_with_the_same_permissions() {
    let (mut a, mut m) = paged_machine();
    let layout = Layout {
        text_start: BASE + 0x1000,
        text_end: BASE + 0x2000,
        rodata_start: BASE + 0x2000,
        rodata_end: BASE + 0x3000,
        data_start: BASE + 0x3000,
        kernel_end: BASE + 0x4000,
    };
    let (low, high) = build_tables(&mut a, &mut m, layout);
    for offset in [0, KERNEL_BASE] {
        let root = if offset == 0 { low } else { high };
        for pa in [BASE, BASE + 0x1000, BASE + 0x2abc, BASE + 0x3fff, BASE + SIZE - 1, 0x900_0018] {
            assert_eq!(translate(&m, root, offset + pa), Some(pa));
        }
        assert_eq!(translate(&m, root, offset + BASE + SIZE), None);
        let text = lookup(&m, root, offset + BASE + 0x1000).unwrap();
        assert_eq!(text & PXN, 0);
        assert_ne!(text & (2 << 6), 0);
        let rodata = lookup(&m, root, offset + BASE + 0x2000).unwrap();
        assert_ne!(rodata & PXN, 0);
        assert_ne!(rodata & (2 << 6), 0);
        let data = lookup(&m, root, offset + BASE + 0x3000).unwrap();
        assert_ne!(data & PXN, 0);
        assert_eq!(data & (2 << 6), 0);
        let device = lookup(&m, root, offset + 0x800_0000).unwrap();
        assert_ne!(device & PXN, 0);
    }
}

#[test]
fn the_control_register_is_what_the_processor_supports() {
    assert_eq!(parange(4), 4);
    assert_eq!(parange(0x1126), 5);
    assert_eq!(tcr_value(4), 0x4_b510_3510);
    assert_eq!(finish_high_half(tcr_value(4)), 0x4_b510_3590);
    assert_eq!(enable_user_translation(0x4_b510_3590), 0x4_b510_3510);
    assert_eq!(phys_to_virt(KERNEL_BASE, 0x4008_0000), 0xffff_0000_4008_0000);
}

#[test]
fn the_registers_are_decoded_for_the_report() {
    let c = config(0x00c5_183d, 0x4_b510_3590);
    assert!(c.mmu && c.data_cache && c.instruction_cache);
    assert!(!c.low_walks);
    assert!(config(0, 0).low_walks);
    assert!(!config(0, 0).mmu);
}
