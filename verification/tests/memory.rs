use the_rack::memory::Memory;

#[test]
fn words_are_little_endian() {
    let mut m = Memory::new(0x1000, 64);
    m.write_u64(0x1008, 0x0102_0304_0506_0708);
    assert_eq!(m.read(0x1008, 8), vec![8, 7, 6, 5, 4, 3, 2, 1]);
    assert_eq!(m.read_u32(0x1008), 0x0506_0708);
    assert_eq!(m.read_u16(0x100e), 0x0102);
    m.write_u16(0x1008, 0xbeef);
    assert_eq!(m.read_u64(0x1008), 0x0102_0304_0506_beef);
    m.write_u32(0x100c, 0x1122_3344);
    assert_eq!(m.read_u64(0x1008), 0x1122_3344_0506_beef);
    m.write_u8(0x1008, 0);
    assert_eq!(m.read_u8(0x1008), 0);
    assert_eq!(m.read_u8(0x1009), 0xbe);
}

#[test]
fn ranges_are_filled_and_copied() {
    let mut m = Memory::new(0, 32);
    m.write(4, &[1, 2, 3, 4]);
    m.copy(4, 16, 4);
    assert_eq!(m.read(14, 8), vec![0, 0, 1, 2, 3, 4, 0, 0]);
    m.fill(17, 2, 9);
    assert_eq!(m.read(16, 4), vec![1, 9, 9, 4]);
}
