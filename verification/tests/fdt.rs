use the_rack::fdt::{
    early_probe, init, memory_map, probe, string_list_contains, Blob, Error, Header, Region, Step,
    FDT_BEGIN_NODE, FDT_END, FDT_END_NODE, FDT_NOP, FDT_PROP, HEADER_SIZE, MAGIC, MAX_BLOB,
    MAX_DEPTH, SUPPORTED_VERSION,
};

/// Where the headers pretend to be.
const VA: u64 = 0x8_0000;

/// A header built by hand, so the checks can be aimed at something broken.
struct Scratch([u8; 64]);

impl Scratch {
    /// A well formed header describing an otherwise empty 64 byte blob.
    fn good() -> Self {
        let mut scratch = Scratch([0; 64]);
        scratch.put(0, MAGIC);
        scratch.put(4, 64); // totalsize
        scratch.put(8, 40); // off_dt_struct
        scratch.put(12, 56); // off_dt_strings
        scratch.put(16, 40); // off_mem_rsvmap
        scratch.put(20, 17); // version
        scratch.put(24, 16); // last_comp_version
        scratch.put(28, 0); // boot_cpuid_phys
        scratch.put(32, 8); // size_dt_strings
        scratch.put(36, 16); // size_dt_struct
        scratch
    }

    fn put(&mut self, offset: usize, value: u32) {
        self.0[offset..offset + 4].copy_from_slice(&value.to_be_bytes());
    }

    fn probe(&self) -> Result<Header, Error> {
        probe(VA, &self.0)
    }
}

#[test]
fn a_good_header_parses() {
    let header = Scratch::good().probe().unwrap();
    assert_eq!(header.totalsize, 64);
    assert_eq!(header.version, 17);
    assert_eq!(header.size_dt_struct, 16);
    assert_eq!(header.off_dt_struct, 40);
    assert_eq!(header.off_dt_strings, 56);
    assert_eq!(header.off_mem_rsvmap, 40);
    assert_eq!(header.last_comp_version, 16);
    assert_eq!(header.boot_cpuid_phys, 0);
    assert_eq!(header.size_dt_strings, 8);
}

#[test]
fn a_null_pointer_is_refused() {
    assert_eq!(probe(0, &[]), Err(Error::Null));
}

#[test]
fn a_misaligned_blob_is_refused_before_it_is_read() {
    assert_eq!(probe(VA + 4, &[]), Err(Error::Misaligned(VA + 4)));
}

#[test]
fn what_is_not_a_device_tree_is_refused() {
    let mut wrong = Scratch::good();
    wrong.put(0, 0xdead_beef);
    assert_eq!(wrong.probe(), Err(Error::BadMagic(0xdead_beef)));
}

#[test]
fn a_size_that_cannot_hold_its_header_is_refused() {
    let mut small = Scratch::good();
    small.put(4, HEADER_SIZE - 1);
    assert_eq!(small.probe(), Err(Error::TooSmall(HEADER_SIZE - 1)));
}

#[test]
fn a_size_that_is_no_size_is_refused() {
    let mut large = Scratch::good();
    large.put(4, MAX_BLOB + 1);
    assert_eq!(large.probe(), Err(Error::TooLarge(MAX_BLOB + 1)));
}

#[test]
fn a_blob_for_a_newer_reader_is_refused() {
    let mut future = Scratch::good();
    future.put(24, SUPPORTED_VERSION + 1);
    assert_eq!(future.probe(), Err(Error::Version(17)));
    let mut backwards = Scratch::good();
    backwards.put(20, 18);
    backwards.put(24, 19);
    assert_eq!(backwards.probe(), Err(Error::Version(18)));
    // A newer blob that a reader like this one still understands.
    let mut newer = Scratch::good();
    newer.put(20, 18);
    newer.put(24, 17);
    assert_eq!(newer.probe().map(|header| header.version), Ok(18));
}

#[test]
fn a_blob_too_old_to_say_how_long_it_is_is_refused() {
    let mut old = Scratch::good();
    old.put(20, 16);
    assert_eq!(old.probe(), Err(Error::Version(16)));
    assert_eq!(early_probe(VA, &old.0), None);
    let mut older = Scratch::good();
    older.put(20, 15);
    assert_eq!(older.probe(), Err(Error::Version(15)));
}

#[test]
fn blocks_that_run_off_the_end_are_refused() {
    let mut overrun = Scratch::good();
    overrun.put(36, 4096);
    assert_eq!(overrun.probe(), Err(Error::BlockOutOfRange));

    // True in wrapping arithmetic and false in reality.
    let mut wrap = Scratch::good();
    wrap.put(8, u32::MAX);
    wrap.put(36, 64);
    assert_eq!(wrap.probe(), Err(Error::BlockOutOfRange));

    let mut strings = Scratch::good();
    strings.put(12, 60);
    strings.put(32, 8);
    assert_eq!(strings.probe(), Err(Error::BlockOutOfRange));

    let mut reserved = Scratch::good();
    reserved.put(16, 64);
    assert_eq!(reserved.probe(), Err(Error::BlockOutOfRange));
}

#[test]
fn a_blob_outside_ram_is_refused() {
    let base = 0x4000_0000;
    assert_eq!(
        init(0x1000, 0x1000, &[], base, 0x1000).unwrap_err(),
        Error::OutsideRam(0x1000)
    );
    assert_eq!(init(0, 0, &[], base, 0x1000).unwrap_err(), Error::Null);
    // The header is inside and the rest is not.
    let mut long = Scratch::good();
    long.put(4, 0x2000);
    let pa = base + 0x1000 - 64;
    assert_eq!(init(pa, pa, &long.0, base, 0x1000).unwrap_err(), Error::OutsideRam(pa));
    let good = Scratch::good();
    let blob = init(pa, pa, &good.0, base, 0x1000).unwrap();
    assert_eq!((blob.pa, blob.va, blob.header.totalsize), (pa, pa, 64));
    let mut wrong = Scratch::good();
    wrong.put(0, 7);
    assert_eq!(init(pa, pa, &wrong.0, base, 0x1000).unwrap_err(), Error::BadMagic(7));
}

#[test]
fn the_size_can_be_had_early() {
    assert_eq!(early_probe(VA, &Scratch::good().0), Some((VA, 64)));
    assert_eq!(early_probe(0, &[]), None);
    assert_eq!(early_probe(VA, &[0; 64]), None);
}

#[test]
fn refusals_have_names() {
    assert_eq!(Error::Null.describe(), "null pointer");
    assert_eq!(Error::Misaligned(1).describe(), "not 8 byte aligned");
    assert_eq!(Error::BadMagic(1).describe(), "bad magic");
    assert_eq!(Error::TooSmall(1).describe(), "totalsize too small");
    assert_eq!(Error::TooLarge(1).describe(), "totalsize too large");
    assert_eq!(Error::Version(1).describe(), "unsupported version");
    assert_eq!(Error::BlockOutOfRange.describe(), "block runs off the end");
    assert_eq!(Error::OutsideRam(1).describe(), "blob is not in RAM");
}

/// The strings block every tree shares.
const TEST_STRINGS: &[u8] = b"compatible\0reg\0#address-cells\0#size-cells\0";
const STR_COMPATIBLE: u32 = 0;
const STR_REG: u32 = 11;
const STR_ADDRESS_CELLS: u32 = 15;
const STR_SIZE_CELLS: u32 = 30;

/// A device tree assembled a token at a time.
struct Tree {
    bytes: Vec<u8>,
    reserved: Vec<(u64, u64)>,
}

impl Tree {
    fn new() -> Self {
        Tree { bytes: vec![0; 40], reserved: Vec::new() }
    }

    fn u32(&mut self, value: u32) {
        self.bytes.extend_from_slice(&value.to_be_bytes());
    }

    fn pad(&mut self) {
        while self.bytes.len() % 4 != 0 {
            self.bytes.push(0);
        }
    }

    fn begin(&mut self, name: &str) {
        self.u32(FDT_BEGIN_NODE);
        self.bytes.extend_from_slice(name.as_bytes());
        self.bytes.push(0);
        self.pad();
    }

    fn end_node(&mut self) {
        self.u32(FDT_END_NODE);
    }

    fn prop(&mut self, name_offset: u32, value: &[u8]) {
        self.u32(FDT_PROP);
        self.u32(value.len() as u32);
        self.u32(name_offset);
        self.bytes.extend_from_slice(value);
        self.pad();
    }

    fn cells(&mut self, address: u32, size: u32) {
        self.prop(STR_ADDRESS_CELLS, &address.to_be_bytes());
        self.prop(STR_SIZE_CELLS, &size.to_be_bytes());
    }

    fn reg(&mut self, base: u64, size: u64) {
        let mut value = base.to_be_bytes().to_vec();
        value.extend_from_slice(&size.to_be_bytes());
        self.prop(STR_REG, &value);
    }

    /// A property whose declared length is a lie.
    fn lying_prop(&mut self, name_offset: u32, claimed: u32) {
        self.u32(FDT_PROP);
        self.u32(claimed);
        self.u32(name_offset);
    }

    /// Write the header.
    fn finish(mut self) -> Vec<u8> {
        self.u32(FDT_END);
        let struct_start = 40u32;
        let struct_size = self.bytes.len() as u32 - struct_start;
        let strings_start = self.bytes.len() as u32;
        self.bytes.extend_from_slice(TEST_STRINGS);
        let mut reserved_start = struct_start;
        if !self.reserved.is_empty() {
            reserved_start = self.bytes.len() as u32;
            for (base, size) in self.reserved.clone() {
                self.bytes.extend_from_slice(&base.to_be_bytes());
                self.bytes.extend_from_slice(&size.to_be_bytes());
            }
            self.bytes.extend_from_slice(&[0; 16]);
        }
        let header = [
            MAGIC,
            self.bytes.len() as u32,
            struct_start,
            strings_start,
            reserved_start,
            17,
            16,
            0,
            TEST_STRINGS.len() as u32,
            struct_size,
        ];
        for (index, field) in header.iter().enumerate() {
            self.bytes[index * 4..index * 4 + 4].copy_from_slice(&field.to_be_bytes());
        }
        self.bytes
    }
}

/// A blob, checked exactly the way the firmware's own would be.
fn blob_of(bytes: &[u8]) -> Blob<'_> {
    Blob { pa: 0, va: VA, header: probe(VA, bytes).unwrap(), data: bytes }
}

/// A tree with a root and one child, in whichever cell counts are asked for.
fn small_tree(address_cells: u32, size_cells: u32) -> Vec<u8> {
    let mut tree = Tree::new();
    tree.begin("");
    tree.cells(address_cells, size_cells);
    tree.prop(STR_COMPATIBLE, b"test,root\0");
    tree.begin("memory@1000");
    tree.prop(STR_COMPATIBLE, b"test,memory\0test,thing\0");
    tree.prop(
        STR_REG,
        &[
            0, 0, 0, 0, 0, 0, 0x10, 0, // 0x1000 as two cells
            0, 0, 0, 0, 0, 0, 0x20, 0, // 0x2000 as two cells
        ],
    );
    tree.end_node();
    tree.end_node();
    tree.finish()
}

#[test]
fn a_path_resolves_and_its_reg_is_in_the_parents_cells() {
    let bytes = small_tree(2, 2);
    let tree = blob_of(&bytes);
    let memory = tree.find_node("/memory").unwrap();
    assert_eq!(memory.depth, 2);
    assert_eq!(tree.reg(&memory, 0), Some((0x1000, 0x2000)));

    // The unit address is elided by the caller and supplied by the tree. The
    // full name still works.
    assert_eq!(tree.find_node("/memory@1000"), Some(memory));
    assert_eq!(tree.find_node("/memory@"), None);
    assert_eq!(tree.find_node("/mem"), None);
}

#[test]
fn the_same_bytes_read_in_narrower_cells() {
    let bytes = small_tree(1, 1);
    let narrow = blob_of(&bytes);
    let memory = narrow.find_node("/memory").unwrap();
    assert_eq!(narrow.reg(&memory, 0), Some((0x0, 0x1000)));
    assert_eq!(narrow.reg(&memory, 1), Some((0x0, 0x2000)));
}

#[test]
fn cells_that_cannot_be_held_are_refused() {
    let bytes = small_tree(3, 1);
    let wide = blob_of(&bytes);
    let memory = wide.find_node("/memory").unwrap();
    assert_eq!(memory.address_cells, 3);
    assert_eq!(wide.reg(&memory, 0), None);
    let none = small_tree(0, 1);
    let empty = blob_of(&none);
    assert_eq!(empty.reg(&empty.find_node("/memory").unwrap(), 0), None);
    let sizeless = small_tree(2, 0);
    let flat = blob_of(&sizeless);
    assert_eq!(flat.reg(&flat.find_node("/memory").unwrap(), 1), Some((0x2000, 0)));
}

#[test]
fn the_root_is_a_node_like_any_other() {
    let bytes = small_tree(2, 2);
    let tree = blob_of(&bytes);
    let root = tree.find_node("/").unwrap();
    assert_eq!(root.depth, 1);
    assert_eq!((root.address_cells, root.size_cells), (2, 1));
    assert_eq!(tree.property_str(&root, "compatible"), Some("test,root"));
    assert_eq!(tree.property_u32(&root, "#address-cells"), Some(2));
    assert_eq!(tree.property_u32(&root, "#nothing"), None);
}

#[test]
fn compatible_is_a_list() {
    let bytes = small_tree(2, 2);
    let tree = blob_of(&bytes);
    let memory = tree.find_node("/memory").unwrap();
    assert_eq!(tree.find_compatible("test,thing"), Some(memory));
    assert_eq!(tree.find_compatible("test,memory"), Some(memory));
    assert_eq!(tree.find_compatible("test,mem"), None);
    assert!(string_list_contains(b"a\0b\0", "b"));
    assert!(!string_list_contains(b"ab\0", "b"));
}

#[test]
fn absent_things_are_absent() {
    let bytes = small_tree(2, 2);
    let tree = blob_of(&bytes);
    let memory = tree.find_node("/memory").unwrap();
    assert_eq!(tree.find_node("/nowhere"), None);
    assert_eq!(tree.find_node("/memory/deeper"), None);
    assert_eq!(tree.property(&memory, "status"), None);
    assert_eq!(tree.reg(&memory, 9), None);
    assert_eq!(tree.reg(&memory, usize::MAX), None);
}

#[test]
fn a_property_that_lies_about_its_length_is_not_read() {
    let mut lying = Tree::new();
    lying.begin("");
    lying.lying_prop(STR_COMPATIBLE, 0x10000);
    lying.end_node();
    let bytes = lying.finish();
    let tree = blob_of(&bytes);
    let root = tree.find_node("/").unwrap();
    assert_eq!(tree.property(&root, "compatible"), None);
    assert_eq!(tree.find_compatible("test,root"), None);
}

#[test]
fn a_name_with_no_end_stops_the_walk() {
    let mut unterminated = Tree::new();
    unterminated.u32(FDT_BEGIN_NODE);
    unterminated.bytes.extend_from_slice(b"aaaa");
    let bytes = unterminated.finish();
    let tree = blob_of(&bytes);
    assert_eq!(tree.find_node("/"), None);
}

#[test]
fn a_tree_deeper_than_the_walker_stops_the_walk() {
    let mut deep = Tree::new();
    for _ in 0..MAX_DEPTH + 2 {
        deep.begin("");
    }
    let bytes = deep.finish();
    let tree = blob_of(&bytes);
    let mut walker = tree.walk();
    let mut seen = 0;
    while walker.next().is_some() {
        seen += 1;
        assert_eq!(walker.depth(), seen);
    }
    assert_eq!(seen, MAX_DEPTH - 1);
    for _ in 0..3 {
        assert!(walker.next().is_none());
        assert_eq!(walker.depth(), MAX_DEPTH - 1);
    }
}

#[test]
fn what_is_no_token_stops_the_walk() {
    let mut tree = Tree::new();
    tree.begin("");
    tree.u32(0x77);
    tree.begin("never");
    let bytes = tree.finish();
    let blob = blob_of(&bytes);
    let mut walker = blob.walk();
    assert!(matches!(walker.next(), Some(Step::Node(_, ""))));
    assert!(walker.next().is_none());
    assert!(walker.next().is_none());
}

#[test]
fn a_node_closed_too_often_stops_the_walk() {
    let mut tree = Tree::new();
    tree.end_node();
    tree.begin("");
    let bytes = tree.finish();
    assert!(blob_of(&bytes).walk().next().is_none());
}

#[test]
fn deleted_tokens_are_stepped_over() {
    let mut tree = Tree::new();
    tree.u32(FDT_NOP);
    tree.begin("");
    tree.u32(FDT_NOP);
    tree.prop(STR_COMPATIBLE, b"x\0");
    tree.u32(FDT_NOP);
    tree.end_node();
    let bytes = tree.finish();
    let blob = blob_of(&bytes);
    let root = blob.find_node("/").unwrap();
    assert_eq!(root.offset, 44);
    assert_eq!(blob.property(&root, "compatible"), Some(&b"x\0"[..]));
    let mut properties = blob.properties(&root);
    assert_eq!(properties.next(), Some(("compatible", &b"x\0"[..])));
    assert_eq!(properties.next(), None);
}

#[test]
fn cell_counts_are_defaulted_and_not_inherited() {
    let mut tree = Tree::new();
    tree.begin("");
    tree.cells(1, 1);
    tree.begin("bus");
    tree.begin("device");
    tree.end_node();
    tree.end_node();
    tree.end_node();
    let bytes = tree.finish();
    let blob = blob_of(&bytes);
    let bus = blob.find_node("/bus").unwrap();
    assert_eq!((bus.address_cells, bus.size_cells), (1, 1));
    let device = blob.find_node("/bus/device").unwrap();
    assert_eq!((device.address_cells, device.size_cells), (2, 1));
}

#[test]
fn a_path_goes_through_the_parents_it_names() {
    let mut tree = Tree::new();
    tree.begin("");
    tree.begin("one");
    tree.begin("leaf");
    tree.end_node();
    tree.end_node();
    tree.begin("two");
    tree.begin("leaf");
    tree.end_node();
    tree.end_node();
    tree.end_node();
    let bytes = tree.finish();
    let blob = blob_of(&bytes);
    let first = blob.find_node("/one/leaf").unwrap();
    let second = blob.find_node("two//leaf/").unwrap();
    assert!(first.offset < second.offset);
    assert_eq!(blob.find_node("/leaf"), None);
    assert_eq!(blob.find_node("/two/one"), None);
}

#[test]
fn compatible_nodes_are_found_one_after_another() {
    let mut tree = Tree::new();
    tree.begin("");
    for name in ["a@0", "b@1", "c@2"] {
        tree.begin(name);
        tree.prop(STR_COMPATIBLE, if name == "b@1" { b"other\0" } else { b"virtio,mmio\0" });
        tree.end_node();
    }
    tree.end_node();
    let bytes = tree.finish();
    let blob = blob_of(&bytes);
    let a = blob.find_node("/a").unwrap();
    let c = blob.find_node("/c").unwrap();
    assert_eq!(blob.find_compatible_after("virtio,mmio", 0), Some(a));
    assert_eq!(blob.find_compatible_after("virtio,mmio", a.offset), Some(c));
    assert_eq!(blob.find_compatible_after("virtio,mmio", c.offset), None);
}

#[test]
fn every_window_of_a_node_is_listed() {
    let mut tree = Tree::new();
    tree.begin("");
    tree.cells(2, 2);
    tree.begin("intc");
    let mut value = Vec::new();
    for (base, size) in [(0x800_0000u64, 0x10000u64), (0x801_0000, 0x10000)] {
        value.extend_from_slice(&base.to_be_bytes());
        value.extend_from_slice(&size.to_be_bytes());
    }
    tree.prop(STR_REG, &value);
    tree.end_node();
    tree.end_node();
    let bytes = tree.finish();
    let blob = blob_of(&bytes);
    let node = blob.find_node("/intc").unwrap();
    let mut out = [Region::default(); 3];
    assert_eq!(blob.regions(&node, &mut out), 2);
    assert_eq!(out[0], Region { base: 0x800_0000, size: 0x10000 });
    assert_eq!(out[1], Region { base: 0x801_0000, size: 0x10000 });
    assert_eq!(out[2], Region { base: 0, size: 0 });
    let mut one = [Region::default(); 1];
    assert_eq!(blob.regions(&node, &mut one), 1);
}

#[test]
fn numbers_are_read_inside_the_blob_only() {
    let bytes = Scratch::good().0;
    let blob = blob_of(&bytes);
    assert_eq!(blob.u32_at(0), Some(MAGIC));
    assert_eq!(blob.u32_at(60), Some(0));
    assert_eq!(blob.u32_at(61), None);
    assert_eq!(blob.u32_at(u32::MAX), None);
    assert_eq!(blob.u64_at(0), Some(0xd00d_feed_0000_0040));
    assert_eq!(blob.u64_at(57), None);
    assert_eq!(blob.bytes_at(60, 4).map(|b| b.len()), Some(4));
    assert_eq!(blob.bytes_at(60, 5), None);
    assert_eq!(blob.bytes_at(u32::MAX, 2), None);
    assert_eq!(blob.str_at(56, 64), Some(""));
    assert_eq!(blob.str_at(64, 100), None);
    assert_eq!(blob.string(8), None);
    assert_eq!(blob.string(u32::MAX), None);
}

#[test]
fn the_memory_map_lists_what_is_spoken_for() {
    let mut tree = Tree::new();
    tree.reserved = vec![(0x7000, 0x100), (0x8000, 0)];
    tree.begin("");
    tree.cells(2, 2);
    tree.begin("reserved-memory");
    tree.cells(2, 2);
    tree.begin("fb@9000");
    tree.reg(0x9000, 0x1000);
    tree.begin("inside");
    tree.reg(0x1, 0x1);
    tree.end_node();
    tree.end_node();
    tree.begin("fw@a000");
    tree.reg(0xa000, 0x2000);
    tree.end_node();
    tree.end_node();
    tree.begin("memory@40000000");
    tree.prop(
        STR_REG,
        &[
            0, 0, 0, 0, 0x40, 0, 0, 0, 0, 0, 0, 0, 0x10, 0, 0, 0, // 256 MiB
            0, 0, 0, 1, 0, 0, 0, 0, 0, 0, 0, 0, 0x10, 0, 0, 0, // and more
        ],
    );
    tree.end_node();
    tree.end_node();
    let bytes = tree.finish();
    let mut blob = blob_of(&bytes);
    blob.pa = 0x4800_0000;
    let map = memory_map(&blob);
    assert_eq!((map.base, map.size, map.banks), (0x4000_0000, 0x1000_0000, 2));
    assert_eq!(
        map.reserved(),
        &[
            (0x4800_0000, bytes.len() as u64),
            (0x7000, 0x100),
            (0x9000, 0x1000),
            (0xa000, 0x2000),
        ]
    );
    assert_eq!(map.dropped, 0);
}

#[test]
fn reservations_that_do_not_fit_are_counted() {
    let mut tree = Tree::new();
    tree.reserved = (1..=10).map(|n| (n * 0x1000, 0x10)).collect();
    tree.begin("");
    tree.end_node();
    let bytes = tree.finish();
    let map = memory_map(&blob_of(&bytes));
    assert_eq!(map.reserved().len(), 8);
    assert_eq!(map.reserved()[7], (0x7000, 0x10));
    assert_eq!(map.dropped, 3);
    assert_eq!((map.base, map.size, map.banks), (0, 0, 0));
}

#[test]
fn memory_of_no_size_is_no_memory() {
    let mut tree = Tree::new();
    tree.begin("");
    tree.cells(2, 2);
    tree.begin("memory");
    tree.reg(0x4000_0000, 0);
    tree.end_node();
    tree.end_node();
    let bytes = tree.finish();
    let map = memory_map(&blob_of(&bytes));
    assert_eq!((map.base, map.size, map.banks), (0, 0, 0));
}
