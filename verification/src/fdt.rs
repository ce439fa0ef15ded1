//! The flattened device tree the firmware leaves in memory.
//!
//! The blob is the one piece of input this kernel takes from outside itself: a
//! structure full of offsets and lengths, every one of which is a chance to
//! read somewhere it should not. So the header is checked before it is
//! believed, and every read after that is bounded by it.

use vstd::prelude::*;
use vstd::slice::*;
use vstd::string::*;

use crate::text;

verus! {

/// Big endian number at the front of every flattened device tree.
pub const MAGIC: u32 = 0xd00d_feed;

/// Ten big endian `u32` fields.
pub const HEADER_SIZE: u32 = 40;

/// The format version that can be walked. Anything older does not say how long
/// its structure is, and anything that needs a newer reader has structure that
/// would be misread.
pub const SUPPORTED_VERSION: u32 = 17;

/// A sanity bound: anything larger is a corrupt length rather than a device
/// tree.
pub const MAX_BLOB: u32 = 1024 * 1024;

/// Why a candidate blob was refused. Carries the value that failed.
#[derive(Clone, Copy, PartialEq, Eq, Debug, Structural)]
pub enum Error {
    /// The firmware passed a null pointer, or nothing at all.
    Null,
    /// The blob must be 8 byte aligned.
    Misaligned(u64),
    /// The first four bytes were not the magic number.
    BadMagic(u32),
    /// The size cannot even hold the header it is part of.
    TooSmall(u32),
    /// The size is past what could plausibly be a device tree.
    TooLarge(u32),
    /// The format version is one that cannot be walked.
    Version(u32),
    /// A block's offset and size run off the end of the blob.
    BlockOutOfRange,
    /// The blob is not entirely inside RAM.
    OutsideRam(u64),
}

impl Error {
    /// One line, for a console.
    pub fn describe(self) -> (r: &'static str)
        ensures
            r@ == match self {
                Error::Null => "null pointer"@,
                Error::Misaligned(_) => "not 8 byte aligned"@,
                Error::BadMagic(_) => "bad magic"@,
                Error::TooSmall(_) => "totalsize too small"@,
                Error::TooLarge(_) => "totalsize too large"@,
                Error::Version(_) => "unsupported version"@,
                Error::BlockOutOfRange => "block runs off the end"@,
                Error::OutsideRam(_) => "blob is not in RAM"@,
            },
    {
        match self {
            Error::Null => "null pointer",
            Error::Misaligned(_) => "not 8 byte aligned",
            Error::BadMagic(_) => "bad magic",
            Error::TooSmall(_) => "totalsize too small",
            Error::TooLarge(_) => "totalsize too large",
            Error::Version(_) => "unsupported version",
            Error::BlockOutOfRange => "block runs off the end",
            Error::OutsideRam(_) => "blob is not in RAM",
        }
    }
}

/// The device tree header, in native order.
#[derive(Clone, Copy, PartialEq, Eq, Debug, Structural)]
pub struct Header {
    pub totalsize: u32,
    pub off_dt_struct: u32,
    pub off_dt_strings: u32,
    pub off_mem_rsvmap: u32,
    pub version: u32,
    pub last_comp_version: u32,
    pub boot_cpuid_phys: u32,
    pub size_dt_strings: u32,
    pub size_dt_struct: u32,
}

/// A device tree that has passed its header checks.
#[derive(Clone, Copy, Debug)]
pub struct Blob<'a> {
    /// Where the firmware put it.
    pub pa: u64,
    /// Where it is read through.
    pub va: u64,
    pub header: Header,
    /// What is readable there.
    pub data: &'a [u8],
}

/// The big endian number at `at`.
pub open spec fn be32(b: Seq<u8>, at: int) -> u32 {
    (0x100_0000 * b[at] + 0x1_0000 * b[at + 1] + 0x100 * b[at + 2] + b[at + 3]) as u32
}

/// Read a big endian number.
pub fn read_be32(data: &[u8], at: usize) -> (r: u32)
    requires
        at + 4 <= data@.len(),
    ensures
        r == be32(data@, at as int),
{
    0x100_0000 * data[at] as u32 + 0x1_0000 * data[at + 1] as u32 + 0x100 * data[at + 2] as u32
        + data[at + 3] as u32
}

/// The header at the front of `b`.
pub open spec fn header_of(b: Seq<u8>) -> Header {
    Header {
        totalsize: be32(b, 4),
        off_dt_struct: be32(b, 8),
        off_dt_strings: be32(b, 12),
        off_mem_rsvmap: be32(b, 16),
        version: be32(b, 20),
        last_comp_version: be32(b, 24),
        boot_cpuid_phys: be32(b, 28),
        size_dt_strings: be32(b, 32),
        size_dt_struct: be32(b, 36),
    }
}

/// The blocks a header describes are inside the blob it describes.
pub open spec fn blocks_inside(h: Header) -> bool {
    &&& h.off_dt_struct + h.size_dt_struct <= h.totalsize
    &&& h.off_dt_strings + h.size_dt_strings <= h.totalsize
    &&& h.off_mem_rsvmap < h.totalsize
}

/// Why the bytes `b` at `va` are refused, if they are. In this order: nothing
/// is read before the address is known to be good, and nothing past the size
/// before the size is.
pub open spec fn refusal(va: u64, b: Seq<u8>) -> Option<Error> {
    let h = header_of(b);
    if va == 0 {
        Some(Error::Null)
    } else if va % 8 != 0 {
        Some(Error::Misaligned(va))
    } else if be32(b, 0) != MAGIC {
        Some(Error::BadMagic(be32(b, 0)))
    } else if h.totalsize < HEADER_SIZE {
        Some(Error::TooSmall(h.totalsize))
    } else if h.totalsize > MAX_BLOB {
        Some(Error::TooLarge(h.totalsize))
    } else if h.version < SUPPORTED_VERSION || h.last_comp_version > SUPPORTED_VERSION || h.version
        < h.last_comp_version {
        Some(Error::Version(h.version))
    } else if !blocks_inside(h) {
        Some(Error::BlockOutOfRange)
    } else {
        None
    }
}

/// Does a block end inside a blob of `total` bytes? An offset near the largest
/// number there is plus a size is how a bounds check gets skipped, so the sum
/// is checked.
fn ends_inside(offset: u32, size: u32, total: u32) -> (r: bool)
    ensures
        r == (offset + size <= total),
{
    match offset.checked_add(size) {
        Some(end) => end <= total,
        None => false,
    }
}

/// Decide whether the bytes at `va` are a device tree that can be walked.
pub fn probe(va: u64, data: &[u8]) -> (r: Result<Header, Error>)
    requires
        va != 0 && va % 8 == 0 ==> data@.len() >= HEADER_SIZE,
    ensures
        match refusal(va, data@) {
            Some(e) => r == Err::<Header, Error>(e),
            None => r == Ok::<Header, Error>(header_of(data@)),
        },
{
    if va == 0 {
        return Err(Error::Null);
    }
    if va % 8 != 0 {
        return Err(Error::Misaligned(va));
    }
    let magic: u32 = read_be32(data, 0);
    if magic != MAGIC {
        return Err(Error::BadMagic(magic));
    }
    let totalsize: u32 = read_be32(data, 4);
    if totalsize < HEADER_SIZE {
        return Err(Error::TooSmall(totalsize));
    }
    if totalsize > MAX_BLOB {
        return Err(Error::TooLarge(totalsize));
    }
    let header = Header {
        totalsize,
        off_dt_struct: read_be32(data, 8),
        off_dt_strings: read_be32(data, 12),
        off_mem_rsvmap: read_be32(data, 16),
        version: read_be32(data, 20),
        last_comp_version: read_be32(data, 24),
        boot_cpuid_phys: read_be32(data, 28),
        size_dt_strings: read_be32(data, 32),
        size_dt_struct: read_be32(data, 36),
    };
    // An older blob has no size for its structure block. And if the oldest
    // reader it still works with is newer than us, the right answer is to
    // believe it.
    if header.version < SUPPORTED_VERSION || header.last_comp_version > SUPPORTED_VERSION
        || header.version < header.last_comp_version {
        return Err(Error::Version(header.version));
    }
    if !ends_inside(header.off_dt_struct, header.size_dt_struct, totalsize) || !ends_inside(
        header.off_dt_strings,
        header.size_dt_strings,
        totalsize,
    ) || header.off_mem_rsvmap >= totalsize {
        return Err(Error::BlockOutOfRange);
    }
    Ok(header)
}

/// Is all of `pa..pa + size` RAM?
pub open spec fn in_ram(pa: u64, size: int, ram_base: u64, ram_size: u64) -> bool {
    ram_base <= pa && pa + size <= ram_base + ram_size
}

/// Why the blob at `pa` is refused, if it is.
pub open spec fn init_refusal(
    pa: u64,
    va: u64,
    b: Seq<u8>,
    ram_base: u64,
    ram_size: u64,
) -> Option<Error> {
    if pa == 0 {
        Some(Error::Null)
    } else if !in_ram(pa, HEADER_SIZE as int, ram_base, ram_size) {
        Some(Error::OutsideRam(pa))
    } else if refusal(va, b) is Some {
        refusal(va, b)
    } else if !in_ram(pa, header_of(b).totalsize as int, ram_base, ram_size) {
        Some(Error::OutsideRam(pa))
    } else {
        None
    }
}

/// Take the pointer the firmware passed and find the blob it points at.
///
/// `data` is what is readable at `va`, where `pa` is reached: the rest of RAM,
/// if `pa` is in it. It is bounded before it is read.
pub fn init<'a>(
    pa: u64,
    va: u64,
    data: &'a [u8],
    ram_base: u64,
    ram_size: u64,
) -> (r: Result<Blob<'a>, Error>)
    requires
        ram_base + ram_size < u64::MAX,
        pa != 0 && in_ram(pa, HEADER_SIZE as int, ram_base, ram_size) ==> data@.len() == ram_base
            + ram_size - pa,
    ensures
        match init_refusal(pa, va, data@, ram_base, ram_size) {
            Some(e) => r is Err && r->Err_0 == e,
            None => {
                &&& r is Ok
                &&& r->Ok_0.pa == pa
                &&& r->Ok_0.va == va
                &&& r->Ok_0.header == header_of(data@)
                &&& r->Ok_0.data@ == data@
                &&& r->Ok_0.wf()
            },
        },
{
    if pa == 0 {
        return Err(Error::Null);
    }
    if pa < ram_base || pa.saturating_add(HEADER_SIZE as u64) > ram_base + ram_size {
        return Err(Error::OutsideRam(pa));
    }
    let header: Header = match probe(va, data) {
        Ok(header) => header,
        Err(e) => {
            return Err(e);
        },
    };
    if header.totalsize as u64 > ram_base + ram_size - pa {
        return Err(Error::OutsideRam(pa));
    }
    Ok(Blob { pa, va, header, data })
}

/// Find out where the blob is and how big it is, from its header alone.
pub fn early_probe(pa: u64, data: &[u8]) -> (r: Option<(u64, u64)>)
    requires
        pa != 0 && pa % 8 == 0 ==> data@.len() >= HEADER_SIZE,
    ensures
        r == if refusal(pa, data@) is None {
            Some((pa, header_of(data@).totalsize as u64))
        } else {
            None::<(u64, u64)>
        },
{
    if pa == 0 {
        return None;
    }
    match probe(pa, data) {
        Ok(header) => Some((pa, header.totalsize as u64)),
        Err(_) => None,
    }
}

// ---------------------------------------------------------------------------
// Bounded reads.
// ---------------------------------------------------------------------------

/// Round up to the next four byte boundary, saturating rather than wrapping.
pub open spec fn aligned(offset: int) -> int {
    if offset + 3 > u32::MAX {
        u32::MAX / 4 * 4
    } else {
        (offset + 3) / 4 * 4
    }
}

/// Round up to the next four byte boundary.
fn align4(offset: u32) -> (r: u32)
    ensures
        r == aligned(offset as int),
{
    let up: u32 = offset.saturating_add(3);
    up / 4 * 4
}

impl<'a> Blob<'a> {
    /// The header is one that `probe` let through, and all it describes is
    /// readable.
    pub open spec fn wf(&self) -> bool {
        &&& HEADER_SIZE <= self.header.totalsize <= MAX_BLOB
        &&& blocks_inside(self.header)
        &&& self.header.totalsize <= self.data@.len()
    }

    /// End of the structure block.
    pub open spec fn end(&self) -> int {
        self.header.off_dt_struct + self.header.size_dt_struct
    }

    /// The big endian number at `offset`, if it is inside the blob.
    pub open spec fn word(&self, offset: int) -> Option<u32> {
        if offset + 4 > self.header.totalsize {
            None
        } else {
            Some(be32(self.data@, offset))
        }
    }

    /// The two word big endian number at `offset`, if it is inside the blob.
    pub open spec fn long(&self, offset: int) -> Option<u64> {
        if offset + 8 > self.header.totalsize {
            None
        } else {
            Some(
                (0x1_0000_0000 * be32(self.data@, offset) + be32(self.data@, offset + 4)) as u64,
            )
        }
    }

    /// The `len` bytes at `offset`, if they are inside the blob.
    pub open spec fn run(&self, offset: int, len: int) -> Option<Seq<u8>> {
        if offset + len > self.header.totalsize {
            None
        } else {
            Some(self.data@.subrange(offset, offset + len))
        }
    }

    /// The NUL terminated text at `offset`, if it ends before `limit` and
    /// before the end of the blob.
    pub open spec fn name(&self, offset: int, limit: int) -> Option<Seq<u8>> {
        let bound = if limit < self.header.totalsize {
            limit
        } else {
            self.header.totalsize as int
        };
        let end = text::first(self.data@, 0, offset, bound);
        if offset >= bound || end == bound {
            None
        } else if !vstd::utf8::valid_utf8(self.data@.subrange(offset, end)) {
            None
        } else {
            Some(self.data@.subrange(offset, end))
        }
    }

    /// A property name, which is text inside the strings block.
    pub open spec fn key(&self, name_offset: int) -> Option<Seq<u8>> {
        let start = self.header.off_dt_strings + name_offset;
        let end = self.header.off_dt_strings + self.header.size_dt_strings;
        if start >= end {
            None
        } else {
            self.name(start, end)
        }
    }

    /// Read a big endian `u32` at `offset`, if it is inside the blob.
    pub fn u32_at(&self, offset: u32) -> (r: Option<u32>)
        requires
            self.wf(),
        ensures
            r == self.word(offset as int),
    {
        match offset.checked_add(4) {
            Some(end) => {
                if end > self.header.totalsize {
                    None
                } else {
                    Some(read_be32(self.data, offset as usize))
                }
            },
            None => None,
        }
    }

    /// Read a big endian `u64` at `offset`, if it is inside the blob.
    pub fn u64_at(&self, offset: u32) -> (r: Option<u64>)
        requires
            self.wf(),
        ensures
            r == self.long(offset as int),
    {
        let high: u32 = match self.u32_at(offset) {
            Some(high) => high,
            None => {
                return None;
            },
        };
        let low: u32 = match self.u32_at(offset + 4) {
            Some(low) => low,
            None => {
                return None;
            },
        };
        Some(0x1_0000_0000 * high as u64 + low as u64)
    }

    /// Borrow `len` bytes at `offset`, if they are inside the blob.
    pub fn bytes_at(&self, offset: u32, len: u32) -> (r: Option<&'a [u8]>)
        requires
            self.wf(),
        ensures
            r is Some == self.run(offset as int, len as int) is Some,
            r is Some ==> r->0@ == self.run(offset as int, len as int)->0,
    {
        match offset.checked_add(len) {
            Some(end) => {
                if end > self.header.totalsize {
                    None
                } else {
                    Some(slice_subrange(self.data, offset as usize, end as usize))
                }
            },
            None => None,
        }
    }

    /// Read a NUL terminated string at `offset`, refusing to run past `limit`:
    /// a blob that forgets the terminator is asking for a read until one turns
    /// up somewhere else.
    pub fn str_at(&self, offset: u32, limit: u32) -> (r: Option<&'a str>)
        requires
            self.wf(),
        ensures
            r is Some == self.name(offset as int, limit as int) is Some,
            r is Some ==> r->0.spec_bytes() == self.name(offset as int, limit as int)->0,
    {
        let bound: u32 = if limit < self.header.totalsize {
            limit
        } else {
            self.header.totalsize
        };
        if offset >= bound {
            return None;
        }
        let end: usize = text::find(self.data, 0, offset as usize, bound as usize);
        if end == bound as usize {
            return None;
        }
        text::as_text(slice_subrange(self.data, offset as usize, end))
    }

    /// Resolve a property name, which lives in the strings block.
    pub fn string(&self, name_offset: u32) -> (r: Option<&'a str>)
        requires
            self.wf(),
        ensures
            r is Some == self.key(name_offset as int) is Some,
            r is Some ==> r->0.spec_bytes() == self.key(name_offset as int)->0,
    {
        let end: u32 = self.header.off_dt_strings + self.header.size_dt_strings;
        let start: u32 = match self.header.off_dt_strings.checked_add(name_offset) {
            Some(start) => start,
            None => {
                return None;
            },
        };
        if start >= end {
            return None;
        }
        self.str_at(start, end)
    }
}

// ---------------------------------------------------------------------------
// The structure block.
//
// A depth first serialisation of the tree, made of four byte tokens. A node
// opens with a token and its name, carries its properties, then its children,
// then a closing token. A property's name is an offset into a separate block.
// ---------------------------------------------------------------------------

pub const FDT_BEGIN_NODE: u32 = 0x1;

pub const FDT_END_NODE: u32 = 0x2;

pub const FDT_PROP: u32 = 0x3;

pub const FDT_NOP: u32 = 0x4;

pub const FDT_END: u32 = 0x9;

/// How deep the walker will follow the tree. A blob that claims to be deeper is
/// treated as malformed.
pub const MAX_DEPTH: usize = 16;

/// What `#address-cells` means when a node does not say. Not inherited.
pub const DEFAULT_ADDRESS_CELLS: u32 = 2;

/// What `#size-cells` means when a node does not say. Not inherited.
pub const DEFAULT_SIZE_CELLS: u32 = 1;

/// A node found in the tree.
///
/// The cell counts are the parent's, because that is what this node's `reg` is
/// written in. A node's own counts describe its children, never itself.
#[derive(Clone, Copy, PartialEq, Eq, Debug, Structural)]
pub struct Node {
    /// Offset of the opening token from the start of the blob.
    pub offset: u32,
    /// 1 for the root, 2 for its children, and so on.
    pub depth: usize,
    pub address_cells: u32,
    pub size_cells: u32,
}

/// One thing the walker found.
#[derive(Debug)]
pub enum Step<'a> {
    /// A node opened. The walker's depth is now this node's depth.
    Node(Node, &'a str),
    /// A property of whichever node is currently open.
    Property(&'a str, &'a [u8]),
}

/// One thing in a tree: a node and its name, or a property and its value.
pub enum Item {
    Node(Node, Seq<u8>),
    Property(Seq<u8>, Seq<u8>),
}

/// A place in the structure block: how deep it is, and what the open nodes
/// declared for their children.
pub struct Cursor {
    pub offset: int,
    pub depth: int,
    pub cells: Seq<(u32, u32)>,
}

/// The bytes of some text.
pub open spec fn bytes_of(name: &str) -> Seq<u8> {
    name.spec_bytes()
}

/// A value that is one cell, or begins with one.
pub open spec fn cell_of(value: Seq<u8>) -> Option<u32> {
    if value.len() < 4 {
        None
    } else {
        Some(be32(value, 0))
    }
}

/// The cell counts once a property of the node open at `depth` has gone past.
pub open spec fn declared(
    cells: Seq<(u32, u32)>,
    depth: int,
    name: Seq<u8>,
    value: Seq<u8>,
) -> Seq<(u32, u32)> {
    if depth == 0 || cell_of(value) is None {
        cells
    } else if name == bytes_of("#address-cells") {
        cells.update(depth, (cell_of(value)->0, cells[depth].1))
    } else if name == bytes_of("#size-cells") {
        cells.update(depth, (cells[depth].0, cell_of(value)->0))
    } else {
        cells
    }
}

/// The property at `offset`, if it is one that can be read: its name, its
/// value, and where the next token is.
pub open spec fn property_at(b: Blob, offset: int) -> Option<(Seq<u8>, Seq<u8>, int)> {
    match (b.word(offset + 4), b.word(offset + 8)) {
        (Some(len), Some(name_offset)) => match (b.run(offset + 12, len as int), b.key(
            name_offset as int,
        )) {
            (Some(value), Some(name)) => Some((name, value, aligned(offset + 12 + len))),
            _ => None,
        },
        _ => None,
    }
}

/// The next node or property from a place in the tree, and the place after it.
///
/// There is none at the end of the tree, and none where the tree is malformed:
/// a token that is not a token, a length that runs off the end, a name with no
/// terminator, a tree deeper than the walker can hold.
pub open spec fn scan(b: Blob, c: Cursor) -> Option<(Item, Cursor)>
    decreases b.end() + 4 - c.offset,
{
    if c.offset >= b.end() {
        None
    } else {
        match b.word(c.offset) {
            None => None,
            Some(token) => if token == FDT_NOP {
                scan(b, Cursor { offset: c.offset + 4, ..c })
            } else if token == FDT_END_NODE {
                if c.depth == 0 {
                    None
                } else {
                    scan(b, Cursor { offset: c.offset + 4, depth: c.depth - 1, ..c })
                }
            } else if token == FDT_BEGIN_NODE {
                match b.name(c.offset + 4, b.end()) {
                    None => None,
                    Some(name) => if c.depth + 1 >= MAX_DEPTH {
                        None
                    } else {
                        Some(
                            (
                                Item::Node(
                                    Node {
                                        offset: c.offset as u32,
                                        depth: (c.depth + 1) as usize,
                                        address_cells: c.cells[c.depth].0,
                                        size_cells: c.cells[c.depth].1,
                                    },
                                    name,
                                ),
                                Cursor {
                                    offset: aligned(c.offset + 4 + name.len() + 1),
                                    depth: c.depth + 1,
                                    cells: c.cells.update(
                                        c.depth + 1,
                                        (DEFAULT_ADDRESS_CELLS, DEFAULT_SIZE_CELLS),
                                    ),
                                },
                            ),
                        )
                    },
                }
            } else if token == FDT_PROP {
                match property_at(b, c.offset) {
                    None => None,
                    Some((name, value, next)) => Some(
                        (
                            Item::Property(name, value),
                            Cursor {
                                offset: next,
                                depth: c.depth,
                                cells: declared(c.cells, c.depth, name, value),
                            },
                        ),
                    ),
                }
            } else {
                None
            },
        }
    }
}

/// Where the tokens that only close nodes or stand for deleted ones have gone
/// past: at the next node or property, or where the walk ends.
pub open spec fn resting(b: Blob, c: Cursor) -> Cursor
    decreases b.end() + 4 - c.offset,
{
    if c.offset >= b.end() {
        c
    } else if b.word(c.offset) == Some(FDT_NOP) {
        resting(b, Cursor { offset: c.offset + 4, ..c })
    } else if b.word(c.offset) == Some(FDT_END_NODE) && c.depth != 0 {
        resting(b, Cursor { offset: c.offset + 4, depth: c.depth - 1, ..c })
    } else {
        c
    }
}

/// The top of the structure block.
pub open spec fn top(b: Blob) -> Cursor {
    Cursor {
        offset: b.header.off_dt_struct as int,
        depth: 0,
        cells: Seq::new(16, |i: int| (DEFAULT_ADDRESS_CELLS, DEFAULT_SIZE_CELLS)),
    }
}

/// A step of the walker is an item of the tree.
pub open spec fn is_item(step: Step, item: Item) -> bool {
    match step {
        Step::Node(node, name) => item == Item::Node(node, bytes_of(name)),
        Step::Property(name, value) => item == Item::Property(bytes_of(name), value@),
    }
}

/// A cursor over the structure block.
///
/// Holds the cell counts for every level currently open, because a node's
/// `reg` is decoded with numbers that were declared by its parent, several
/// tokens ago and possibly several levels up.
#[derive(Debug)]
pub struct Walker<'a> {
    pub blob: Blob<'a>,
    pub offset: u32,
    pub end: u32,
    pub depth: usize,
    /// What the node open at each depth declared for its children.
    pub cells: Vec<(u32, u32)>,
}

/// A `#address-cells` or `#size-cells` value, if it is one.
fn read_cells(value: &[u8]) -> (r: Option<u32>)
    ensures
        r == cell_of(value@),
{
    if value.len() < 4 {
        None
    } else {
        Some(read_be32(value, 0))
    }
}

impl<'a> Walker<'a> {
    /// The walk is inside a blob that can be walked.
    pub open spec fn wf(&self) -> bool {
        &&& self.blob.wf()
        &&& self.end == self.blob.end()
        &&& self.depth < MAX_DEPTH
        &&& self.cells@.len() == MAX_DEPTH
    }

    /// Where the walk is.
    pub open spec fn cursor(&self) -> Cursor {
        Cursor { offset: self.offset as int, depth: self.depth as int, cells: self.cells@ }
    }

    /// A walk from `offset`.
    pub fn at(blob: &Blob<'a>, offset: u32) -> (w: Walker<'a>)
        requires
            blob.wf(),
        ensures
            w.wf(),
            w.blob == *blob,
            w.cursor() == (Cursor { offset: offset as int, ..top(*blob) }),
    {
        let end: u32 = blob.header.off_dt_struct + blob.header.size_dt_struct;
        let mut cells: Vec<(u32, u32)> = Vec::new();
        let mut i: usize = 0;
        while i < MAX_DEPTH
            invariant
                i <= MAX_DEPTH,
                cells@ == Seq::new(
                    i as nat,
                    |i: int| (DEFAULT_ADDRESS_CELLS, DEFAULT_SIZE_CELLS),
                ),
            decreases MAX_DEPTH - i,
        {
            cells.push((DEFAULT_ADDRESS_CELLS, DEFAULT_SIZE_CELLS));
            i += 1;
        }
        Walker { blob: *blob, offset, end, depth: 0, cells }
    }

    /// How deep the walk currently is. 0 is outside the root.
    pub fn depth(&self) -> (r: usize)
        ensures
            r == self.depth,
    {
        self.depth
    }

    /// The next node or property, or nothing at the end of the tree and
    /// wherever the tree is malformed. Once there is nothing, there never is.
    #[verifier::rlimit(30)]
    pub fn next(&mut self) -> (r: Option<Step<'a>>)
        requires
            old(self).wf(),
        ensures
            final(self).wf(),
            final(self).blob == old(self).blob,
            match scan(old(self).blob, old(self).cursor()) {
                Some((item, next)) => {
                    &&& r is Some
                    &&& is_item(r->0, item)
                    &&& final(self).cursor() == next
                },
                None => {
                    &&& r is None
                    &&& final(self).cursor() == resting(old(self).blob, old(self).cursor())
                    &&& scan(final(self).blob, final(self).cursor()) is None
                },
            },
    {
        let ghost b = self.blob;
        let ghost target = scan(b, self.cursor());
        let ghost rest = resting(b, self.cursor());
        loop
            invariant
                self.wf(),
                self.blob == b,
                b == old(self).blob,
                target == scan(old(self).blob, old(self).cursor()),
                scan(b, self.cursor()) == target,
                rest == resting(old(self).blob, old(self).cursor()),
                resting(b, self.cursor()) == rest,
            decreases b.end() + 4 - self.offset,
        {
            if self.offset >= self.end {
                return None;
            }
            let offset: u32 = self.offset;
            let token: u32 = match self.blob.u32_at(offset) {
                Some(token) => token,
                None => {
                    return None;
                },
            };
            if token == FDT_NOP {
                self.offset = offset + 4;
            } else if token == FDT_END_NODE {
                if self.depth == 0 {
                    return None;
                }
                self.depth = self.depth - 1;
                self.offset = offset + 4;
            } else if token == FDT_BEGIN_NODE {
                let name: &'a str = match self.blob.str_at(offset + 4, self.end) {
                    Some(name) => name,
                    None => {
                        return None;
                    },
                };
                if self.depth + 1 >= MAX_DEPTH {
                    return None;
                }
                let parent: (u32, u32) = self.cells[self.depth];
                let depth: usize = self.depth + 1;
                self.depth = depth;
                self.cells.set(depth, (DEFAULT_ADDRESS_CELLS, DEFAULT_SIZE_CELLS));
                proof {
                    text::lemma_first(b.data@, 0, offset + 4, b.end());
                }
                let len: usize = name.as_bytes().len();
                // Name, its NUL, then padding back to a four byte boundary.
                self.offset = align4(offset + 4 + len as u32 + 1);
                let node = Node {
                    offset,
                    depth,
                    address_cells: parent.0,
                    size_cells: parent.1,
                };
                return Some(Step::Node(node, name));
            } else if token == FDT_PROP {
                let len: u32 = match self.blob.u32_at(offset + 4) {
                    Some(len) => len,
                    None => {
                        return None;
                    },
                };
                let name_offset: u32 = match self.blob.u32_at(offset + 8) {
                    Some(name_offset) => name_offset,
                    None => {
                        return None;
                    },
                };
                let value: &'a [u8] = match self.blob.bytes_at(offset + 12, len) {
                    Some(value) => value,
                    None => {
                        return None;
                    },
                };
                let name: &'a str = match self.blob.string(name_offset) {
                    Some(name) => name,
                    None => {
                        return None;
                    },
                };
                self.offset = align4(offset + 12 + len);
                // Recorded as they go past: every `reg` in the subtree below is
                // read with them.
                if self.depth > 0 {
                    if let Some(cells) = read_cells(value) {
                        let before: (u32, u32) = self.cells[self.depth];
                        if text::same(name.as_bytes(), "#address-cells".as_bytes()) {
                            self.cells.set(self.depth, (cells, before.1));
                        } else if text::same(name.as_bytes(), "#size-cells".as_bytes()) {
                            self.cells.set(self.depth, (before.0, cells));
                        }
                    }
                }
                return Some(Step::Property(name, value));
            } else {
                // The end, or not a token at all, in which case everything
                // after this point is guesswork.
                return None;
            }
        }
    }
}

// ---------------------------------------------------------------------------
// Properties.
// ---------------------------------------------------------------------------

/// The readable properties from `offset` on, up to the first token that is
/// neither a property nor a deleted one.
pub open spec fn property_list(b: Blob, offset: int) -> Seq<(Seq<u8>, Seq<u8>)>
    decreases b.header.totalsize - offset,
{
    match b.word(offset) {
        None => Seq::empty(),
        Some(token) => if token == FDT_NOP {
            property_list(b, offset + 4)
        } else if token == FDT_PROP {
            match property_at(b, offset) {
                None => Seq::empty(),
                Some((name, value, next)) => if offset < next <= b.header.totalsize {
                    seq![(name, value)] + property_list(b, next)
                } else {
                    seq![(name, value)]
                },
            }
        } else {
            Seq::empty()
        },
    }
}

/// Where a node's properties start: they come before its children, right after
/// its name.
pub open spec fn properties_at(b: Blob, node: Node) -> int {
    match b.name(node.offset + 4, b.header.totalsize as int) {
        Some(name) => aligned(node.offset + 4 + name.len() + 1),
        None => u32::MAX as int,
    }
}

/// A node's properties, in order.
pub open spec fn properties_of(b: Blob, node: Node) -> Seq<(Seq<u8>, Seq<u8>)> {
    property_list(b, properties_at(b, node))
}

/// The value of the first property called `name`.
pub open spec fn lookup(list: Seq<(Seq<u8>, Seq<u8>)>, name: Seq<u8>) -> Option<Seq<u8>>
    decreases list.len(),
{
    if list.len() == 0 {
        None
    } else if list[0].0 == name {
        Some(list[0].1)
    } else {
        lookup(list.drop_first(), name)
    }
}

/// A node's property by name.
pub open spec fn value_of(b: Blob, node: Node, name: Seq<u8>) -> Option<Seq<u8>> {
    lookup(properties_of(b, node), name)
}

/// The properties of one node, in the order the blob stores them.
#[derive(Debug)]
pub struct Properties<'a> {
    pub blob: Blob<'a>,
    pub offset: u32,
}

impl<'a> Properties<'a> {
    /// What is still to come.
    pub open spec fn rest(&self) -> Seq<(Seq<u8>, Seq<u8>)> {
        property_list(self.blob, self.offset as int)
    }

    /// The next property: its name and its value.
    pub fn next(&mut self) -> (r: Option<(&'a str, &'a [u8])>)
        requires
            old(self).blob.wf(),
        ensures
            final(self).blob == old(self).blob,
            r is None == (old(self).rest().len() == 0),
            match r {
                Some((name, value)) => {
                    &&& bytes_of(name) == old(self).rest()[0].0
                    &&& value@ == old(self).rest()[0].1
                    &&& final(self).rest() == old(self).rest().drop_first()
                },
                None => final(self).rest().len() == 0,
            },
    {
        let ghost b = self.blob;
        let ghost list = self.rest();
        loop
            invariant
                self.blob == b,
                b == old(self).blob,
                b.wf(),
                list == old(self).rest(),
                self.rest() == list,
            decreases b.header.totalsize - self.offset,
        {
            let offset: u32 = self.offset;
            let token: u32 = match self.blob.u32_at(offset) {
                Some(token) => token,
                None => {
                    return None;
                },
            };
            // A token that was deleted in place.
            if token == FDT_NOP {
                self.offset = offset + 4;
            } else if token == FDT_PROP {
                let len: u32 = match self.blob.u32_at(offset + 4) {
                    Some(len) => len,
                    None => {
                        return None;
                    },
                };
                let name_offset: u32 = match self.blob.u32_at(offset + 8) {
                    Some(name_offset) => name_offset,
                    None => {
                        return None;
                    },
                };
                let value: &'a [u8] = match self.blob.bytes_at(offset + 12, len) {
                    Some(value) => value,
                    None => {
                        return None;
                    },
                };
                let name: &'a str = match self.blob.string(name_offset) {
                    Some(name) => name,
                    None => {
                        return None;
                    },
                };
                self.offset = align4(offset + 12 + len);
                proof {
                    let next = self.offset as int;
                    assert(list[0] == (bytes_of(name), value@));
                    if next > b.header.totalsize {
                        assert(b.word(next) is None);
                    }
                    assert(list.drop_first() =~= property_list(b, next));
                }
                return Some((name, value));
            } else {
                return None;
            }
        }
    }
}

/// What an entry of `count` cells says, as one number.
pub open spec fn cells_of(bytes: Seq<u8>, count: int) -> u64 {
    if count == 0 {
        0
    } else if count == 1 {
        be32(bytes, 0) as u64
    } else {
        (0x1_0000_0000 * be32(bytes, 0) + be32(bytes, 4)) as u64
    }
}

/// Read `count` big endian cells as one number, and return what is left.
fn take_cells(bytes: &[u8], count: u32) -> (r: Option<(u64, &[u8])>)
    requires
        count <= 2,
    ensures
        match r {
            Some((value, rest)) => {
                &&& 4 * count <= bytes@.len()
                &&& value == cells_of(bytes@, count as int)
                &&& rest@ == bytes@.skip(4 * count)
            },
            None => bytes@.len() < 4 * count,
        },
{
    let size: usize = 4 * count as usize;
    if bytes.len() < size {
        return None;
    }
    let value: u64 = if count == 0 {
        0
    } else if count == 1 {
        read_be32(bytes, 0) as u64
    } else {
        0x1_0000_0000 * read_be32(bytes, 0) as u64 + read_be32(bytes, 4) as u64
    };
    let rest: &[u8] = slice_subrange(bytes, size, bytes.len());
    assert(rest@ =~= bytes@.skip(4 * count));
    Some((value, rest))
}

/// Size of a `reg` entry in bytes, in a node's parent's cells.
pub open spec fn entry_size(node: Node) -> int {
    (node.address_cells + node.size_cells) * 4
}

/// Entry `index` of a node's `reg`, as an address and a length, decoded with
/// the parent's cell counts. More than two cells is a number that could not be
/// held, and refusing beats truncating.
pub open spec fn reg_of(b: Blob, node: Node, index: int) -> Option<(u64, u64)> {
    if node.address_cells > 2 || node.size_cells > 2 || node.address_cells == 0 {
        None
    } else {
        match value_of(b, node, bytes_of("reg")) {
            None => None,
            Some(value) => {
                let start = index * entry_size(node);
                if start + entry_size(node) > value.len() {
                    None
                } else {
                    Some(
                        (
                            cells_of(value.skip(start), node.address_cells as int),
                            cells_of(
                                value.skip(start + 4 * node.address_cells),
                                node.size_cells as int,
                            ),
                        ),
                    )
                }
            },
        }
    }
}

/// One window from a node's `reg`.
#[derive(Clone, Copy, PartialEq, Eq, Debug, Structural)]
pub struct Region {
    pub base: u64,
    pub size: u64,
}

impl Default for Region {
    fn default() -> (r: Region)
        ensures
            r == (Region { base: 0, size: 0 }),
    {
        Region { base: 0, size: 0 }
    }
}

impl<'a> Blob<'a> {
    /// Walk from the top of the structure block.
    pub fn walk(&self) -> (w: Walker<'a>)
        requires
            self.wf(),
        ensures
            w.wf(),
            w.blob == *self,
            w.cursor() == top(*self),
    {
        Walker::at(self, self.header.off_dt_struct)
    }

    /// Every property of a node, in order.
    pub fn properties(&self, node: &Node) -> (p: Properties<'a>)
        requires
            self.wf(),
            node.offset + 4 <= u32::MAX,
        ensures
            p.blob == *self,
            p.offset == properties_at(*self, *node),
    {
        let start: u32 = node.offset + 4;
        let offset: u32 = match self.str_at(start, self.header.totalsize) {
            Some(name) => {
                proof {
                    text::lemma_first(
                        self.data@,
                        0,
                        start as int,
                        self.header.totalsize as int,
                    );
                }
                let len: usize = name.as_bytes().len();
                align4(start + len as u32 + 1)
            },
            None => u32::MAX,
        };
        Properties { blob: *self, offset }
    }

    /// One property of a node by name.
    pub fn property(&self, node: &Node, name: &str) -> (r: Option<&'a [u8]>)
        requires
            self.wf(),
            node.offset + 4 <= u32::MAX,
        ensures
            r is Some == value_of(*self, *node, bytes_of(name)) is Some,
            r is Some ==> r->0@ == value_of(*self, *node, bytes_of(name))->0,
    {
        let mut properties = self.properties(node);
        let ghost wanted = value_of(*self, *node, bytes_of(name));
        loop
            invariant
                properties.blob == *self,
                self.wf(),
                wanted == value_of(*self, *node, bytes_of(name)),
                lookup(properties.rest(), bytes_of(name)) == wanted,
            decreases properties.rest().len(),
        {
            match properties.next() {
                Some((found, value)) => {
                    if text::same(found.as_bytes(), name.as_bytes()) {
                        return Some(value);
                    }
                },
                None => {
                    return None;
                },
            }
        }
    }

    /// A property that is a single big endian `u32`.
    pub fn property_u32(&self, node: &Node, name: &str) -> (r: Option<u32>)
        requires
            self.wf(),
            node.offset + 4 <= u32::MAX,
        ensures
            r == match value_of(*self, *node, bytes_of(name)) {
                Some(value) => cell_of(value),
                None => None::<u32>,
            },
    {
        match self.property(node, name) {
            Some(value) => read_cells(value),
            None => None,
        }
    }

    /// A property that is a NUL terminated string.
    pub fn property_str(&self, node: &Node, name: &str) -> (r: Option<&'a str>)
        requires
            self.wf(),
            node.offset + 4 <= u32::MAX,
        ensures
            match value_of(*self, *node, bytes_of(name)) {
                Some(value) => {
                    let end = text::first(value, 0, 0, value.len() as int);
                    if end < value.len() && vstd::utf8::valid_utf8(value.take(end)) {
                        r is Some && bytes_of(r->0) == value.take(end)
                    } else {
                        r is None
                    }
                },
                None => r is None,
            },
    {
        let value: &'a [u8] = match self.property(node, name) {
            Some(value) => value,
            None => {
                return None;
            },
        };
        let end: usize = text::find(value, 0, 0, value.len());
        if end == value.len() {
            return None;
        }
        assert(value@.take(end as int) =~= value@.subrange(0, end as int));
        text::as_text(slice_subrange(value, 0, end))
    }

    /// Entry `index` of a node's `reg`, as an address and a length.
    pub fn reg(&self, node: &Node, index: usize) -> (r: Option<(u64, u64)>)
        requires
            self.wf(),
            node.offset + 4 <= u32::MAX,
        ensures
            r == reg_of(*self, *node, index as int),
    {
        if node.address_cells > 2 || node.size_cells > 2 || node.address_cells == 0 {
            return None;
        }
        let value: &'a [u8] = match self.property(node, "reg") {
            Some(value) => value,
            None => {
                return None;
            },
        };
        let entry: usize = ((node.address_cells + node.size_cells) * 4) as usize;
        let len: usize = value.len();
        proof {
            assert(index * entry >= 0) by (nonlinear_arith);
            assert(entry == entry_size(*node));
        }
        let start: usize = match index.checked_mul(entry) {
            Some(start) => start,
            None => {
                assert(index * entry > len);
                return None;
            },
        };
        if start > len || len - start < entry {
            return None;
        }
        let bytes: &[u8] = slice_subrange(value, start, start + entry);
        let ghost whole = value@.skip(start as int);
        let (address, rest) = match take_cells(bytes, node.address_cells) {
            Some(taken) => taken,
            None => {
                return None;
            },
        };
        let size: u64 = match take_cells(rest, node.size_cells) {
            Some((size, _)) => size,
            None => {
                return None;
            },
        };
        proof {
            let more = value@.skip(start + 4 * node.address_cells);
            assert forall|i: int| 0 <= i < entry implies #[trigger] bytes@[i] == whole[i] by {}
            assert forall|i: int| 0 <= i < 4 * node.size_cells implies #[trigger] rest@[i]
                == more[i] by {}
            assert(cells_of(bytes@, node.address_cells as int) == cells_of(
                whole,
                node.address_cells as int,
            ));
            assert(cells_of(rest@, node.size_cells as int) == cells_of(
                more,
                node.size_cells as int,
            ));
        }
        Some((address, size))
    }

    /// Every `reg` entry of a node, up to `out.len()`, and how many there were.
    ///
    /// A device with more than one window is the normal case: taking only the
    /// first gives an address that then answers reads with plausible nonsense.
    pub fn regions(&self, node: &Node, out: &mut [Region]) -> (found: usize)
        requires
            self.wf(),
            node.offset + 4 <= u32::MAX,
        ensures
            found <= old(out)@.len(),
            final(out)@.len() == old(out)@.len(),
            forall|i: int|
                0 <= i < found ==> Some(
                    ((#[trigger] final(out)@[i]).base, final(out)@[i].size),
                ) == reg_of(*self, *node, i),
            forall|i: int|
                found <= i < old(out)@.len() ==> #[trigger] final(out)@[i] == old(out)@[i],
            found < old(out)@.len() ==> reg_of(*self, *node, found as int) is None,
    {
        let mut found: usize = 0;
        while found < out.len()
            invariant
                self.wf(),
                node.offset + 4 <= u32::MAX,
                found <= out@.len(),
                out@.len() == old(out)@.len(),
                forall|i: int|
                    0 <= i < found ==> Some(((#[trigger] out@[i]).base, out@[i].size)) == reg_of(
                        *self,
                        *node,
                        i,
                    ),
                forall|i: int|
                    found <= i < old(out)@.len() ==> #[trigger] out@[i] == old(out)@[i],
            decreases out@.len() - found,
        {
            match self.reg(node, found) {
                Some((base, size)) => {
                    out[found] = Region { base, size };
                },
                None => {
                    return found;
                },
            }
            found += 1;
        }
        found
    }
}

/// Is `wanted` one of the NUL separated strings in this property?
///
/// `compatible` is a list, most specific first, and matching it as one string
/// would miss every device that names a specific model before a generic one.
pub fn string_list_contains(list: &[u8], wanted: &str) -> (r: bool)
    ensures
        r == text::split(list@, 0).contains(bytes_of(wanted)),
{
    text::list_contains(list, wanted.as_bytes())
}

// ---------------------------------------------------------------------------
// Searching the tree.
// ---------------------------------------------------------------------------

/// Everything in the tree from a place on, in order.
pub open spec fn items(b: Blob, c: Cursor) -> Seq<Item>
    decreases b.end() - c.offset,
{
    match scan(b, c) {
        None => Seq::empty(),
        Some((item, next)) => if c.offset < next.offset <= b.end() {
            seq![item] + items(b, next)
        } else {
            seq![item]
        },
    }
}

/// Everything in the tree, in order.
pub open spec fn tree(b: Blob) -> Seq<Item> {
    items(b, top(b))
}

/// A scan gets further: what it finds starts no earlier than where it began,
/// and ends later.
proof fn lemma_scan(b: Blob, c: Cursor)
    requires
        b.wf(),
        0 <= c.offset,
        0 <= c.depth < MAX_DEPTH,
    ensures
        match scan(b, c) {
            Some((item, next)) => {
                &&& c.offset < next.offset
                &&& 0 <= next.depth < MAX_DEPTH
                &&& match item {
                    Item::Node(node, name) => {
                        &&& c.offset <= node.offset < next.offset
                        &&& node.offset < b.end()
                        &&& node.depth == next.depth
                        &&& 1 <= node.depth
                    },
                    _ => true,
                }
            },
            None => true,
        },
    decreases b.end() + 4 - c.offset,
{
    if c.offset < b.end() {
        match b.word(c.offset) {
            Some(token) => {
                if token == FDT_NOP {
                    lemma_scan(b, Cursor { offset: c.offset + 4, ..c });
                } else if token == FDT_END_NODE && c.depth > 0 {
                    lemma_scan(b, Cursor { offset: c.offset + 4, depth: c.depth - 1, ..c });
                } else if token == FDT_BEGIN_NODE && c.offset + 4 <= b.end() {
                    text::lemma_first(b.data@, 0, c.offset + 4, b.end());
                }
            },
            None => {},
        }
    }
}

/// What is found first comes first, and the rest is what there is from there.
proof fn lemma_items(b: Blob, c: Cursor)
    requires
        b.wf(),
        0 <= c.offset,
        0 <= c.depth < MAX_DEPTH,
    ensures
        match scan(b, c) {
            Some((item, next)) => items(b, c) == seq![item] + items(b, next),
            None => items(b, c) == Seq::<Item>::empty(),
        },
{
    lemma_scan(b, c);
    match scan(b, c) {
        Some((item, next)) => {
            if next.offset > b.end() {
                assert(items(b, next) =~= Seq::<Item>::empty());
                assert(items(b, c) =~= seq![item] + items(b, next));
            }
        },
        None => {},
    }
}

/// Nodes come in the order of their offsets.
proof fn lemma_offsets(b: Blob, c: Cursor)
    requires
        b.wf(),
        0 <= c.offset,
        0 <= c.depth < MAX_DEPTH,
    ensures
        forall|i: int|
            0 <= i < items(b, c).len() && (#[trigger] items(b, c)[i]) is Node ==> {
                let node = items(b, c)[i]->Node_0;
                &&& c.offset <= node.offset < b.end()
                &&& 1 <= node.depth < MAX_DEPTH
            },
        forall|i: int, j: int|
            0 <= i < j < items(b, c).len() && (#[trigger] items(b, c)[i]) is Node && (
            #[trigger] items(b, c)[j]) is Node ==> items(b, c)[i]->Node_0.offset < items(
                b,
                c,
            )[j]->Node_0.offset,
    decreases b.end() - c.offset,
{
    lemma_scan(b, c);
    lemma_items(b, c);
    match scan(b, c) {
        Some((item, next)) => {
            let rest = items(b, next);
            let all = items(b, c);
            if next.offset <= b.end() {
                lemma_offsets(b, next);
            } else {
                assert(rest =~= Seq::<Item>::empty());
            }
            assert forall|i: int| 0 <= i < all.len() && (#[trigger] all[i]) is Node implies ({
                let node = all[i]->Node_0;
                &&& c.offset <= node.offset < b.end()
                &&& 1 <= node.depth < MAX_DEPTH
            }) by {
                if i > 0 {
                    assert(all[i] == rest[i - 1]);
                }
            }
            assert forall|i: int, j: int|
                0 <= i < j < all.len() && (#[trigger] all[i]) is Node && (
                #[trigger] all[j]) is Node implies all[i]->Node_0.offset
                < all[j]->Node_0.offset by {
                assert(all[j] == rest[j - 1]);
                if i > 0 {
                    assert(all[i] == rest[i - 1]);
                }
            }
        },
        None => {},
    }
}

/// Does this node name match this part of a path? It does if it is equal, or if
/// it is the part followed by `@` and a unit address, which a caller asking for
/// a path should not have to know.
pub open spec fn name_fits(name: Seq<u8>, part: Seq<u8>) -> bool {
    let at = text::first(name, 64, 0, name.len() as int);
    name == part || at < name.len() && name.take(at) == part
}

/// Does this node name match this part of a path?
fn name_matches(name: &[u8], part: &[u8]) -> (r: bool)
    ensures
        r == name_fits(name@, part@),
{
    if text::same(name, part) {
        return true;
    }
    let at: usize = text::find(name, 64, 0, name.len());
    assert(name@.take(at as int) =~= name@.subrange(0, at as int));
    at < name.len() && text::same(slice_subrange(name, 0, at), part)
}

/// The last node at `depth` among the first `n` items, or -1.
pub open spec fn last_at(all: Seq<Item>, n: int, depth: int) -> int
    decreases n,
{
    if n <= 0 {
        -1
    } else if all[n - 1] is Node && all[n - 1]->Node_0.depth == depth {
        n - 1
    } else {
        last_at(all, n - 1, depth)
    }
}

/// Is item `k` a node that the path leads through? The root has no name; any
/// other node has to match its part of the path, and its parent has to be on
/// the path too.
pub open spec fn on_path(all: Seq<Item>, k: int, parts: Seq<Seq<u8>>) -> bool
    decreases k,
{
    if k < 0 || !(all[k] is Node) {
        false
    } else {
        let depth = all[k]->Node_0.depth as int;
        let name = all[k]->Node_1;
        let parent = last_at(all, k, depth - 1);
        if depth == 1 {
            name.len() == 0
        } else {
            &&& depth - 2 < parts.len()
            &&& name_fits(name, parts[depth - 2])
            &&& 0 <= parent < k && on_path(all, parent, parts)
        }
    }
}

/// Is item `k` the node that the path leads to?
pub open spec fn is_target(all: Seq<Item>, k: int, parts: Seq<Seq<u8>>) -> bool {
    on_path(all, k, parts) && all[k]->Node_0.depth == parts.len() + 1
}

/// The first item from `k` on that the path leads to, or the number of items.
pub open spec fn target_from(all: Seq<Item>, k: int, parts: Seq<Seq<u8>>) -> int
    decreases all.len() - k,
{
    if k >= all.len() {
        all.len() as int
    } else if is_target(all, k, parts) {
        k
    } else {
        target_from(all, k + 1, parts)
    }
}

/// Where in the tree a path leads, or the number of items.
pub open spec fn place(b: Blob, path: Seq<u8>) -> int {
    target_from(tree(b), 0, text::parts(path))
}

/// The node a path leads to.
pub open spec fn node_of(b: Blob, path: Seq<u8>) -> Option<Node> {
    if place(b, path) < tree(b).len() {
        Some(tree(b)[place(b, path)]->Node_0)
    } else {
        None
    }
}

/// A place that is found is one that the path leads to.
proof fn lemma_target(all: Seq<Item>, k: int, parts: Seq<Seq<u8>>)
    requires
        0 <= k <= all.len(),
    ensures
        k <= target_from(all, k, parts) <= all.len(),
        target_from(all, k, parts) < all.len() ==> is_target(
            all,
            target_from(all, k, parts),
            parts,
        ),
    decreases all.len() - k,
{
    if k < all.len() && !is_target(all, k, parts) {
        lemma_target(all, k + 1, parts);
    }
}

/// The last node at a depth is one.
proof fn lemma_last_at(all: Seq<Item>, n: int, depth: int)
    requires
        n <= all.len(),
    ensures
        last_at(all, n, depth) < n || n <= 0,
        last_at(all, n, depth) >= -1,
    decreases n,
{
    if n > 0 {
        lemma_last_at(all, n - 1, depth);
    }
}

/// Is a node one whose `compatible` list contains `wanted`?
pub open spec fn compatible(b: Blob, node: Node, wanted: Seq<u8>) -> bool {
    match value_of(b, node, bytes_of("compatible")) {
        Some(list) => text::split(list, 0).contains(wanted),
        None => false,
    }
}

/// The first item from `k` on that is a compatible node past `offset`, or the
/// number of items.
pub open spec fn compatible_from(b: Blob, k: int, wanted: Seq<u8>, offset: u32) -> int
    decreases tree(b).len() - k,
{
    if k >= tree(b).len() {
        tree(b).len() as int
    } else if tree(b)[k] is Node && tree(b)[k]->Node_0.offset > offset && compatible(
        b,
        tree(b)[k]->Node_0,
        wanted,
    ) {
        k
    } else {
        compatible_from(b, k + 1, wanted, offset)
    }
}

/// The first compatible node past `offset`.
pub open spec fn compatible_after(b: Blob, wanted: Seq<u8>, offset: u32) -> Option<Node> {
    let k = compatible_from(b, 0, wanted, offset);
    if k < tree(b).len() {
        Some(tree(b)[k]->Node_0)
    } else {
        None
    }
}

/// A walk that has seen the first `n` items of its tree.
pub open spec fn walked(w: &Walker, n: int) -> bool {
    &&& w.wf()
    &&& 0 <= n <= tree(w.blob).len()
    &&& tree(w.blob).skip(n) == items(w.blob, w.cursor())
}

/// A walk at the top has seen nothing.
proof fn lemma_walked(w: &Walker)
    requires
        w.wf(),
        w.cursor() == top(w.blob),
    ensures
        walked(w, 0),
{
    assert(tree(w.blob).skip(0) =~= tree(w.blob));
}

/// A walk that goes on has seen one more item, and one that does not has seen
/// them all.
proof fn lemma_walk_on(before: &Walker, after: &Walker, n: int)
    requires
        walked(before, n),
        after.wf(),
        after.blob == before.blob,
        match scan(before.blob, before.cursor()) {
            Some((_, next)) => after.cursor() == next,
            None => true,
        },
    ensures
        match scan(before.blob, before.cursor()) {
            Some((item, _)) => {
                &&& n < tree(before.blob).len()
                &&& tree(before.blob)[n] == item
                &&& walked(after, n + 1)
                &&& item is Node ==> 1 <= item->Node_0.depth < MAX_DEPTH && item->Node_0.offset
                    < before.blob.end()
            },
            None => n == tree(before.blob).len(),
        },
{
    let b = before.blob;
    let all = tree(b);
    let c = before.cursor();
    lemma_items(b, c);
    lemma_scan(b, c);
    match scan(b, c) {
        Some((item, next)) => {
            assert(all.skip(n)[0] == item);
            assert(all[n] == item);
            assert(all.skip(n + 1) =~= all.skip(n).skip(1));
            assert((seq![item] + items(b, next)).skip(1) =~= items(b, next));
        },
        None => {
            assert(all.skip(n).len() == 0);
        },
    }
}

impl<'a> Blob<'a> {
    /// Find a node by path, for example `/` or `/memory` or `/soc/uart`.
    #[verifier::spinoff_prover]
    #[verifier::rlimit(40)]
    pub fn find_node(&self, path: &str) -> (r: Option<Node>)
        requires
            self.wf(),
        ensures
            r == node_of(*self, bytes_of(path)),
    {
        let ghost b = *self;
        let ghost all = tree(b);
        let ghost parts = text::parts(bytes_of(path));
        let wanted: Vec<&[u8]> = text::components(path.as_bytes());
        let count: usize = wanted.len();
        // Is the node last opened at each depth on the path?
        let mut on: Vec<bool> = Vec::new();
        let mut depth: usize = 0;
        while depth < MAX_DEPTH
            invariant
                depth <= MAX_DEPTH,
                on@.len() == depth,
                forall|d: int| 0 <= d < depth ==> !#[trigger] on@[d],
            decreases MAX_DEPTH - depth,
        {
            on.push(false);
            depth += 1;
        }
        let mut walker = self.walk();
        let ghost mut n: int = 0;
        proof {
            lemma_walked(&walker);
            lemma_offsets(b, top(b));
        }
        loop
            invariant
                walked(&walker, n),
                walker.blob == b,
                b == *self,
                b.wf(),
                all == tree(b),
                parts == text::parts(bytes_of(path)),
                wanted@.len() == parts.len(),
                count == parts.len(),
                forall|i: int| 0 <= i < wanted@.len() ==> (#[trigger] wanted@[i])@ == parts[i],
                on@.len() == MAX_DEPTH,
                forall|d: int|
                    1 <= d < MAX_DEPTH ==> #[trigger] on@[d] == on_path(
                        all,
                        last_at(all, n, d),
                        parts,
                    ),
                target_from(all, 0, parts) == target_from(all, n, parts),
            decreases all.len() - n,
        {
            let ghost before = walker;
            let step: Option<Step<'a>> = walker.next();
            proof {
                lemma_walk_on(&before, &walker, n);
            }
            match step {
                None => {
                    return None;
                },
                Some(Step::Property(_, _)) => {
                    proof {
                        assert(all[n] is Property);
                        n = n + 1;
                    }
                },
                Some(Step::Node(node, name)) => {
                    let name: &[u8] = name.as_bytes();
                    proof {
                        lemma_last_at(all, n, node.depth - 1);
                        assert(all[n] == Item::Node(node, name@));
                    }
                    let matched: bool = if node.depth == 1 {
                        // The root's name is empty, and every path starts
                        // there.
                        name.len() == 0
                    } else if node.depth - 2 < count {
                        on[node.depth - 1] && name_matches(name, wanted[node.depth - 2])
                    } else {
                        false
                    };
                    assert(matched == on_path(all, n, parts));
                    on.set(node.depth, matched);
                    if matched && node.depth - 1 == count {
                        assert(is_target(all, n, parts));
                        return Some(node);
                    }
                    proof {
                        n = n + 1;
                    }
                },
            }
        }
    }

    /// The first node past `offset` whose `compatible` list contains `wanted`.
    pub fn find_compatible_after(&self, wanted: &str, offset: u32) -> (r: Option<Node>)
        requires
            self.wf(),
        ensures
            r == compatible_after(*self, bytes_of(wanted), offset),
    {
        let ghost b = *self;
        let ghost all = tree(b);
        let ghost what = bytes_of(wanted);
        let mut walker = self.walk();
        let ghost mut n: int = 0;
        proof {
            lemma_walked(&walker);
        }
        loop
            invariant
                walked(&walker, n),
                walker.blob == b,
                b == *self,
                b.wf(),
                all == tree(b),
                what == bytes_of(wanted),
                compatible_from(b, 0, what, offset) == compatible_from(b, n, what, offset),
            decreases all.len() - n,
        {
            let ghost before = walker;
            let step: Option<Step<'a>> = walker.next();
            proof {
                lemma_walk_on(&before, &walker, n);
            }
            match step {
                None => {
                    return None;
                },
                Some(Step::Property(_, _)) => {},
                Some(Step::Node(node, _)) => {
                    assert(all[n] is Node && all[n]->Node_0 == node);
                    if node.offset > offset {
                        if let Some(list) = self.property(&node, "compatible") {
                            if string_list_contains(list, wanted) {
                                return Some(node);
                            }
                        }
                    }
                },
            }
            proof {
                n = n + 1;
            }
        }
    }

    /// The first node whose `compatible` list contains `wanted`.
    pub fn find_compatible(&self, wanted: &str) -> (r: Option<Node>)
        requires
            self.wf(),
        ensures
            r == compatible_after(*self, bytes_of(wanted), 0),
    {
        self.find_compatible_after(wanted, 0)
    }
}

// ---------------------------------------------------------------------------
// What the tree says about memory.
// ---------------------------------------------------------------------------

/// How many reserved regions the memory map will carry.
pub const MAX_RESERVATIONS: usize = 8;

/// What the tree says about memory.
#[derive(Debug)]
pub struct MemoryMap {
    pub base: u64,
    pub size: u64,
    /// How many entries `/memory`'s `reg` had. More than one means there are
    /// several banks, of which this is the first.
    pub banks: usize,
    /// The regions that must not be handed out.
    pub reservations: Vec<(u64, u64)>,
    /// Reservations that did not fit. Never zero silently.
    pub dropped: usize,
}

/// The regions that reserve anything.
pub open spec fn solid(regions: Seq<(u64, u64)>) -> Seq<(u64, u64)>
    decreases regions.len(),
{
    if regions.len() == 0 {
        Seq::empty()
    } else if regions.last().1 == 0 {
        solid(regions.drop_last())
    } else {
        solid(regions.drop_last()).push(regions.last())
    }
}

impl MemoryMap {
    /// No more reservations than there is room for.
    pub open spec fn wf(&self) -> bool {
        self.reservations@.len() <= MAX_RESERVATIONS
    }

    /// The map holds what was asked to be reserved, as far as it fits, and
    /// counts the rest.
    pub open spec fn holds(&self, asked: Seq<(u64, u64)>) -> bool {
        let all = solid(asked);
        if all.len() <= MAX_RESERVATIONS {
            self.reservations@ == all && self.dropped == 0
        } else {
            &&& self.reservations@ == all.take(MAX_RESERVATIONS as int)
            &&& self.dropped == all.len() - MAX_RESERVATIONS
        }
    }

    /// Nothing known.
    fn empty() -> (m: MemoryMap)
        ensures
            m.wf(),
            m.base == 0,
            m.size == 0,
            m.banks == 0,
            m.holds(Seq::empty()),
    {
        MemoryMap { base: 0, size: 0, banks: 0, reservations: Vec::new(), dropped: 0 }
    }

    /// Keep a region from being handed out.
    fn reserve(&mut self, base: u64, size: u64, Ghost(asked): Ghost<Seq<(u64, u64)>>)
        requires
            old(self).holds(asked),
            asked.len() < usize::MAX,
        ensures
            final(self).holds(asked.push((base, size))),
            final(self).base == old(self).base,
            final(self).size == old(self).size,
            final(self).banks == old(self).banks,
    {
        proof {
            lemma_solid(asked, (base, size));
        }
        if size == 0 {
            return ;
        }
        if self.reservations.len() == MAX_RESERVATIONS {
            self.dropped = self.dropped + 1;
            assert(solid(asked.push((base, size))).take(8) =~= solid(asked).take(8));
            assert(solid(asked).len() == 8 ==> solid(asked).take(8) =~= solid(asked));
            return ;
        }
        self.reservations.push((base, size));
    }

    /// The regions that must not be handed out.
    pub fn reserved(&self) -> (r: &[(u64, u64)])
        ensures
            r@ == self.reservations@,
    {
        self.reservations.as_slice()
    }
}

/// One more region asked for.
proof fn lemma_solid(asked: Seq<(u64, u64)>, region: (u64, u64))
    ensures
        solid(asked).len() <= asked.len(),
        solid(asked.push(region)) == if region.1 == 0 {
            solid(asked)
        } else {
            solid(asked).push(region)
        },
    decreases asked.len(),
{
    assert(asked.push(region).drop_last() =~= asked);
    if asked.len() > 0 {
        let front = asked.drop_last();
        lemma_solid(front, asked.last());
        assert(front.push(asked.last()) =~= asked);
    }
}

/// The header's own reservation block: pairs of big endian numbers, ended by a
/// pair of zeroes or by the end of the blob.
pub open spec fn reservation_block(b: Blob, offset: int) -> Seq<(u64, u64)>
    decreases b.header.totalsize - offset,
{
    match (b.long(offset), b.long(offset + 8)) {
        (Some(base), Some(size)) => if base == 0 && size == 0 {
            Seq::empty()
        } else {
            seq![(base, size)] + reservation_block(b, offset + 16)
        },
        _ => Seq::empty(),
    }
}

/// Is item `k` a child of the node that is item `p`?
pub open spec fn is_child(all: Seq<Item>, p: int, k: int) -> bool {
    &&& p < k
    &&& all[k] is Node
    &&& all[k]->Node_0.depth == all[p]->Node_0.depth + 1
    &&& forall|j: int|
        p < j <= k && (#[trigger] all[j]) is Node ==> all[j]->Node_0.depth
            > all[p]->Node_0.depth
}

/// The first windows of the children of item `p` among the first `n` items.
pub open spec fn child_windows(b: Blob, p: int, n: int) -> Seq<(u64, u64)>
    decreases n,
{
    if n <= 0 {
        Seq::empty()
    } else {
        let before = child_windows(b, p, n - 1);
        if is_child(tree(b), p, n - 1) && reg_of(b, tree(b)[n - 1]->Node_0, 0) is Some {
            before.push(reg_of(b, tree(b)[n - 1]->Node_0, 0)->0)
        } else {
            before
        }
    }
}

/// The windows of the children of `/reserved-memory`.
pub open spec fn reserved_windows(b: Blob) -> Seq<(u64, u64)> {
    let p = place(b, bytes_of("/reserved-memory"));
    if p < tree(b).len() {
        child_windows(b, p, tree(b).len() as int)
    } else {
        Seq::empty()
    }
}

/// Everything the tree asks to be kept: the blob itself, what its reservation
/// block lists, and the children of `/reserved-memory`.
pub open spec fn kept(b: Blob) -> Seq<(u64, u64)> {
    seq![(b.pa, b.header.totalsize as u64)] + reservation_block(
        b,
        b.header.off_mem_rsvmap as int,
    ) + reserved_windows(b)
}

/// Where memory is: the first window of `/memory`, if it is not empty.
pub open spec fn memory_window(b: Blob) -> Option<(u64, u64)> {
    match node_of(b, bytes_of("/memory")) {
        Some(node) => match reg_of(b, node, 0) {
            Some((base, size)) => if size != 0 {
                Some((base, size))
            } else {
                None
            },
            None => None,
        },
        None => None,
    }
}

/// The reservation block is no longer than the blob.
proof fn lemma_block_len(b: Blob, offset: int)
    requires
        b.wf(),
        0 <= offset,
    ensures
        16 * reservation_block(b, offset).len() <= if offset < b.header.totalsize {
            b.header.totalsize - offset
        } else {
            0
        },
    decreases b.header.totalsize - offset,
{
    match (b.long(offset), b.long(offset + 8)) {
        (Some(base), Some(size)) => {
            if !(base == 0 && size == 0) {
                lemma_block_len(b, offset + 16);
            }
        },
        _ => {},
    }
}

/// There is less in a tree than there are bytes in its blob.
proof fn lemma_tree_len(b: Blob, c: Cursor)
    requires
        b.wf(),
        0 <= c.offset,
        0 <= c.depth < MAX_DEPTH,
    ensures
        items(b, c).len() <= if c.offset < b.end() {
            b.end() - c.offset
        } else {
            0
        },
    decreases b.end() - c.offset,
{
    lemma_scan(b, c);
    lemma_items(b, c);
    match scan(b, c) {
        Some((item, next)) => {
            if next.offset <= b.end() {
                lemma_tree_len(b, next);
            } else {
                assert(items(b, next) =~= Seq::<Item>::empty());
            }
        },
        None => {},
    }
}

/// There are no more windows than items.
proof fn lemma_windows_len(b: Blob, p: int, n: int)
    ensures
        child_windows(b, p, n).len() <= if n > 0 {
            n
        } else {
            0
        },
    decreases n,
{
    if n > 0 {
        lemma_windows_len(b, p, n - 1);
    }
}

/// Past the end of a subtree there are no more children.
proof fn lemma_no_more_children(b: Blob, p: int, k: int, n: int)
    requires
        0 <= p < k < n <= tree(b).len(),
        tree(b)[k] is Node,
        tree(b)[k]->Node_0.depth <= tree(b)[p]->Node_0.depth,
    ensures
        child_windows(b, p, n) == child_windows(b, p, k),
    decreases n,
{
    assert(!is_child(tree(b), p, n - 1)) by {
        if is_child(tree(b), p, n - 1) {
            assert(tree(b)[k] is Node);
        }
    }
    if n - 1 > k {
        lemma_no_more_children(b, p, k, n - 1);
    }
}

/// Reserve what the children of `/reserved-memory` cover.
#[verifier::spinoff_prover]
#[verifier::rlimit(40)]
fn reserve_children<'a>(
    map: &mut MemoryMap,
    blob: &Blob<'a>,
    parent: Node,
    Ghost(asked): Ghost<Seq<(u64, u64)>>,
)
    requires
        blob.wf(),
        old(map).holds(asked),
        asked.len() < 0x100_0000,
        node_of(*blob, bytes_of("/reserved-memory")) == Some(parent),
    ensures
        final(map).holds(asked + reserved_windows(*blob)),
        final(map).base == old(map).base,
        final(map).size == old(map).size,
        final(map).banks == old(map).banks,
{
    let ghost b = *blob;
    let ghost all = tree(b);
    let ghost p = place(b, bytes_of("/reserved-memory"));
    let mut walker = blob.walk();
    let ghost mut n: int = 0;
    proof {
        lemma_walked(&walker);
        lemma_offsets(b, top(b));
        lemma_target(all, 0, text::parts(bytes_of("/reserved-memory")));
        lemma_tree_len(b, top(b));
        assert(asked + child_windows(b, p, 0) =~= asked);
    }
    loop
        invariant
            walked(&walker, n),
            walker.blob == b,
            b == *blob,
            b.wf(),
            all == tree(b),
            all.len() <= 0x10_0000,
            asked.len() < 0x100_0000,
            p == place(b, bytes_of("/reserved-memory")),
            0 <= p < all.len(),
            all[p] is Node,
            all[p]->Node_0 == parent,
            forall|i: int, j: int|
                0 <= i < j < all.len() && (#[trigger] all[i]) is Node && (
                #[trigger] all[j]) is Node ==> all[i]->Node_0.offset < all[j]->Node_0.offset,
            forall|j: int|
                p < j < n && (#[trigger] all[j]) is Node ==> all[j]->Node_0.depth > parent.depth,
            map.holds(asked + child_windows(b, p, n)),
            map.base == old(map).base,
            map.size == old(map).size,
            map.banks == old(map).banks,
        decreases all.len() - n,
    {
        let ghost before = walker;
        let ghost windows = child_windows(b, p, n);
        let step: Option<Step<'a>> = walker.next();
        proof {
            lemma_walk_on(&before, &walker, n);
            lemma_windows_len(b, p, n);
        }
        match step {
            None => {
                return ;
            },
            Some(Step::Property(_, _)) => {
                assert(!is_child(all, p, n));
            },
            Some(Step::Node(node, _)) => {
                assert(all[n] is Node && all[n]->Node_0 == node);
                if node.offset <= parent.offset {
                    assert(n <= p);
                } else {
                    assert(p < n);
                    if node.depth <= parent.depth {
                        proof {
                            lemma_no_more_children(b, p, n, all.len() as int);
                        }
                        return ;
                    }
                    if node.depth == parent.depth + 1 {
                        assert(is_child(all, p, n));
                        if let Some((base, size)) = blob.reg(&node, 0) {
                            let ghost so_far = asked + windows;
                            map.reserve(base, size, Ghost(so_far));
                            assert(so_far.push((base, size)) =~= asked + child_windows(
                                b,
                                p,
                                n + 1,
                            ));
                        }
                    }
                }
            },
        }
        proof {
            n = n + 1;
        }
    }
}

/// Everything the tree says about memory: where it is, and what is spoken for.
pub fn memory_map<'a>(blob: &Blob<'a>) -> (map: MemoryMap)
    requires
        blob.wf(),
    ensures
        map.wf(),
        map.holds(kept(*blob)),
        match memory_window(*blob) {
            Some((base, size)) => {
                let node = node_of(*blob, bytes_of("/memory"))->0;
                let value = value_of(*blob, node, bytes_of("reg"))->0;
                &&& map.base == base
                &&& map.size == size
                &&& map.banks == value.len() as int / entry_size(node)
            },
            None => map.base == 0 && map.size == 0 && map.banks == 0,
        },
{
    let ghost b = *blob;
    let mut map = MemoryMap::empty();
    // The blob is memory somebody else owns.
    map.reserve(blob.pa, blob.header.totalsize as u64, Ghost(Seq::empty()));
    let ghost own = Seq::<(u64, u64)>::empty().push((blob.pa, blob.header.totalsize as u64));
    let ghost listed = reservation_block(b, b.header.off_mem_rsvmap as int);
    let mut offset: u32 = blob.header.off_mem_rsvmap;
    let ghost mut done = Seq::<(u64, u64)>::empty();
    proof {
        lemma_block_len(b, b.header.off_mem_rsvmap as int);
        assert(own + done =~= own);
        assert(done + listed =~= listed);
    }
    loop
        invariant
            b == *blob,
            b.wf(),
            own.len() == 1,
            listed == done + reservation_block(b, offset as int),
            listed.len() <= 0x10_0000,
            map.holds(own + done),
            map.base == 0,
            map.size == 0,
            map.banks == 0,
            offset <= b.header.totalsize,
        ensures
            done == listed,
            map.holds(own + done),
            map.base == 0,
            map.size == 0,
            map.banks == 0,
        decreases b.header.totalsize - offset,
    {
        match (blob.u64_at(offset), blob.u64_at(offset + 8)) {
            (Some(base), Some(size)) => {
                if base == 0 && size == 0 {
                    assert(done + Seq::<(u64, u64)>::empty() =~= done);
                    break;
                }
                proof {
                    let rest = reservation_block(b, offset + 16);
                    assert(reservation_block(b, offset as int) =~= seq![(base, size)] + rest);
                    assert((own + done).push((base, size)) =~= own + done.push((base, size)));
                    assert(done + (seq![(base, size)] + rest) =~= done.push((base, size)) + rest);
                }
                let ghost so_far = own + done;
                map.reserve(base, size, Ghost(so_far));
                proof {
                    done = done.push((base, size));
                }
                offset = offset + 16;
            },
            _ => {
                assert(done + Seq::<(u64, u64)>::empty() =~= done);
                break;
            },
        }
    }
    match blob.find_node("/reserved-memory") {
        Some(parent) => {
            let ghost so_far = own + listed;
            reserve_children(&mut map, blob, parent, Ghost(so_far));
        },
        None => {
            assert(own + listed + Seq::<(u64, u64)>::empty() =~= own + listed);
        },
    }
    assert(own + listed + reserved_windows(b) =~= kept(b));
    if let Some(memory) = blob.find_node("/memory") {
        proof {
            lemma_offsets(b, top(b));
            lemma_target(tree(b), 0, text::parts(bytes_of("/memory")));
        }
        if let Some((base, size)) = blob.reg(&memory, 0) {
            if size != 0 {
                map.base = base;
                map.size = size;
                map.banks = match blob.property(&memory, "reg") {
                    Some(value) => value.len() / ((memory.address_cells + memory.size_cells) * 4)
                        as usize,
                    None => 1,
                };
            }
        }
    }
    map
}

// ---------------------------------------------------------------------------
// Laws.
// ---------------------------------------------------------------------------

/// Asking for the next compatible node, over and over, misses none: the answer
/// is compatible and past the offset, and no compatible node lies between.
pub proof fn lemma_compatible_after(b: Blob, wanted: Seq<u8>, offset: u32, k: int)
    requires
        b.wf(),
        0 <= k < tree(b).len(),
        tree(b)[k] is Node,
        tree(b)[k]->Node_0.offset > offset,
        compatible(b, tree(b)[k]->Node_0, wanted),
    ensures
        ({
            let found = compatible_after(b, wanted, offset);
            &&& found is Some
            &&& offset < found->0.offset <= tree(b)[k]->Node_0.offset
            &&& compatible(b, found->0, wanted)
        }),
{
    lemma_compatible_from(b, 0, wanted, offset, k);
    lemma_offsets(b, top(b));
}

proof fn lemma_compatible_from(b: Blob, from: int, wanted: Seq<u8>, offset: u32, k: int)
    requires
        0 <= from <= k < tree(b).len(),
        tree(b)[k] is Node,
        tree(b)[k]->Node_0.offset > offset,
        compatible(b, tree(b)[k]->Node_0, wanted),
    ensures
        ({
            let i = compatible_from(b, from, wanted, offset);
            &&& from <= i <= k
            &&& tree(b)[i] is Node
            &&& tree(b)[i]->Node_0.offset > offset
            &&& compatible(b, tree(b)[i]->Node_0, wanted)
        }),
    decreases k - from,
{
    if !(tree(b)[from] is Node && tree(b)[from]->Node_0.offset > offset && compatible(
        b,
        tree(b)[from]->Node_0,
        wanted,
    )) {
        lemma_compatible_from(b, from + 1, wanted, offset, k);
    }
}

/// A walk that has ended has ended for good: asking again gives nothing again,
/// and leaves the walker where it is, as deep as it is.
pub proof fn lemma_ended_for_good(b: Blob, c: Cursor)
    requires
        scan(b, c) is None,
    ensures
        scan(b, resting(b, c)) is None,
        resting(b, resting(b, c)) == resting(b, c),
    decreases b.end() + 4 - c.offset,
{
    if c.offset < b.end() {
        if b.word(c.offset) == Some(FDT_NOP) {
            lemma_ended_for_good(b, Cursor { offset: c.offset + 4, ..c });
        } else if b.word(c.offset) == Some(FDT_END_NODE) && c.depth != 0 {
            lemma_ended_for_good(b, Cursor { offset: c.offset + 4, depth: c.depth - 1, ..c });
        }
    }
}

/// A node that does not say how its children are addressed gets the defaults,
/// whatever the nodes around it said: a node that opens starts from them.
pub proof fn lemma_cells_are_not_inherited(b: Blob, c: Cursor)
    requires
        b.wf(),
        0 <= c.offset < b.end(),
        0 <= c.depth < MAX_DEPTH,
        c.cells.len() == MAX_DEPTH,
        b.word(c.offset) == Some(FDT_BEGIN_NODE),
        scan(b, c) is Some,
    ensures
        ({
            let (item, next) = scan(b, c)->0;
            let node = item->Node_0;
            &&& item is Node
            &&& (node.address_cells, node.size_cells) == c.cells[c.depth]
            &&& next.cells[next.depth] == (DEFAULT_ADDRESS_CELLS, DEFAULT_SIZE_CELLS)
        }),
{
}

/// A blob that was let through describes blocks that lie inside it, so that
/// nothing read through it lies outside it.
pub proof fn lemma_let_through(va: u64, b: Seq<u8>)
    requires
        refusal(va, b) is None,
    ensures
        va != 0 && va % 8 == 0,
        be32(b, 0) == MAGIC,
        HEADER_SIZE <= header_of(b).totalsize <= MAX_BLOB,
        blocks_inside(header_of(b)),
{
}

/// Tokens that only close nodes, or stand for deleted ones, are passed over:
/// what is found past them is what would be found from there, with nothing
/// declared on the way.
proof fn lemma_rests(b: Blob, c: Cursor)
    ensures
        scan(b, c) == scan(b, resting(b, c)),
        resting(b, c).cells == c.cells,
        resting(b, c).depth <= c.depth,
        resting(b, c).offset >= c.offset,
        0 <= c.depth ==> 0 <= resting(b, c).depth,
        ({
            let r = resting(b, c);
            r.offset < b.end() ==> b.word(r.offset) != Some(FDT_NOP) && (b.word(r.offset) == Some(
                FDT_END_NODE,
            ) ==> r.depth == 0)
        }),
    decreases b.end() + 4 - c.offset,
{
    if c.offset < b.end() {
        if b.word(c.offset) == Some(FDT_NOP) {
            lemma_rests(b, Cursor { offset: c.offset + 4, ..c });
        } else if b.word(c.offset) == Some(FDT_END_NODE) && c.depth != 0 {
            lemma_rests(b, Cursor { offset: c.offset + 4, depth: c.depth - 1, ..c });
        }
    }
}

proof fn lemma_cell_names()
    ensures
        bytes_of("#address-cells") != bytes_of("#size-cells"),
{
    reveal_strlit("#address-cells");
    reveal_strlit("#size-cells");
    let (one, two) = ("#address-cells"@, "#size-cells"@);
    assert(one.len() != two.len());
    vstd::utf8::encode_utf8_decode_utf8(one);
    vstd::utf8::encode_utf8_decode_utf8(two);
}

/// A property declares at most one thing, for the children of the node it
/// belongs to: `#address-cells` how many cells their addresses take, and
/// `#size-cells` how many their sizes take. Each leaves the other count alone,
/// in whatever order they come, and neither says anything about another node.
pub proof fn lemma_property_sets_only_its_own_count<'a>(
    w: &mut Walker<'a>,
    name: &'a str,
    value: &'a [u8],
    i: int,
)
    requires
        old(w).wf(),
        0 <= i < 16,
        call_ensures(Walker::next, (w,), Some(Step::Property(name, value))),
    ensures
        ({
            let (was, now) = (old(w).cells@[i], final(w).cells@[i]);
            let mine = i == final(w).depth && i > 0 && value@.len() >= 4;
            let number = 0x100_0000 * value@[0] + 0x1_0000 * value@[1] + 0x100 * value@[2]
                + value@[3];
            let address = name.spec_bytes() == "#address-cells".spec_bytes();
            let size = name.spec_bytes() == "#size-cells".spec_bytes();
            &&& now.0 == if mine && address {
                number
            } else {
                was.0 as int
            }
            &&& now.1 == if mine && size {
                number
            } else {
                was.1 as int
            }
        }),
        final(w).depth <= old(w).depth,
{
    lemma_rests(old(w).blob, old(w).cursor());
    lemma_cell_names();
    let c = resting(old(w).blob, old(w).cursor());
    assert(scan(old(w).blob, c) == scan(old(w).blob, old(w).cursor()));
}

/// A node is addressed in the cells that its parent declared, which is the node
/// open one level up; it opens with two cells to an address and one to a size,
/// whatever its parent declared; and it changes no other level.
pub proof fn lemma_node_is_addressed_by_its_parent<'a>(
    w: &mut Walker<'a>,
    node: Node,
    name: &'a str,
    i: int,
)
    requires
        old(w).wf(),
        0 <= i < 16,
        call_ensures(Walker::next, (w,), Some(Step::Node(node, name))),
    ensures
        node.depth == final(w).depth,
        1 <= node.depth <= old(w).depth + 1,
        node.depth < 16,
        node.address_cells == old(w).cells@[node.depth - 1].0,
        node.size_cells == old(w).cells@[node.depth - 1].1,
        final(w).cells@[node.depth as int] == (2u32, 1u32),
        i != node.depth ==> final(w).cells@[i] == old(w).cells@[i],
{
    lemma_rests(old(w).blob, old(w).cursor());
    let c = resting(old(w).blob, old(w).cursor());
    assert(scan(old(w).blob, c) == scan(old(w).blob, old(w).cursor()));
}

/// Two counts declared one after the other are both in force, whichever came
/// first: a node that opens next, one level down, is addressed in exactly
/// those.
pub proof fn lemma_counts_in_either_order<'a>(
    w: &mut Walker<'a>,
    first: &'a str,
    one: &'a [u8],
    w2: &mut Walker<'a>,
    second: &'a str,
    two: &'a [u8],
    w3: &mut Walker<'a>,
    node: Node,
    name: &'a str,
)
    requires
        old(w).wf(),
        call_ensures(Walker::next, (w,), Some(Step::Property(first, one))),
        *old(w2) == *final(w),
        call_ensures(Walker::next, (w2,), Some(Step::Property(second, two))),
        *old(w3) == *final(w2),
        call_ensures(Walker::next, (w3,), Some(Step::Node(node, name))),
        one@.len() >= 4,
        two@.len() >= 4,
        0 < final(w).depth == final(w2).depth,
        node.depth == final(w2).depth + 1,
    ensures
        first.spec_bytes() == "#address-cells".spec_bytes() && second.spec_bytes()
            == "#size-cells".spec_bytes() ==> node.address_cells == be32(one@, 0)
            && node.size_cells == be32(two@, 0),
        first.spec_bytes() == "#size-cells".spec_bytes() && second.spec_bytes()
            == "#address-cells".spec_bytes() ==> node.address_cells == be32(two@, 0)
            && node.size_cells == be32(one@, 0),
{
    let d = final(w).depth as int;
    lemma_cell_names();
    lemma_property_sets_only_its_own_count(w, first, one, d);
    lemma_property_sets_only_its_own_count(w2, second, two, d);
    lemma_node_is_addressed_by_its_parent(w3, node, name, d);
}

/// A node that opens is where it says: its token is at its offset, its name
/// follows and ends before the first zero byte, and the walk goes on past it,
/// on the next word.
pub proof fn lemma_node_is_in_the_blob<'a>(w: &mut Walker<'a>, node: Node, name: &'a str, i: int)
    requires
        old(w).wf(),
        call_ensures(Walker::next, (w,), Some(Step::Node(node, name))),
        0 <= i < name.spec_bytes().len(),
    ensures
        ({
            let d = old(w).blob.data@;
            let bytes = name.spec_bytes();
            let at = node.offset as int;
            let end = at + 4 + bytes.len();
            &&& old(w).offset <= at
            &&& end < old(w).blob.end()
            &&& d[at] == 0 && d[at + 1] == 0 && d[at + 2] == 0 && d[at + 3] == 1
            &&& d[at + 4 + i] == bytes[i] && bytes[i] != 0
            &&& d[end] == 0
            &&& final(w).offset % 4 == 0
            &&& end < final(w).offset <= end + 4
        }),
{
    let b = old(w).blob;
    lemma_rests(b, old(w).cursor());
    let c = resting(b, old(w).cursor());
    assert(scan(b, c) == scan(b, old(w).cursor()));
    text::lemma_first(b.data@, 0, c.offset + 4, b.end());
}

/// A property is where the walk found it: its length and the place of its name
/// among the strings are the two words after its token, its value follows, and
/// the walk goes on past that, on the next word.
pub proof fn lemma_property_is_in_the_blob<'a>(
    w: &mut Walker<'a>,
    name: &'a str,
    value: &'a [u8],
) -> (at: int)
    requires
        old(w).wf(),
        call_ensures(Walker::next, (w,), Some(Step::Property(name, value))),
    ensures
        ({
            let b = old(w).blob;
            let d = b.data@;
            let bytes = name.spec_bytes();
            let from = b.header.off_dt_strings + be32(d, at + 8);
            &&& old(w).offset <= at < b.end()
            &&& d[at] == 0 && d[at + 1] == 0 && d[at + 2] == 0 && d[at + 3] == 3
            &&& value@.len() == be32(d, at + 4)
            &&& value@ == d.subrange(at + 12, at + 12 + value@.len())
            &&& at + 12 + value@.len() <= b.header.totalsize
            &&& from + bytes.len() < b.header.off_dt_strings + b.header.size_dt_strings
            &&& d.subrange(from, from + bytes.len()) == bytes
            &&& d[from + bytes.len()] == 0
            &&& !bytes.contains(0)
            &&& final(w).offset % 4 == 0
            &&& at + 12 + value@.len() <= final(w).offset < at + 12 + value@.len() + 4
        }),
{
    let b = old(w).blob;
    let d = b.data@;
    lemma_rests(b, old(w).cursor());
    let c = resting(b, old(w).cursor());
    assert(scan(b, c) == scan(b, old(w).cursor()));
    let at = c.offset;
    let from = b.header.off_dt_strings + be32(d, at + 8);
    let end = b.header.off_dt_strings + b.header.size_dt_strings;
    text::lemma_first(d, 0, from, end);
    let stop = text::first(d, 0, from, end);
    assert(name.spec_bytes() == d.subrange(from, stop));
    assert forall|i: int| 0 <= i < name.spec_bytes().len() implies name.spec_bytes()[i] != 0 by {
        assert(d[from + i] != 0);
    }
    at
}

/// A walk that stands on a node's token opens it, unless its name does not end
/// inside the structure, is not text, or the tree is too deep to follow; and
/// one that stands on a property's token finds it, unless it cannot be read.
pub proof fn lemma_walk_finds_what_is_there<'a>(w: &mut Walker<'a>, r: Option<Step<'a>>, len: int)
    requires
        old(w).wf(),
        old(w).offset < old(w).blob.end(),
        call_ensures(Walker::next, (w,), r),
        0 <= len,
    ensures
        ({
            let b = old(w).blob;
            let d = b.data@;
            let at = old(w).offset as int;
            let name = d.subrange(at + 4, at + 4 + len);
            &&& at + 4 <= b.header.totalsize && be32(d, at) == 1 && old(w).depth < 15 && at + 4
                + len < b.end() && d[at + 4 + len] == 0 && !name.contains(0)
                && vstd::utf8::valid_utf8(name) ==> r is Some && r->0 is Node
                && r->0->Node_0.offset == at && r->0->Node_0.depth == old(w).depth + 1
                && r->0->Node_1.spec_bytes() == name
            &&& at + 4 <= b.header.totalsize && be32(d, at) == 1 && old(w).depth >= 15 ==> r
                is None
            &&& at + 4 <= b.header.totalsize && be32(d, at) != 1 && be32(d, at) != 2 && be32(d, at)
                != 3 && be32(d, at) != 4 ==> r is None
        }),
{
    let b = old(w).blob;
    let d = b.data@;
    let at = old(w).offset as int;
    let name = d.subrange(at + 4, at + 4 + len);
    if at + 4 <= b.header.totalsize && be32(d, at) == 1 && at + 4 + len < b.end() && d[at + 4 + len]
        == 0 && !name.contains(0) {
        text::lemma_first(d, 0, at + 4, b.end());
        let stop = text::first(d, 0, at + 4, b.end());
        if stop < at + 4 + len {
            assert(name[stop - at - 4] == 0);
        }
        assert(stop == at + 4 + len);
    }
}

/// A deleted token is as good as not there, and a closing one leads one level
/// up: a walk that stands on either finds what a walk that stands just past it,
/// at that level, finds.
pub proof fn lemma_walk_passes_over<'a>(
    w: &mut Walker<'a>,
    r: Option<Step<'a>>,
    w2: &mut Walker<'a>,
    r2: Option<Step<'a>>,
)
    requires
        old(w).wf(),
        old(w2).wf(),
        old(w).offset < old(w).blob.end(),
        old(w).offset + 4 <= old(w).blob.header.totalsize,
        old(w2).blob == old(w).blob,
        old(w2).offset == old(w).offset + 4,
        old(w2).cells@ == old(w).cells@,
        ({
            let token = be32(old(w).blob.data@, old(w).offset as int);
            ||| token == 4 && old(w2).depth == old(w).depth
            ||| token == 2 && old(w2).depth + 1 == old(w).depth
        }),
        call_ensures(Walker::next, (w,), r),
        call_ensures(Walker::next, (w2,), r2),
    ensures
        r is Some == r2 is Some,
        r is Some ==> r->0 is Node == r2->0 is Node,
        r is Some && r->0 is Node ==> r->0->Node_0 == r2->0->Node_0 && r->0->Node_1.spec_bytes()
            == r2->0->Node_1.spec_bytes(),
        r is Some && r->0 is Property ==> r->0->Property_0.spec_bytes()
            == r2->0->Property_0.spec_bytes() && r->0->Property_1@ == r2->0->Property_1@,
        final(w).offset == final(w2).offset,
        final(w).depth == final(w2).depth,
        final(w).cells@ == final(w2).cells@,
{
    let b = old(w).blob;
    assert(scan(b, old(w).cursor()) == scan(b, old(w2).cursor()));
    assert(resting(b, old(w).cursor()) == resting(b, old(w2).cursor()));
}

/// A blob is accepted exactly when it is one: the pointer is there and aligned,
/// the magic number is at its front, its size is that of a device tree, this
/// version of the format can read it, and its blocks lie inside it. Every field
/// of the header is then what the blob says, highest byte first.
pub proof fn lemma_accepted_blob_is_sound(va: u64, data: &[u8], r: Result<Header, Error>)
    requires
        va != 0 && va % 8 == 0 ==> data@.len() >= 40,
        call_ensures(probe, (va, data), r),
    ensures
        ({
            let d = data@;
            let size = be32(d, 4);
            &&& r is Ok <==> {
                &&& va != 0
                &&& va % 8 == 0
                &&& d[0] == 0xd0 && d[1] == 0x0d && d[2] == 0xfe && d[3] == 0xed
                &&& 40 <= size <= 0x10_0000
                &&& be32(d, 20) >= 17
                &&& be32(d, 24) <= 17
                &&& be32(d, 8) + be32(d, 36) <= size
                &&& be32(d, 12) + be32(d, 32) <= size
                &&& be32(d, 16) < size
            }
            &&& r is Ok ==> {
                let h = r->Ok_0;
                &&& h.totalsize == size
                &&& h.off_dt_struct == be32(d, 8)
                &&& h.off_dt_strings == be32(d, 12)
                &&& h.off_mem_rsvmap == be32(d, 16)
                &&& h.version == be32(d, 20)
                &&& h.last_comp_version == be32(d, 24)
                &&& h.boot_cpuid_phys == be32(d, 28)
                &&& h.size_dt_strings == be32(d, 32)
                &&& h.size_dt_struct == be32(d, 36)
            }
            &&& va == 0 <==> r == Err::<Header, Error>(Error::Null)
            &&& va % 8 != 0 ==> r == Err::<Header, Error>(Error::Misaligned(va))
        }),
{
}

/// A number in the blob is its four bytes, highest first.
pub proof fn lemma_numbers_are_big_endian(data: &[u8], at: usize, r: u32)
    requires
        at + 4 <= data@.len(),
        call_ensures(read_be32, (data, at), r),
    ensures
        r == ((data@[at as int] * 256 + data@[at + 1]) * 256 + data@[at + 2]) * 256 + data@[at
            + 3],
{
}

/// Nothing is read past the end of the blob, and everything before it can be:
/// a number, two, or a run of bytes is there exactly if all of it is inside.
pub proof fn lemma_reads_are_bounded<'a>(
    b: Blob<'a>,
    offset: u32,
    len: u32,
    word: Option<u32>,
    long: Option<u64>,
    run: Option<&'a [u8]>,
)
    requires
        b.wf(),
        call_ensures(Blob::u32_at, (&b, offset), word),
        call_ensures(Blob::u64_at, (&b, offset), long),
        call_ensures(Blob::bytes_at, (&b, offset, len), run),
    ensures
        word is Some <==> offset + 4 <= b.header.totalsize,
        word is Some ==> word->0 == be32(b.data@, offset as int),
        long is Some <==> offset + 8 <= b.header.totalsize,
        long is Some ==> long->0 == be32(b.data@, offset as int) * 0x1_0000_0000 + be32(
            b.data@,
            offset + 4,
        ),
        run is Some <==> offset + len <= b.header.totalsize,
        run is Some ==> run->0@ == b.data@.subrange(offset as int, offset + len),
{
}

/// Text in the blob ends at its first zero byte, which lies before the limit,
/// and is the bytes before that.
pub proof fn lemma_text_is_bounded<'a>(b: Blob<'a>, offset: u32, limit: u32, r: Option<&'a str>)
    requires
        b.wf(),
        call_ensures(Blob::str_at, (&b, offset, limit), r),
    ensures
        r is Some ==> {
            let bytes = r->0.spec_bytes();
            &&& offset + bytes.len() < limit
            &&& offset + bytes.len() < b.header.totalsize
            &&& b.data@.subrange(offset as int, offset + bytes.len()) == bytes
            &&& b.data@[offset + bytes.len()] == 0
            &&& !bytes.contains(0)
        },
{
    let bound = if limit < b.header.totalsize {
        limit as int
    } else {
        b.header.totalsize as int
    };
    if r is Some {
        let bytes = r->0.spec_bytes();
        text::lemma_first(b.data@, 0, offset as int, bound);
        assert forall|i: int| 0 <= i < bytes.len() implies bytes[i] != 0 by {
            assert(b.data@[offset + i] != 0);
        }
    }
}

/// A node's `reg` is decoded in its parent's cells: entry after entry, each the
/// address and then the size, highest byte first. An entry is there exactly if
/// all of it is, in cells that make a number that can be held.
pub proof fn lemma_reg_is_decoded<'a>(
    b: Blob<'a>,
    node: Node,
    index: usize,
    value: Option<&'a [u8]>,
    r: Option<(u64, u64)>,
)
    requires
        b.wf(),
        node.offset + 4 <= u32::MAX,
        call_ensures(Blob::property, (&b, &node, "reg"), value),
        call_ensures(Blob::reg, (&b, &node, index), r),
    ensures
        ({
            let (a, s) = (node.address_cells as int, node.size_cells as int);
            let at = index * ((a + s) * 4);
            let v = value->0@;
            &&& r is Some <==> 1 <= a <= 2 && s <= 2 && value is Some && at + (a + s) * 4
                <= v.len()
            &&& r is Some ==> {
                &&& (r->0).0 == if a == 1 {
                    be32(v, at) as int
                } else {
                    be32(v, at) * 0x1_0000_0000 + be32(v, at + 4)
                }
                &&& (r->0).1 == if s == 0 {
                    0int
                } else if s == 1 {
                    be32(v, at + 4 * a) as int
                } else {
                    be32(v, at + 4 * a) * 0x1_0000_0000 + be32(v, at + 4 * a + 4)
                }
            }
        }),
{
    let (a, s) = (node.address_cells as int, node.size_cells as int);
    let at = index * ((a + s) * 4);
    let v = value->0@;
    assert(at >= 0) by (nonlinear_arith)
        requires
            at == index * ((a + s) * 4),
            a >= 0,
            s >= 0,
    ;
    if r is Some {
        let (one, two) = (v.skip(at), v.skip(at + 4 * a));
        assert(be32(one, 0) == be32(v, at));
        assert(a == 2 ==> be32(one, 4) == be32(v, at + 4));
        assert(s > 0 ==> be32(two, 0) == be32(v, at + 4 * a));
        assert(s == 2 ==> be32(two, 4) == be32(v, at + 4 * a + 4));
    }
}

/// All the windows of a node are its `reg` entries, one by one, as many as
/// there is room for, and what there is no window for is left alone.
pub proof fn lemma_regions_are_reg_entries<'a>(
    b: Blob<'a>,
    node: Node,
    out: &mut [Region],
    found: usize,
    index: usize,
    r: Option<(u64, u64)>,
)
    requires
        b.wf(),
        node.offset + 4 <= u32::MAX,
        call_ensures(Blob::regions, (&b, &node, out), found),
        index < old(out)@.len(),
        call_ensures(Blob::reg, (&b, &node, index), r),
    ensures
        index < found ==> r == Some((final(out)@[index as int].base, final(out)@[index as int].size)),
        index == found ==> r is None,
        index >= found ==> final(out)@[index as int] == old(out)@[index as int],
        found <= old(out)@.len(),
{
}

/// A property that is one number is the first four bytes of its value, and one
/// that is text is its value up to the first zero byte.
pub proof fn lemma_property_readings<'a>(
    b: Blob<'a>,
    node: Node,
    name: &'a str,
    value: Option<&'a [u8]>,
    number: Option<u32>,
    words: Option<&'a str>,
)
    requires
        b.wf(),
        node.offset + 4 <= u32::MAX,
        call_ensures(Blob::property, (&b, &node, name), value),
        call_ensures(Blob::property_u32, (&b, &node, name), number),
        call_ensures(Blob::property_str, (&b, &node, name), words),
    ensures
        number is Some <==> value is Some && value->0@.len() >= 4,
        number is Some ==> number->0 == be32(value->0@, 0),
        words is Some ==> {
            let bytes = words->0.spec_bytes();
            &&& value is Some
            &&& bytes.len() < value->0@.len()
            &&& value->0@.take(bytes.len() as int) == bytes
            &&& value->0@[bytes.len() as int] == 0
            &&& !bytes.contains(0)
        },
{
    if words is Some {
        let v = value->0@;
        let bytes = words->0.spec_bytes();
        text::lemma_first(v, 0, 0, v.len() as int);
        assert forall|i: int| 0 <= i < bytes.len() implies bytes[i] != 0 by {
            assert(v[i] != 0);
        }
    }
}

proof fn lemma_lookup(list: Seq<(Seq<u8>, Seq<u8>)>, name: Seq<u8>) -> (i: int)
    ensures
        lookup(list, name) is Some ==> {
            &&& 0 <= i < list.len()
            &&& list[i] == (name, lookup(list, name)->0)
            &&& forall|j: int| 0 <= j < i ==> (#[trigger] list[j]).0 != name
        },
        lookup(list, name) is None ==> forall|j: int|
            0 <= j < list.len() ==> (#[trigger] list[j]).0 != name,
    decreases list.len(),
{
    if list.len() == 0 || list[0].0 == name {
        0
    } else {
        let rest = list.drop_first();
        let i = lemma_lookup(rest, name);
        assert forall|j: int| 0 < j < list.len() && (lookup(list, name) is None || j <= i) implies (
        #[trigger] list[j]).0 != name by {
            assert(rest[j - 1] == list[j]);
        }
        i + 1
    }
}

/// Asking a node for a property gives the first of that name among its
/// properties, in the order they are iterated, and nothing if there is none:
/// where iterating has just begun and brings a property of that name, that is
/// the one.
pub proof fn lemma_property_is_the_first_of_its_name<'a>(
    b: Blob<'a>,
    node: Node,
    name: &'a str,
    value: Option<&'a [u8]>,
    p: Properties<'a>,
) -> (i: int)
    requires
        b.wf(),
        node.offset + 4 <= u32::MAX,
        call_ensures(Blob::property, (&b, &node, name), value),
        call_ensures(Blob::properties, (&b, &node), p),
    ensures
        value is Some ==> {
            &&& 0 <= i < p.rest().len()
            &&& p.rest()[i] == (name.spec_bytes(), value->0@)
            &&& forall|j: int| 0 <= j < i ==> (#[trigger] p.rest()[j]).0 != name.spec_bytes()
        },
        value is None ==> forall|j: int|
            0 <= j < p.rest().len() ==> (#[trigger] p.rest()[j]).0 != name.spec_bytes(),
{
    lemma_lookup(p.rest(), name.spec_bytes())
}

/// Iterating the properties of a node that a walk has just opened brings what
/// the walk brings next, for as long as that is properties; and it ends where
/// the walk finds anything else.
pub proof fn lemma_properties_are_what_the_walk_finds<'a>(
    w: &mut Walker<'a>,
    node: Node,
    name: &'a str,
    p: Properties<'a>,
    p1: &mut Properties<'a>,
    found: Option<(&'a str, &'a [u8])>,
    w2: &mut Walker<'a>,
    step: Option<Step<'a>>,
)
    requires
        old(w).wf(),
        call_ensures(Walker::next, (w,), Some(Step::Node(node, name))),
        node.offset + 4 <= u32::MAX,
        call_ensures(Blob::properties, (&old(w).blob, &node), p),
        *old(p1) == p,
        call_ensures(Properties::next, (p1,), found),
        *old(w2) == *final(w),
        call_ensures(Walker::next, (w2,), step),
        old(w2).offset < old(w2).blob.end(),
        be32(old(w2).blob.data@, old(w2).offset as int) == 3,
    ensures
        p.offset == final(w).offset,
        step is Some ==> {
            &&& found is Some
            &&& step->0 is Property
            &&& (found->0).0.spec_bytes() == step->0->Property_0.spec_bytes()
            &&& (found->0).1@ == step->0->Property_1@
        },
        step is None ==> found is None,
{
    let b = old(w).blob;
    lemma_rests(b, old(w).cursor());
    let c = resting(b, old(w).cursor());
    assert(scan(b, c) == scan(b, old(w).cursor()));
    let at = c.offset + 4;
    text::lemma_first(b.data@, 0, at, b.end());
    text::lemma_first(b.data@, 0, at, b.header.totalsize as int);
    let (one, two) = (
        text::first(b.data@, 0, at, b.end()),
        text::first(b.data@, 0, at, b.header.totalsize as int),
    );
    if two < one {
        assert(b.data@[two] != 0);
    }
    if one < two {
        assert(b.data@[one] != 0);
    }
}

/// Is `name` the part, or the part with a unit address behind it?
pub open spec fn called(name: Seq<u8>, part: Seq<u8>) -> bool {
    ||| name == part
    ||| {
        &&& part.len() < name.len()
        &&& name.take(part.len() as int) == part
        &&& name[part.len() as int] == 64
        &&& !part.contains(64)
    }
}

/// A way down the tree: the root, then a node of each depth, each the child of
/// the one before it and called what the path says next.
pub open spec fn leads(all: Seq<Item>, way: Seq<int>, parts: Seq<Seq<u8>>) -> bool {
    &&& 0 < way.len() <= parts.len() + 1
    &&& forall|i: int|
        #![trigger way[i]]
        0 <= i < way.len() ==> {
            &&& 0 <= way[i] < all.len()
            &&& all[way[i]] is Node
            &&& all[way[i]]->Node_0.depth == i + 1
            &&& i == 0 ==> all[way[i]]->Node_1.len() == 0
            &&& i > 0 ==> called(all[way[i]]->Node_1, parts[i - 1])
            &&& i > 0 ==> way[i - 1] < way[i]
        }
    &&& forall|i: int, j: int|
        #![trigger way[i], all[j]]
        0 < i < way.len() && way[i - 1] < j < way[i] && all[j] is Node ==> all[j]->Node_0.depth
            != i
}

proof fn lemma_called(name: Seq<u8>, part: Seq<u8>)
    ensures
        name_fits(name, part) == called(name, part),
{
    let at = text::first(name, 64, 0, name.len() as int);
    text::lemma_first(name, 64, 0, name.len() as int);
    if at < name.len() && name.take(at) == part {
        assert forall|i: int| 0 <= i < part.len() implies part[i] != 64 by {
            assert(part[i] == name[i]);
        }
    }
    if called(name, part) && name != part {
        let n = part.len() as int;
        if at < n {
            assert(name.take(n)[at] == name[at]);
            assert(part.contains(64));
        }
        assert(at == n);
    }
}

proof fn lemma_last_is_last(all: Seq<Item>, n: int, depth: int)
    requires
        n <= all.len(),
    ensures
        ({
            let p = last_at(all, n, depth);
            &&& -1 <= p
            &&& p >= 0 ==> p < n && all[p] is Node && all[p]->Node_0.depth == depth
            &&& forall|j: int|
                p < j < n && (#[trigger] all[j]) is Node && j >= 0 ==> all[j]->Node_0.depth != depth
        }),
    decreases n,
{
    if n > 0 && !(all[n - 1] is Node && all[n - 1]->Node_0.depth == depth) {
        lemma_last_is_last(all, n - 1, depth);
    }
}

proof fn lemma_way_to(all: Seq<Item>, k: int, parts: Seq<Seq<u8>>) -> (way: Seq<int>)
    requires
        k < all.len(),
        on_path(all, k, parts),
        all[k]->Node_0.depth >= 1,
    ensures
        leads(all, way, parts),
        way.last() == k,
    decreases k,
{
    let depth = all[k]->Node_0.depth as int;
    let parent = last_at(all, k, depth - 1);
    if depth == 1 {
        seq![k]
    } else {
        lemma_last_is_last(all, k, depth - 1);
        let before = lemma_way_to(all, parent, parts);
        let way = before.push(k);
        lemma_called(all[k]->Node_1, parts[depth - 2]);
        assert(before[before.len() - 1] == parent);
        assert(before.len() == depth - 1);
        assert forall|i: int| #![trigger way[i]] 0 <= i < way.len() implies {
            &&& 0 <= way[i] < all.len()
            &&& all[way[i]] is Node
            &&& all[way[i]]->Node_0.depth == i + 1
            &&& i == 0 ==> all[way[i]]->Node_1.len() == 0
            &&& i > 0 ==> called(all[way[i]]->Node_1, parts[i - 1])
            &&& i > 0 ==> way[i - 1] < way[i]
        } by {
            if i < before.len() {
                assert(way[i] == before[i]);
                if i > 0 {
                    assert(way[i - 1] == before[i - 1]);
                }
            }
        }
        assert forall|i: int, j: int|
            #![trigger way[i], all[j]]
            0 < i < way.len() && way[i - 1] < j < way[i] && all[j] is Node implies all[j]->Node_0.depth
            != i by {
            if i < before.len() {
                assert(way[i] == before[i]);
                assert(way[i - 1] == before[i - 1]);
            }
        }
        way
    }
}

proof fn lemma_way_is_on_path(all: Seq<Item>, way: Seq<int>, parts: Seq<Seq<u8>>, i: int)
    requires
        leads(all, way, parts),
        0 <= i < way.len(),
    ensures
        on_path(all, way[i], parts),
    decreases i,
{
    let k = way[i];
    if i > 0 {
        lemma_way_is_on_path(all, way, parts, i - 1);
        lemma_called(all[k]->Node_1, parts[i - 1]);
        lemma_last_is_last(all, k, i);
        let p = last_at(all, k, i);
        assert(all[way[i - 1]]->Node_0.depth == i);
        if p != way[i - 1] {
            if p < way[i - 1] {
                assert(all[way[i - 1]] is Node);
            } else {
                assert(all[p] is Node);
            }
        }
    }
}

proof fn lemma_first_target(all: Seq<Item>, from: int, k: int, parts: Seq<Seq<u8>>)
    requires
        0 <= from <= k < all.len(),
        is_target(all, k, parts),
    ensures
        target_from(all, from, parts) <= k,
    decreases k - from,
{
    if !is_target(all, from, parts) {
        lemma_first_target(all, from + 1, k, parts);
    }
}

/// A path leads down the tree, a part at a time, from the root: the node that
/// is found is at the end of such a way.
pub proof fn lemma_path_leads_to_the_node<'a>(b: Blob<'a>, path: &'a str, r: Option<Node>) -> (way:
    Seq<int>)
    requires
        b.wf(),
        call_ensures(Blob::find_node, (&b, path), r),
        r is Some,
    ensures
        leads(tree(b), way, text::parts(path.spec_bytes())),
        way.len() == text::parts(path.spec_bytes()).len() + 1,
        tree(b)[way.last()]->Node_0 == r->0,
{
    let all = tree(b);
    let parts = text::parts(path.spec_bytes());
    let k = place(b, path.spec_bytes());
    lemma_target(all, 0, parts);
    let way = lemma_way_to(all, k, parts);
    assert(way[way.len() - 1] == k);
    way
}

/// And whatever lies at the end of such a way is found, unless something that
/// comes before it in the tree is.
pub proof fn lemma_node_on_the_path_is_found<'a>(
    b: Blob<'a>,
    path: &'a str,
    r: Option<Node>,
    way: Seq<int>,
)
    requires
        b.wf(),
        call_ensures(Blob::find_node, (&b, path), r),
        leads(tree(b), way, text::parts(path.spec_bytes())),
        way.len() == text::parts(path.spec_bytes()).len() + 1,
    ensures
        r is Some,
        r->0.offset <= tree(b)[way.last()]->Node_0.offset,
{
    let all = tree(b);
    let parts = text::parts(path.spec_bytes());
    let last = way.len() - 1;
    lemma_way_is_on_path(all, way, parts, last);
    assert(all[way[last]] is Node);
    lemma_first_target(all, 0, way[last], parts);
    lemma_target(all, 0, parts);
    lemma_offsets(b, top(b));
    if place(b, path.spec_bytes()) < way[last] {
        assert(all[place(b, path.spec_bytes())] is Node);
    }
}

/// A node that is found to be compatible says so itself, and lies past where
/// the search began.
pub proof fn lemma_found_is_compatible<'a>(
    b: Blob<'a>,
    wanted: &'a str,
    offset: u32,
    r: Option<Node>,
    list: Option<&'a [u8]>,
    hit: bool,
)
    requires
        b.wf(),
        call_ensures(Blob::find_compatible_after, (&b, wanted, offset), r),
        r is Some,
        call_ensures(Blob::property, (&b, &r->0, "compatible"), list),
        list is Some ==> call_ensures(string_list_contains, (list->0, wanted), hit),
    ensures
        r->0.offset > offset,
        list is Some && hit,
{
    lemma_compatible_found(b, 0, wanted.spec_bytes(), offset);
}

proof fn lemma_compatible_found(b: Blob, from: int, wanted: Seq<u8>, offset: u32)
    requires
        0 <= from,
    ensures
        ({
            let i = compatible_from(b, from, wanted, offset);
            i < tree(b).len() ==> {
                &&& 0 <= i
                &&& tree(b)[i] is Node
                &&& tree(b)[i]->Node_0.offset > offset
                &&& compatible(b, tree(b)[i]->Node_0, wanted)
            }
        }),
    decreases tree(b).len() - from,
{
    if from < tree(b).len() && !(tree(b)[from] is Node && tree(b)[from]->Node_0.offset > offset
        && compatible(b, tree(b)[from]->Node_0, wanted)) {
        lemma_compatible_found(b, from + 1, wanted, offset);
    }
}

/// No compatible node is missed: one that lies past where the search began, and
/// says that it is compatible, is found, or one before it is.
pub proof fn lemma_compatible_is_found<'a>(
    b: Blob<'a>,
    wanted: &'a str,
    offset: u32,
    r: Option<Node>,
    first: Option<Node>,
    k: int,
    list: &'a [u8],
)
    requires
        b.wf(),
        call_ensures(Blob::find_compatible_after, (&b, wanted, offset), r),
        call_ensures(Blob::find_compatible, (&b, wanted), first),
        0 <= k < tree(b).len(),
        tree(b)[k] is Node,
        tree(b)[k]->Node_0.offset > offset,
        call_ensures(Blob::property, (&b, &tree(b)[k]->Node_0, "compatible"), Some(list)),
        call_ensures(string_list_contains, (list, wanted), true),
    ensures
        r is Some && offset < r->0.offset <= tree(b)[k]->Node_0.offset,
        first is Some && first->0.offset <= r->0.offset,
{
    lemma_compatible_after(b, wanted.spec_bytes(), offset, k);
    lemma_compatible_after(b, wanted.spec_bytes(), 0, k);
    lemma_compatible_from(b, 0, wanted.spec_bytes(), offset, k);
    let i = compatible_from(b, 0, wanted.spec_bytes(), offset);
    lemma_compatible_after(b, wanted.spec_bytes(), 0, i);
}

proof fn lemma_solid_keeps(asked: Seq<(u64, u64)>, i: int)
    requires
        0 <= i < asked.len(),
        asked[i].1 != 0,
    ensures
        solid(asked).contains(asked[i]),
    decreases asked.len(),
{
    let front = asked.drop_last();
    lemma_solid(front, asked.last());
    assert(front.push(asked.last()) =~= asked);
    if i < front.len() {
        lemma_solid_keeps(front, i);
        let j = choose|j: int| 0 <= j < solid(front).len() && solid(front)[j] == asked[i];
        assert(solid(asked)[j] == asked[i]);
    } else {
        assert(solid(asked).last() == asked[i]);
    }
}

proof fn lemma_solid_is_solid(asked: Seq<(u64, u64)>, i: int)
    requires
        0 <= i < solid(asked).len(),
    ensures
        solid(asked)[i].1 != 0,
        asked.contains(solid(asked)[i]),
    decreases asked.len(),
{
    let front = asked.drop_last();
    lemma_solid(front, asked.last());
    assert(front.push(asked.last()) =~= asked);
    if i < solid(front).len() {
        lemma_solid_is_solid(front, i);
        let j = choose|j: int| 0 <= j < front.len() && front[j] == solid(front)[i];
        assert(asked[j] == solid(front)[i]);
    } else {
        assert(asked[asked.len() - 1] == asked.last());
    }
}

proof fn lemma_held(map: &MemoryMap, asked: Seq<(u64, u64)>, i: int)
    requires
        map.holds(asked),
        0 <= i < asked.len(),
        asked[i].1 != 0,
        map.dropped == 0,
    ensures
        map.reservations@.contains(asked[i]),
{
    lemma_solid_keeps(asked, i);
}

/// Memory is where `/memory` says: the first window of its `reg`, and as many
/// banks as there are windows; and nowhere, if it says nothing.
pub proof fn lemma_memory_is_where_the_tree_says<'a>(
    b: Blob<'a>,
    map: MemoryMap,
    found: Option<Node>,
    window: Option<(u64, u64)>,
    value: Option<&'a [u8]>,
)
    requires
        b.wf(),
        call_ensures(memory_map, (&b,), map),
        call_ensures(Blob::find_node, (&b, "/memory"), found),
        found is Some ==> {
            &&& call_ensures(Blob::reg, (&b, &found->0, 0), window)
            &&& call_ensures(Blob::property, (&b, &found->0, "reg"), value)
        },
    ensures
        ({
            let there = found is Some && window is Some && (window->0).1 != 0;
            let entry = (found->0.address_cells + found->0.size_cells) * 4;
            &&& there ==> {
                &&& map.base == (window->0).0
                &&& map.size == (window->0).1
                &&& value is Some
                &&& map.banks * entry <= value->0@.len() < map.banks * entry + entry
            }
            &&& !there ==> map.base == 0 && map.size == 0 && map.banks == 0
        }),
{
    if found is Some && window is Some && (window->0).1 != 0 {
        let entry = (found->0.address_cells + found->0.size_cells) * 4;
        let len = value->0@.len() as int;
        assert(map.banks == len / entry);
        assert(len / entry * entry <= len < len / entry * entry + entry) by (nonlinear_arith)
            requires
                entry > 0,
                len >= 0,
        ;
    }
}

/// The blob itself is spoken for, first of all. Nothing empty is, no more is
/// recorded than there is room for, and what there is no room for is counted.
pub proof fn lemma_blob_is_spoken_for<'a>(b: Blob<'a>, map: MemoryMap, i: int)
    requires
        b.wf(),
        call_ensures(memory_map, (&b,), map),
        0 <= i < map.reservations@.len(),
    ensures
        map.reservations@[0] == (b.pa, b.header.totalsize as u64),
        map.reservations@[i].1 != 0,
        map.reservations@.len() <= 8,
        map.dropped > 0 ==> map.reservations@.len() == 8,
{
    let own = seq![(b.pa, b.header.totalsize as u64)];
    let asked = kept(b);
    let rest = asked.subrange(1, asked.len() as int);
    assert(asked =~= own + rest);
    lemma_solid_is_solid(asked, i);
    lemma_solid_front(own, rest);
    assert(own.drop_last() =~= Seq::<(u64, u64)>::empty());
    assert(solid(own.drop_last()) =~= Seq::<(u64, u64)>::empty());
    assert(solid(own) =~= own);
}

proof fn lemma_solid_front(one: Seq<(u64, u64)>, two: Seq<(u64, u64)>)
    ensures
        solid(one + two) == solid(one) + solid(two),
    decreases two.len(),
{
    if two.len() == 0 {
        assert(one + two =~= one);
        assert(solid(one) + solid(two) =~= solid(one));
    } else {
        let front = two.drop_last();
        lemma_solid_front(one, front);
        lemma_solid(one + front, two.last());
        lemma_solid(front, two.last());
        assert((one + front).push(two.last()) =~= one + two);
        assert(front.push(two.last()) =~= two);
        assert(solid(one + two) =~= solid(one) + solid(two));
    }
}

/// Entry `k` of the list of reservations in the blob.
pub open spec fn listed(b: Blob, k: int) -> (u64, u64) {
    let at = b.header.off_mem_rsvmap + 16 * k;
    (
        (be32(b.data@, at) * 0x1_0000_0000 + be32(b.data@, at + 4)) as u64,
        (be32(b.data@, at + 8) * 0x1_0000_0000 + be32(b.data@, at + 12)) as u64,
    )
}

proof fn lemma_listed(b: Blob, from: int, k: int)
    requires
        0 <= from <= k,
        b.header.off_mem_rsvmap + 16 * k + 16 <= b.header.totalsize,
        forall|j: int| from <= j <= k ==> #[trigger] listed(b, j) != (0u64, 0u64),
    ensures
        ({
            let block = reservation_block(b, b.header.off_mem_rsvmap + 16 * from);
            &&& k - from < block.len()
            &&& block[k - from] == listed(b, k)
        }),
    decreases k - from,
{
    let at = b.header.off_mem_rsvmap + 16 * from;
    assert(listed(b, from) == (b.long(at)->0, b.long(at + 8)->0));
    if from < k {
        lemma_listed(b, from + 1, k);
        assert(at + 16 == b.header.off_mem_rsvmap + 16 * (from + 1));
    }
}

/// What the blob's own list reserves is spoken for: every entry before the
/// pair of zeroes that ends it, if it is not empty and there was room.
pub proof fn lemma_listed_is_spoken_for<'a>(b: Blob<'a>, map: MemoryMap, k: int)
    requires
        b.wf(),
        call_ensures(memory_map, (&b,), map),
        0 <= k,
        b.header.off_mem_rsvmap + 16 * k + 16 <= b.header.totalsize,
        forall|j: int| 0 <= j <= k ==> #[trigger] listed(b, j) != (0u64, 0u64),
        listed(b, k).1 != 0,
        map.dropped == 0,
    ensures
        map.reservations@.contains(listed(b, k)),
{
    lemma_listed(b, 0, k);
    let block = reservation_block(b, b.header.off_mem_rsvmap as int);
    assert(b.header.off_mem_rsvmap + 16 * 0 == b.header.off_mem_rsvmap);
    assert(kept(b)[1 + k] == block[k]);
    lemma_held(&map, kept(b), 1 + k);
}

proof fn lemma_child_window(b: Blob, p: int, k: int, n: int)
    requires
        0 <= k < n <= tree(b).len(),
        is_child(tree(b), p, k),
        reg_of(b, tree(b)[k]->Node_0, 0) is Some,
    ensures
        child_windows(b, p, n).contains(reg_of(b, tree(b)[k]->Node_0, 0)->0),
    decreases n,
{
    let window = reg_of(b, tree(b)[k]->Node_0, 0)->0;
    let before = child_windows(b, p, n - 1);
    if k == n - 1 {
        assert(child_windows(b, p, n).last() == window);
    } else {
        lemma_child_window(b, p, k, n - 1);
        let j = choose|j: int| 0 <= j < before.len() && before[j] == window;
        assert(child_windows(b, p, n)[j] == window);
    }
}

/// What the children of `/reserved-memory` cover is spoken for: the first
/// window of each node that opens one level below it before it closes, if it
/// is not empty and there was room.
pub proof fn lemma_reserved_memory_is_spoken_for<'a>(
    b: Blob<'a>,
    map: MemoryMap,
    found: Node,
    p: int,
    k: int,
    window: (u64, u64),
)
    requires
        b.wf(),
        call_ensures(memory_map, (&b,), map),
        call_ensures(Blob::find_node, (&b, "/reserved-memory"), Some(found)),
        0 <= p < k < tree(b).len(),
        tree(b)[p] is Node && tree(b)[p]->Node_0 == found,
        tree(b)[k] is Node,
        tree(b)[k]->Node_0.depth == found.depth + 1,
        forall|j: int|
            p < j <= k && (#[trigger] tree(b)[j]) is Node ==> tree(b)[j]->Node_0.depth
                > found.depth,
        call_ensures(Blob::reg, (&b, &tree(b)[k]->Node_0, 0), Some(window)),
        window.1 != 0,
        map.dropped == 0,
    ensures
        map.reservations@.contains(window),
{
    let all = tree(b);
    let q = place(b, bytes_of("/reserved-memory"));
    lemma_target(all, 0, text::parts(bytes_of("/reserved-memory")));
    lemma_offsets(b, top(b));
    assert(all[q]->Node_0 == found);
    assert(p == q);
    assert(is_child(all, p, k));
    lemma_child_window(b, p, k, all.len() as int);
    let windows = reserved_windows(b);
    let j = choose|j: int| 0 <= j < windows.len() && windows[j] == window;
    let before = 1 + reservation_block(b, b.header.off_mem_rsvmap as int).len();
    assert(kept(b)[before + j] == window);
    lemma_held(&map, kept(b), before + j);
}

/// The tree is what a walk from the top finds, item by item, and the walk ends
/// where the tree does.
pub proof fn lemma_tree_is_the_walk<'a>(
    b: Blob<'a>,
    start: Walker<'a>,
    w: &mut Walker<'a>,
    r: Option<Step<'a>>,
    n: int,
)
    requires
        b.wf(),
        call_ensures(Blob::walk, (&b,), start),
        *old(w) == start && n == 0 || walked(old(w), n) && old(w).blob == b,
        call_ensures(Walker::next, (w,), r),
    ensures
        r is Some ==> {
            &&& 0 <= n < tree(b).len()
            &&& walked(final(w), n + 1)
            &&& r->0 is Node == tree(b)[n] is Node
            &&& r->0 is Node ==> r->0->Node_0 == tree(b)[n]->Node_0 && r->0->Node_1.spec_bytes()
                == tree(b)[n]->Node_1
            &&& r->0 is Property ==> r->0->Property_0.spec_bytes() == tree(b)[n]->Property_0
                && r->0->Property_1@ == tree(b)[n]->Property_1
        },
        r is None ==> n == tree(b).len(),
{
    if *old(w) == start && n == 0 {
        lemma_walked(&start);
    }
    lemma_walk_on(old(w), final(w), n);
}

/// A blob that is refused is refused for the first thing that is wrong with it,
/// and told what was found there.
pub proof fn lemma_refused_for_the_first_reason(va: u64, data: &[u8], r: Result<Header, Error>)
    requires
        va != 0 && va % 8 == 0 ==> data@.len() >= 40,
        call_ensures(probe, (va, data), r),
    ensures
        ({
            let d = data@;
            let e = r->Err_0;
            let magic = 0x100_0000 * d[0] + 0x1_0000 * d[1] + 0x100 * d[2] + d[3];
            let size = 0x100_0000 * d[4] + 0x1_0000 * d[5] + 0x100 * d[6] + d[7];
            let version = 0x100_0000 * d[20] + 0x1_0000 * d[21] + 0x100 * d[22] + d[23];
            let oldest = 0x100_0000 * d[24] + 0x1_0000 * d[25] + 0x100 * d[26] + d[27];
            let good = va != 0 && va % 8 == 0 && magic == 0xd00d_feed;
            let sized = good && 40 <= size <= 0x10_0000;
            &&& va == 0 ==> r is Err && e == Error::Null
            &&& va % 8 != 0 ==> r is Err && e == Error::Misaligned(va)
            &&& va != 0 && va % 8 == 0 && magic != 0xd00d_feed ==> r is Err && e is BadMagic
                && e->BadMagic_0 == magic
            &&& good && size < 40 ==> r is Err && e is TooSmall && e->TooSmall_0 == size
            &&& good && size > 0x10_0000 ==> r is Err && e is TooLarge && e->TooLarge_0 == size
            &&& sized && (version < 17 || oldest > 17) ==> r is Err && e is Version
                && e->Version_0 == version
            &&& sized && 17 <= version && oldest <= 17 && r is Err ==> e == Error::BlockOutOfRange
        }),
{
}

/// Looking early finds a blob exactly where it would be accepted, and its size.
pub proof fn lemma_early_look_agrees(
    pa: u64,
    data: &[u8],
    early: Option<(u64, u64)>,
    r: Result<Header, Error>,
)
    requires
        pa != 0 && pa % 8 == 0 ==> data@.len() >= 40,
        call_ensures(early_probe, (pa, data), early),
        call_ensures(probe, (pa, data), r),
    ensures
        early is Some <==> r is Ok,
        early is Some ==> (early->0).0 == pa && (early->0).1 == r->Ok_0.totalsize,
{
}

/// What the firmware points at is taken for a blob exactly if it would be
/// accepted and all of it lies in RAM, the header before it is looked at; and
/// it is read where it was said to be.
pub proof fn lemma_blob_must_be_in_ram<'a>(
    pa: u64,
    va: u64,
    data: &'a [u8],
    ram_base: u64,
    ram_size: u64,
    r: Result<Blob<'a>, Error>,
    header: Result<Header, Error>,
)
    requires
        call_ensures(init, (pa, va, data, ram_base, ram_size), r),
        pa != 0 && ram_base <= pa && pa + 40 <= ram_base + ram_size ==> call_ensures(
            probe,
            (va, data),
            header,
        ),
    ensures
        ({
            let end = ram_base + ram_size;
            let reached = pa != 0 && ram_base <= pa && pa + 40 <= end;
            let inside = pa + header->Ok_0.totalsize <= end;
            &&& pa == 0 ==> r is Err && r->Err_0 == Error::Null
            &&& pa != 0 && !reached ==> r is Err && r->Err_0 == Error::OutsideRam(pa)
            &&& reached && header is Err ==> r is Err && r->Err_0 == header->Err_0
            &&& reached && header is Ok && !inside ==> r is Err && r->Err_0 == Error::OutsideRam(
                pa,
            )
            &&& reached && header is Ok && inside ==> {
                &&& r is Ok
                &&& r->Ok_0.pa == pa && r->Ok_0.va == va
                &&& r->Ok_0.header == header->Ok_0
                &&& r->Ok_0.data@ == data@
            }
        }),
{
}

/// Every reason to refuse a blob is told in its own words.
pub proof fn lemma_refusals_are_described(e: Error, r: &'static str)
    requires
        call_ensures(Error::describe, (e,), r),
    ensures
        e is Null ==> r@ == "null pointer"@,
        e is Misaligned ==> r@ == "not 8 byte aligned"@,
        e is BadMagic ==> r@ == "bad magic"@,
        e is TooSmall ==> r@ == "totalsize too small"@,
        e is TooLarge ==> r@ == "totalsize too large"@,
        e is Version ==> r@ == "unsupported version"@,
        e is BlockOutOfRange ==> r@ == "block runs off the end"@,
        e is OutsideRam ==> r@ == "blob is not in RAM"@,
{
}

} // verus!
