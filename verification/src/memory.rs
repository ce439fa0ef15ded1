//! Physical memory, addressed the way the machine addresses it.

use vstd::prelude::*;

verus! {

/// One contiguous window of physical memory.
///
/// Byte `i` of `bytes` is the byte at physical address `base + i`.
pub struct Memory {
    pub base: u64,
    pub bytes: Vec<u8>,
}

impl Memory {
    /// The window fits in the physical address space.
    pub open spec fn wf(&self) -> bool {
        self.base + self.bytes@.len() <= u64::MAX
    }

    /// Are `len` bytes from `pa` inside the window?
    pub open spec fn has(&self, pa: int, len: int) -> bool {
        self.base <= pa && pa + len <= self.base + self.bytes@.len()
    }

    /// The byte at physical address `pa`.
    pub open spec fn byte_at(&self, pa: int) -> u8 {
        self.bytes@[pa - self.base]
    }

    /// The `len` bytes from `pa`.
    pub open spec fn slice_at(&self, pa: int, len: int) -> Seq<u8> {
        self.bytes@.subrange(pa - self.base, pa - self.base + len)
    }

    /// The little endian `u16` at `pa`.
    pub open spec fn u16_at(&self, pa: int) -> u16 {
        (self.byte_at(pa) + 0x100 * self.byte_at(pa + 1)) as u16
    }

    /// The little endian `u32` at `pa`.
    pub open spec fn u32_at(&self, pa: int) -> u32 {
        (self.u16_at(pa) + 0x1_0000 * self.u16_at(pa + 2)) as u32
    }

    /// The little endian `u64` at `pa`.
    pub open spec fn u64_at(&self, pa: int) -> u64 {
        (self.u32_at(pa) + 0x1_0000_0000 * self.u32_at(pa + 4)) as u64
    }

    /// The same window, whatever the bytes in it.
    pub open spec fn same_window(&self, other: &Memory) -> bool {
        self.base == other.base && self.bytes@.len() == other.bytes@.len()
    }

    /// The same window, with the same bytes in `lo..hi`.
    pub open spec fn agrees(&self, other: &Memory, lo: int, hi: int) -> bool {
        &&& self.same_window(other)
        &&& forall|pa: int|
            lo <= pa < hi && self.has(pa, 1) ==> #[trigger] self.byte_at(pa) == other.byte_at(pa)
    }

    /// The same window, with the same bytes everywhere but in `lo..hi`.
    pub open spec fn agrees_outside(&self, other: &Memory, lo: int, hi: int) -> bool {
        &&& self.same_window(other)
        &&& forall|pa: int|
            !(lo <= pa < hi) && self.has(pa, 1) ==> #[trigger] self.byte_at(pa) == other.byte_at(
                pa,
            )
    }

    /// Memory that agrees on a range reads the same words there.
    pub proof fn lemma_agrees_reads(&self, other: &Memory, lo: int, hi: int)
        requires
            self.agrees(other, lo, hi),
        ensures
            forall|pa: int, len: int|
                lo <= pa && pa + len <= hi && 0 <= len && self.has(pa, len) ==> #[trigger] self.slice_at(
                    pa,
                    len,
                ) == other.slice_at(pa, len),
            forall|pa: int|
                lo <= pa && pa + 2 <= hi && self.has(pa, 2) ==> #[trigger] self.u16_at(pa)
                    == other.u16_at(pa),
            forall|pa: int|
                lo <= pa && pa + 4 <= hi && self.has(pa, 4) ==> #[trigger] self.u32_at(pa)
                    == other.u32_at(pa),
            forall|pa: int|
                lo <= pa && pa + 8 <= hi && self.has(pa, 8) ==> #[trigger] self.u64_at(pa)
                    == other.u64_at(pa),
    {
        assert forall|pa: int, len: int|
            lo <= pa && pa + len <= hi && 0 <= len && self.has(pa, len) implies #[trigger] self.slice_at(
            pa,
            len,
        ) == other.slice_at(pa, len) by {
            assert forall|i: int| 0 <= i < len implies self.slice_at(pa, len)[i] == other.slice_at(
                pa,
                len,
            )[i] by {
                assert(self.byte_at(pa + i) == other.byte_at(pa + i));
            }
            assert(self.slice_at(pa, len) =~= other.slice_at(pa, len));
        }
        assert forall|pa: int| lo <= pa && pa + 2 <= hi && self.has(pa, 2) implies #[trigger] self.u16_at(
        pa) == other.u16_at(pa) by {
            assert(self.byte_at(pa) == other.byte_at(pa));
            assert(self.byte_at(pa + 1) == other.byte_at(pa + 1));
        }
        assert forall|pa: int| lo <= pa && pa + 4 <= hi && self.has(pa, 4) implies #[trigger] self.u32_at(
        pa) == other.u32_at(pa) by {
            assert(self.u16_at(pa) == other.u16_at(pa));
            assert(self.u16_at(pa + 2) == other.u16_at(pa + 2));
        }
        assert forall|pa: int| lo <= pa && pa + 8 <= hi && self.has(pa, 8) implies #[trigger] self.u64_at(
        pa) == other.u64_at(pa) by {
            assert(self.u32_at(pa) == other.u32_at(pa));
            assert(self.u32_at(pa + 4) == other.u32_at(pa + 4));
        }
    }

    /// A word is the same when what changed does not touch it.
    pub proof fn lemma_word_kept(&self, other: &Memory, lo: int, hi: int, pa: int)
        requires
            self.agrees_outside(other, lo, hi),
            self.has(pa, 8),
            pa + 8 <= lo || hi <= pa,
        ensures
            self.u64_at(pa) == other.u64_at(pa),
    {
        assert(self.agrees(other, pa, pa + 8));
        self.lemma_agrees_reads(other, pa, pa + 8);
    }

    /// `len` zeroed bytes starting at `base`.
    pub fn new(base: u64, len: usize) -> (m: Memory)
        requires
            base + len <= u64::MAX,
        ensures
            m.wf(),
            m.base == base,
            m.bytes@ == Seq::new(len as nat, |i: int| 0u8),
    {
        let mut bytes: Vec<u8> = Vec::new();
        let mut i: usize = 0;
        while i < len
            invariant
                i <= len,
                bytes@ == Seq::new(i as nat, |i: int| 0u8),
            decreases len - i,
        {
            bytes.push(0);
            i += 1;
        }
        Memory { base, bytes }
    }

    /// The byte at `pa`.
    pub fn read_u8(&self, pa: u64) -> (v: u8)
        requires
            self.has(pa as int, 1),
        ensures
            v == self.byte_at(pa as int),
    {
        let size: usize = self.bytes.len();
        assert(pa - self.base < size);
        self.bytes[(pa - self.base) as usize]
    }

    /// The `len` bytes from `pa`, copied out.
    pub fn read(&self, pa: u64, len: usize) -> (v: Vec<u8>)
        requires
            self.wf(),
            self.has(pa as int, len as int),
        ensures
            v@ == self.slice_at(pa as int, len as int),
    {
        let size: usize = self.bytes.len();
        let start: usize = (pa - self.base) as usize;
        let mut out: Vec<u8> = Vec::new();
        let mut i: usize = 0;
        while i < len
            invariant
                i <= len,
                start == pa - self.base,
                self.has(pa as int, len as int),
                self.wf(),
                self.bytes@.len() == size,
                out@ == self.slice_at(pa as int, i as int),
            decreases len - i,
        {
            out.push(self.bytes[start + i]);
            i += 1;
            assert(out@ =~= self.slice_at(pa as int, i as int));
        }
        assert(out@ =~= self.slice_at(pa as int, len as int));
        out
    }

    /// Overwrite memory from `pa` with `data`.
    pub fn write(&mut self, pa: u64, data: &[u8])
        requires
            old(self).wf(),
            old(self).has(pa as int, data@.len() as int),
        ensures
            final(self).wf(),
            final(self).agrees_outside(old(self), pa as int, pa + data@.len()),
            final(self).slice_at(pa as int, data@.len() as int) == data@,
    {
        let size: usize = self.bytes.len();
        let start: usize = (pa - self.base) as usize;
        let mut i: usize = 0;
        while i < data.len()
            invariant
                i <= data@.len(),
                start == pa - self.base,
                self.has(pa as int, data@.len() as int),
                self.wf(),
                self.bytes@.len() == size,
                self.same_window(old(self)),
                forall|k: int|
                    start <= k < start + i ==> #[trigger] self.bytes@[k] == data@[k - start],
                forall|k: int|
                    0 <= k < self.bytes@.len() && !(start <= k < start + i) ==> self.bytes@[k]
                        == old(self).bytes@[k],
            decreases data@.len() - i,
        {
            self.bytes[start + i] = data[i];
            i += 1;
        }
        assert(self.slice_at(pa as int, data@.len() as int) =~= data@);
    }

    /// Set `len` bytes from `pa` to `value`.
    pub fn fill(&mut self, pa: u64, len: usize, value: u8)
        requires
            old(self).wf(),
            old(self).has(pa as int, len as int),
        ensures
            final(self).wf(),
            final(self).agrees_outside(old(self), pa as int, pa + len),
            forall|q: int| pa <= q < pa + len ==> #[trigger] final(self).byte_at(q) == value,
    {
        let size: usize = self.bytes.len();
        let start: usize = (pa - self.base) as usize;
        let mut i: usize = 0;
        while i < len
            invariant
                i <= len,
                start == pa - self.base,
                self.has(pa as int, len as int),
                self.wf(),
                self.bytes@.len() == size,
                self.same_window(old(self)),
                forall|k: int| start <= k < start + i ==> self.bytes@[k] == value,
                forall|k: int|
                    0 <= k < self.bytes@.len() && !(start <= k < start + i) ==> self.bytes@[k]
                        == old(self).bytes@[k],
            decreases len - i,
        {
            self.bytes[start + i] = value;
            i += 1;
        }
    }

    /// Copy `len` bytes from `src` to `dst`, which do not overlap.
    pub fn copy(&mut self, src: u64, dst: u64, len: usize)
        requires
            old(self).wf(),
            old(self).has(src as int, len as int),
            old(self).has(dst as int, len as int),
            src + len <= dst || dst + len <= src,
        ensures
            final(self).wf(),
            final(self).agrees_outside(old(self), dst as int, dst + len),
            forall|q: int|
                dst <= q < dst + len ==> #[trigger] final(self).byte_at(q) == old(self).byte_at(
                    q - dst + src,
                ),
    {
        let size: usize = self.bytes.len();
        let from: usize = (src - self.base) as usize;
        let to: usize = (dst - self.base) as usize;
        let mut i: usize = 0;
        while i < len
            invariant
                i <= len,
                from == src - self.base,
                to == dst - self.base,
                self.has(src as int, len as int),
                self.has(dst as int, len as int),
                self.wf(),
                self.bytes@.len() == size,
                src + len <= dst || dst + len <= src,
                self.same_window(old(self)),
                forall|k: int|
                    to <= k < to + i ==> #[trigger] self.bytes@[k] == old(self).bytes@[k - to
                        + from],
                forall|k: int|
                    0 <= k < self.bytes@.len() && !(to <= k < to + i) ==> self.bytes@[k] == old(
                        self,
                    ).bytes@[k],
            decreases len - i,
        {
            self.bytes[to + i] = self.bytes[from + i];
            i += 1;
        }
    }

    /// The little endian `u16` at `pa`.
    pub fn read_u16(&self, pa: u64) -> (v: u16)
        requires
            self.wf(),
            self.has(pa as int, 2),
        ensures
            v == self.u16_at(pa as int),
    {
        let low: u16 = self.read_u8(pa) as u16;
        let high: u16 = self.read_u8(pa + 1) as u16;
        low + 0x100 * high
    }

    /// The little endian `u32` at `pa`.
    pub fn read_u32(&self, pa: u64) -> (v: u32)
        requires
            self.wf(),
            self.has(pa as int, 4),
        ensures
            v == self.u32_at(pa as int),
    {
        let low: u32 = self.read_u16(pa) as u32;
        let high: u32 = self.read_u16(pa + 2) as u32;
        low + 0x1_0000 * high
    }

    /// The little endian `u64` at `pa`.
    pub fn read_u64(&self, pa: u64) -> (v: u64)
        requires
            self.wf(),
            self.has(pa as int, 8),
        ensures
            v == self.u64_at(pa as int),
    {
        let low: u64 = self.read_u32(pa) as u64;
        let high: u64 = self.read_u32(pa + 4) as u64;
        low + 0x1_0000_0000 * high
    }

    /// Store one byte at `pa`.
    pub fn write_u8(&mut self, pa: u64, v: u8)
        requires
            old(self).wf(),
            old(self).has(pa as int, 1),
        ensures
            final(self).wf(),
            final(self).agrees_outside(old(self), pa as int, pa + 1),
            final(self).byte_at(pa as int) == v,
    {
        let size: usize = self.bytes.len();
        assert(pa - self.base < size);
        self.bytes[(pa - self.base) as usize] = v;
    }

    /// Store a `u16` at `pa`, little endian.
    pub fn write_u16(&mut self, pa: u64, v: u16)
        requires
            old(self).wf(),
            old(self).has(pa as int, 2),
        ensures
            final(self).wf(),
            final(self).agrees_outside(old(self), pa as int, pa + 2),
            final(self).u16_at(pa as int) == v,
    {
        self.write_u8(pa, (v % 0x100) as u8);
        let ghost low = *self;
        self.write_u8(pa + 1, (v / 0x100) as u8);
        assert(self.byte_at(pa as int) == low.byte_at(pa as int));
    }

    /// Store a `u32` at `pa`, little endian.
    pub fn write_u32(&mut self, pa: u64, v: u32)
        requires
            old(self).wf(),
            old(self).has(pa as int, 4),
        ensures
            final(self).wf(),
            final(self).agrees_outside(old(self), pa as int, pa + 4),
            final(self).u32_at(pa as int) == v,
    {
        self.write_u16(pa, (v % 0x1_0000) as u16);
        let ghost low = *self;
        self.write_u16(pa + 2, (v / 0x1_0000) as u16);
        proof {
            self.lemma_agrees_reads(&low, pa as int, pa + 2);
        }
    }

    /// Store a `u64` at `pa`, little endian.
    pub fn write_u64(&mut self, pa: u64, v: u64)
        requires
            old(self).wf(),
            old(self).has(pa as int, 8),
        ensures
            final(self).wf(),
            final(self).agrees_outside(old(self), pa as int, pa + 8),
            final(self).u64_at(pa as int) == v,
    {
        self.write_u32(pa, (v % 0x1_0000_0000) as u32);
        let ghost low = *self;
        self.write_u32(pa + 4, (v / 0x1_0000_0000) as u32);
        proof {
            self.lemma_agrees_reads(&low, pa as int, pa + 4);
        }
    }
}

/// A word that was stored is the word that is loaded, lies in memory lowest
/// byte first, and leaves every other byte as it was.
pub proof fn lemma_word_round_trip(m: &mut Memory, pa: u64, v: u64, back: u64, q: int)
    requires
        old(m).wf(),
        old(m).has(pa as int, 8),
        call_ensures(Memory::write_u64, (m, pa, v), ()),
        call_ensures(Memory::read_u64, (&*final(m), pa), back),
        old(m).has(q, 1),
    ensures
        back == v,
        v == final(m).byte_at(pa as int) + 0x100 * final(m).byte_at(pa + 1) + 0x1_0000 * final(
            m).byte_at(pa + 2) + 0x100_0000 * final(m).byte_at(pa + 3) + 0x1_0000_0000 * final(
            m).byte_at(pa + 4) + 0x100_0000_0000 * final(m).byte_at(pa + 5) + 0x1_0000_0000_0000
            * final(m).byte_at(pa + 6) + 0x100_0000_0000_0000 * final(m).byte_at(pa + 7),
        !(pa <= q < pa + 8) ==> final(m).byte_at(q) == old(m).byte_at(q),
        final(m).base == old(m).base,
        final(m).bytes@.len() == old(m).bytes@.len(),
{
}

/// Bytes that were written are the bytes that are read.
pub proof fn lemma_bytes_round_trip(m: &mut Memory, pa: u64, data: &[u8], back: Vec<u8>, q: int)
    requires
        old(m).wf(),
        old(m).has(pa as int, data@.len() as int),
        call_ensures(Memory::write, (m, pa, data), ()),
        call_ensures(Memory::read, (&*final(m), pa, data@.len() as usize), back),
        data@.len() <= usize::MAX,
        old(m).has(q, 1),
    ensures
        back@ == data@,
        !(pa <= q < pa + data@.len()) ==> final(m).byte_at(q) == old(m).byte_at(q),
{
}

/// Half words and quarter words likewise: lowest byte first, read as they were
/// written, and every other byte as it was.
pub proof fn lemma_smaller_words_round_trip(
    m: &mut Memory,
    m2: &mut Memory,
    pa: u64,
    v: u32,
    w: u16,
    back: u32,
    back2: u16,
    q: int,
)
    requires
        old(m).wf(),
        old(m).has(pa as int, 4),
        call_ensures(Memory::write_u32, (m, pa, v), ()),
        call_ensures(Memory::read_u32, (&*final(m), pa), back),
        old(m2).wf(),
        old(m2).has(pa as int, 2),
        call_ensures(Memory::write_u16, (m2, pa, w), ()),
        call_ensures(Memory::read_u16, (&*final(m2), pa), back2),
    ensures
        back == v && back2 == w,
        v == final(m).byte_at(pa as int) + 0x100 * final(m).byte_at(pa + 1) + 0x1_0000 * final(
            m).byte_at(pa + 2) + 0x100_0000 * final(m).byte_at(pa + 3),
        w == final(m2).byte_at(pa as int) + 0x100 * final(m2).byte_at(pa + 1),
        old(m).has(q, 1) && !(pa <= q < pa + 4) ==> final(m).byte_at(q) == old(m).byte_at(q),
        old(m2).has(q, 1) && !(pa <= q < pa + 2) ==> final(m2).byte_at(q) == old(m2).byte_at(q),
{
}

} // verus!
