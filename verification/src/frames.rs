//! The physical frame allocator: the bottom of the memory stack.
//!
//! One bit per 4 KiB frame, set when the frame is allocated or reserved. A
//! bitmap keeps the allocator's own bookkeeping out of the memory it hands
//! out, answers "is this frame free" in one read, and makes a double free
//! visible. Allocation always takes the lowest free frame, so which frame
//! comes back is a function of which frames are free and of nothing else.

use vstd::prelude::*;
use vstd::set_lib::*;

use crate::memory::Memory;

verus! {

/// Where RAM starts if nothing tells us otherwise.
pub const DEFAULT_RAM_BASE: u64 = 0x4000_0000;

/// How much RAM to assume when nothing tells us otherwise.
pub const DEFAULT_RAM_SIZE: u64 = 256 * 1024 * 1024;

/// Standard 4 KiB page. Also the granule the MMU uses.
pub const FRAME_SIZE: u64 = 4096;

/// The most RAM the bitmap can track. RAM past this point is ignored.
pub const MAX_RAM: u64 = 4 * 1024 * 1024 * 1024;

/// Frames in `MAX_RAM`.
pub const MAX_FRAMES: usize = 1024 * 1024;

/// Words in a bitmap of `MAX_FRAMES` bits.
pub const BITMAP_WORDS: usize = 16 * 1024;

/// A 4 KiB physical frame, identified by its base address.
///
/// A newtype rather than a bare `u64` so a physical address cannot be passed
/// where a virtual one is wanted.
#[derive(Clone, Copy, PartialEq, Eq, PartialOrd, Ord, Debug, Structural)]
pub struct Frame(pub u64);

impl Frame {
    /// Physical base address of this frame.
    pub fn addr(&self) -> (r: u64)
        ensures
            r == self.0,
    {
        self.0
    }

    /// Wrap a physical address that is already known to name a frame.
    pub fn from_addr(addr: u64) -> (f: Frame)
        requires
            addr % FRAME_SIZE == 0,
        ensures
            f.0 == addr,
    {
        Frame(addr)
    }
}

/// `count` consecutive frame addresses starting at `start`.
pub open spec fn run(start: int, count: int) -> Set<int> {
    Set::new(|a: int| start <= a < start + count * 4096 && (a - start) % 4096 == 0)
}

/// A run of frames has as many members as it has frames.
pub proof fn lemma_run(start: int, count: int)
    requires
        0 <= count,
    ensures
        run(start, count).finite(),
        run(start, count).len() == count,
    decreases count,
{
    if count == 0 {
        assert(run(start, 0) =~= Set::empty());
    } else {
        lemma_run(start, count - 1);
        let last = start + (count - 1) * 4096;
        assert(run(start, count) =~= run(start, count - 1).insert(last));
    }
}

/// Bit `k` of `w`.
pub open spec fn bit(w: u64, k: u64) -> bool {
    (w >> k) & 1u64 == 1u64
}

proof fn lemma_word_bits(w: u64, k: u64, j: u64)
    by (bit_vector)
    requires
        k < 64,
        j < 64,
    ensures
        (w & (1u64 << k) != 0) == ((w >> k) & 1u64 == 1u64),
        (((w | (1u64 << k)) >> j) & 1u64 == 1u64) == (j == k || (w >> j) & 1u64 == 1u64),
        (((w & !(1u64 << k)) >> j) & 1u64 == 1u64) == (j != k && (w >> j) & 1u64 == 1u64),
        ((0xffff_ffff_ffff_ffffu64 >> j) & 1u64 == 1u64),
        ((0u64 >> j) & 1u64 == 0u64),
{
}

/// One bit per frame. Set means allocated or reserved.
pub struct Bitmap {
    bits: Vec<u64>,
    free: usize,
    reserved: usize,
}

impl Bitmap {
    /// The bitmap covers every frame there can be.
    pub closed spec fn wf(&self) -> bool {
        self.bits@.len() == BITMAP_WORDS
    }

    /// Is bit `i` set?
    pub closed spec fn holds(&self, i: int) -> bool {
        bit(self.bits@[i / 64], (i % 64) as u64)
    }

    /// The count of free frames.
    pub closed spec fn free_count(&self) -> int {
        self.free as int
    }

    /// The count of reserved frames.
    pub closed spec fn reserved_count(&self) -> int {
        self.reserved as int
    }

    /// Both counts, unchanged.
    pub open spec fn same_counts(&self, other: &Bitmap) -> bool {
        self.free_count() == other.free_count() && self.reserved_count() == other.reserved_count()
    }

    /// Every bit clear, and nothing counted.
    pub fn new() -> (b: Bitmap)
        ensures
            b.wf(),
            forall|i: int| 0 <= i < MAX_FRAMES ==> !#[trigger] b.holds(i),
            b.free_count() == 0,
            b.reserved_count() == 0,
    {
        let mut bits: Vec<u64> = Vec::new();
        let mut i: usize = 0;
        while i < BITMAP_WORDS
            invariant
                i <= BITMAP_WORDS,
                bits@.len() == i,
                forall|k: int| 0 <= k < i ==> bits@[k] == 0,
            decreases BITMAP_WORDS - i,
        {
            bits.push(0);
            i += 1;
        }
        let b = Bitmap { bits, free: 0, reserved: 0 };
        proof {
            assert forall|i: int| 0 <= i < MAX_FRAMES implies !#[trigger] b.holds(i) by {
                lemma_word_bits(0, 0, (i % 64) as u64);
                assert(b.bits@[i / 64] == 0);
            }
        }
        b
    }

    /// Update both counts.
    fn set_counts(&mut self, free: usize, reserved: usize)
        requires
            old(self).wf(),
        ensures
            final(self).wf(),
            final(self).free_count() == free,
            final(self).reserved_count() == reserved,
            forall|i: int| #[trigger] final(self).holds(i) == old(self).holds(i),
    {
        self.free = free;
        self.reserved = reserved;
    }

    fn is_set(&self, index: usize) -> (r: bool)
        requires
            self.wf(),
            index < MAX_FRAMES,
        ensures
            r == self.holds(index as int),
    {
        let k: u64 = (index % 64) as u64;
        proof {
            lemma_word_bits(self.bits@[index as int / 64], k, 0);
        }
        self.bits[index / 64] & (1u64 << k) != 0
    }

    fn set(&mut self, index: usize)
        requires
            old(self).wf(),
            index < MAX_FRAMES,
        ensures
            final(self).wf(),
            final(self).same_counts(old(self)),
            forall|i: int|
                0 <= i < MAX_FRAMES ==> #[trigger] final(self).holds(i) == (i == index || old(
                    self,
                ).holds(i)),
    {
        let k: u64 = (index % 64) as u64;
        let w: u64 = self.bits[index / 64];
        self.bits[index / 64] = w | (1u64 << k);
        proof {
            assert forall|i: int| 0 <= i < MAX_FRAMES implies #[trigger] self.holds(i) == (i
                == index || old(self).holds(i)) by {
                lemma_word_bits(w, k, (i % 64) as u64);
            }
        }
    }

    fn clear(&mut self, index: usize)
        requires
            old(self).wf(),
            index < MAX_FRAMES,
        ensures
            final(self).wf(),
            final(self).same_counts(old(self)),
            forall|i: int|
                0 <= i < MAX_FRAMES ==> #[trigger] final(self).holds(i) == (i != index && old(
                    self,
                ).holds(i)),
    {
        let k: u64 = (index % 64) as u64;
        let w: u64 = self.bits[index / 64];
        self.bits[index / 64] = w & !(1u64 << k);
        proof {
            assert forall|i: int| 0 <= i < MAX_FRAMES implies #[trigger] self.holds(i) == (i
                != index && old(self).holds(i)) by {
                lemma_word_bits(w, k, (i % 64) as u64);
            }
        }
    }

    /// Mark every frame in `start..end` taken, a word at a time.
    fn set_range(&mut self, start: usize, end: usize)
        requires
            old(self).wf(),
            start <= end <= MAX_FRAMES,
        ensures
            final(self).wf(),
            final(self).same_counts(old(self)),
            forall|i: int|
                0 <= i < MAX_FRAMES ==> #[trigger] final(self).holds(i) == (start <= i < end
                    || old(self).holds(i)),
    {
        let mut index: usize = start;
        while index < end && index % 64 != 0
            invariant
                self.wf(),
                start <= index <= end <= MAX_FRAMES,
                self.same_counts(old(self)),
                forall|i: int|
                    0 <= i < MAX_FRAMES ==> #[trigger] self.holds(i) == (start <= i < index || old(
                        self,
                    ).holds(i)),
            decreases end - index,
        {
            self.set(index);
            index += 1;
        }

        while end - index >= 64
            invariant
                self.wf(),
                start <= index <= end <= MAX_FRAMES,
                index < end ==> index % 64 == 0,
                self.same_counts(old(self)),
                forall|i: int|
                    0 <= i < MAX_FRAMES ==> #[trigger] self.holds(i) == (start <= i < index || old(
                        self,
                    ).holds(i)),
            decreases end - index,
        {
            let ghost before = *self;
            self.bits[index / 64] = u64::MAX;
            proof {
                assert forall|i: int| 0 <= i < MAX_FRAMES implies #[trigger] self.holds(i) == (start
                    <= i < index + 64 || old(self).holds(i)) by {
                    lemma_word_bits(0, 0, (i % 64) as u64);
                    assert(before.holds(i) == (start <= i < index || old(self).holds(i)));
                }
            }
            index += 64;
        }

        while index < end
            invariant
                self.wf(),
                start <= index <= end <= MAX_FRAMES,
                self.same_counts(old(self)),
                forall|i: int|
                    0 <= i < MAX_FRAMES ==> #[trigger] self.holds(i) == (start <= i < index || old(
                        self,
                    ).holds(i)),
            decreases end - index,
        {
            self.set(index);
            index += 1;
        }
    }

    /// The inverse of `set_range`, and word wise for the same reason.
    fn clear_range(&mut self, start: usize, end: usize)
        requires
            old(self).wf(),
            start <= end <= MAX_FRAMES,
        ensures
            final(self).wf(),
            final(self).same_counts(old(self)),
            forall|i: int|
                0 <= i < MAX_FRAMES ==> #[trigger] final(self).holds(i) == (!(start <= i < end)
                    && old(self).holds(i)),
    {
        let mut index: usize = start;
        while index < end && index % 64 != 0
            invariant
                self.wf(),
                start <= index <= end <= MAX_FRAMES,
                self.same_counts(old(self)),
                forall|i: int|
                    0 <= i < MAX_FRAMES ==> #[trigger] self.holds(i) == (!(start <= i < index)
                        && old(self).holds(i)),
            decreases end - index,
        {
            self.clear(index);
            index += 1;
        }

        while end - index >= 64
            invariant
                self.wf(),
                start <= index <= end <= MAX_FRAMES,
                index < end ==> index % 64 == 0,
                self.same_counts(old(self)),
                forall|i: int|
                    0 <= i < MAX_FRAMES ==> #[trigger] self.holds(i) == (!(start <= i < index)
                        && old(self).holds(i)),
            decreases end - index,
        {
            let ghost before = *self;
            self.bits[index / 64] = 0;
            proof {
                assert forall|i: int| 0 <= i < MAX_FRAMES implies #[trigger] self.holds(i) == (!(
                start <= i < index + 64) && old(self).holds(i)) by {
                    lemma_word_bits(0, 0, (i % 64) as u64);
                    assert(before.holds(i) == (!(start <= i < index) && old(self).holds(i)));
                }
            }
            index += 64;
        }

        while index < end
            invariant
                self.wf(),
                start <= index <= end <= MAX_FRAMES,
                self.same_counts(old(self)),
                forall|i: int|
                    0 <= i < MAX_FRAMES ==> #[trigger] self.holds(i) == (!(start <= i < index)
                        && old(self).holds(i)),
            decreases end - index,
        {
            self.clear(index);
            index += 1;
        }
    }

    /// Lowest index whose bit is clear.
    fn first_clear(&self) -> (r: Option<usize>)
        requires
            self.wf(),
        ensures
            match r {
                Some(index) => {
                    &&& index < MAX_FRAMES
                    &&& !self.holds(index as int)
                    &&& forall|i: int| 0 <= i < index ==> #[trigger] self.holds(i)
                },
                None => forall|i: int| 0 <= i < MAX_FRAMES ==> #[trigger] self.holds(i),
            },
    {
        let mut word_index: usize = 0;
        while word_index < BITMAP_WORDS
            invariant
                self.wf(),
                word_index <= BITMAP_WORDS,
                forall|i: int| 0 <= i < word_index * 64 ==> #[trigger] self.holds(i),
            decreases BITMAP_WORDS - word_index,
        {
            let word: u64 = self.bits[word_index];
            proof {
                vstd::std_specs::bits::axiom_u64_trailing_ones(word);
            }
            if word != u64::MAX {
                let bit_index: usize = word.trailing_ones() as usize;
                proof {
                    let index = word_index * 64 + bit_index;
                    assert(index / 64 == word_index && index % 64 == bit_index);
                    assert(!self.holds(index));
                    assert forall|i: int| 0 <= i < index implies #[trigger] self.holds(i) by {
                        if i >= word_index * 64 {
                            assert(i / 64 == word_index);
                            let j = (i % 64) as u64;
                            assert((word >> j) & 1u64 == 1u64);
                        }
                    }
                }
                return Some(word_index * 64 + bit_index);
            }
            proof {
                assert forall|i: int| 0 <= i < (word_index + 1) * 64 implies #[trigger] self.holds(
                    i,
                ) by {
                    if i >= word_index * 64 {
                        assert(i / 64 == word_index);
                        lemma_word_bits(0, 0, (i % 64) as u64);
                    }
                }
            }
            word_index += 1;
        }
        None
    }
}

/// The allocator: where RAM is, and which of its frames are taken.
pub struct Allocator {
    bitmap: Bitmap,
    ram_base: u64,
    ram_length: u64,
    image_end: u64,
}

/// Why a range could not be reserved.
#[derive(Clone, Copy, PartialEq, Eq, Debug, Structural)]
pub enum ReserveError {
    /// The range is not entirely inside RAM.
    OutsideRam(u64),
    /// A frame in the range has already been handed out, so reserving it now
    /// would mean two owners.
    AlreadyTaken(u64),
}

/// `n` rounded down to a whole number of frames.
pub open spec fn round_down(n: int) -> int {
    n / 4096 * 4096
}

/// `n` rounded up to a whole number of frames.
pub open spec fn round_up(n: int) -> int {
    (n + 4095) / 4096 * 4096
}

/// The RAM the allocator tracks out of `size` bytes of it.
pub open spec fn trackable(size: int) -> int {
    round_down(if size <= MAX_RAM {
        size
    } else {
        MAX_RAM as int
    })
}

impl Allocator {
    /// Physical address where RAM starts.
    pub closed spec fn base(&self) -> int {
        self.ram_base as int
    }

    /// Bytes of RAM.
    pub closed spec fn length(&self) -> int {
        self.ram_length as int
    }

    /// First address past the kernel image.
    pub closed spec fn image(&self) -> int {
        self.image_end as int
    }

    /// Frames of RAM.
    pub open spec fn count(&self) -> int {
        self.length() / 4096
    }

    /// Address of frame `i`.
    pub open spec fn frame(&self, i: int) -> int {
        self.base() + i * 4096
    }

    /// The addresses of the frames that are allocated or reserved.
    pub closed spec fn taken(&self) -> Set<int> {
        Set::new(
            |a: int|
                self.base() <= a < self.base() + self.length() && (a - self.base()) % 4096 == 0
                    && self.bitmap.holds((a - self.base()) / 4096),
        )
    }

    /// Frames available.
    pub closed spec fn free_count(&self) -> int {
        self.bitmap.free_count()
    }

    /// Frames permanently held.
    pub closed spec fn reserved_count(&self) -> int {
        self.bitmap.reserved_count()
    }

    /// RAM is whole frames that the bitmap can track, frames that do not exist
    /// look taken, and the free count is right.
    pub closed spec fn wf(&self) -> bool {
        &&& self.bitmap.wf()
        &&& self.ram_length <= MAX_RAM
        &&& self.ram_length % 4096 == 0
        &&& self.ram_base + self.ram_length <= u64::MAX
        &&& forall|i: int|
            self.ram_length / 4096 <= i < MAX_FRAMES ==> #[trigger] self.bitmap.holds(i)
        &&& self.bitmap.free_count() + self.taken().len() == self.ram_length / 4096
    }

    /// The same RAM, the same image, the same reservations.
    pub open spec fn same_machine(&self, other: &Allocator) -> bool {
        &&& self.base() == other.base()
        &&& self.length() == other.length()
        &&& self.image() == other.image()
        &&& self.reserved_count() == other.reserved_count()
    }

    /// Nothing about the allocator differs.
    pub open spec fn same(&self, other: &Allocator) -> bool {
        self.same_machine(other) && self.taken() == other.taken() && self.free_count()
            == other.free_count()
    }

    /// Only the lowest free frames have been taken since `before`: each lies
    /// below every frame that is still free.
    pub open spec fn packed(&self, before: &Allocator) -> bool {
        &&& self.same_machine(before)
        &&& before.taken().subset_of(self.taken())
        &&& forall|f: int, g: int|
            #![trigger self.taken().contains(f), run(self.base(), self.count()).contains(g)]
            self.taken().contains(f) && !before.taken().contains(f) && run(
                self.base(),
                self.count(),
            ).contains(g) && !self.taken().contains(g) ==> f < g
    }

    /// Taking lowest frames twice is taking lowest frames.
    pub proof fn lemma_packed(&self, middle: &Allocator, before: &Allocator)
        requires
            self.packed(middle),
            middle.packed(before),
        ensures
            self.packed(before),
    {
        assert forall|f: int, g: int|
            #![trigger self.taken().contains(f), run(self.base(), self.count()).contains(g)]
            self.taken().contains(f) && !before.taken().contains(f) && run(
                self.base(),
                self.count(),
            ).contains(g) && !self.taken().contains(g) implies f < g by {
            if middle.taken().contains(f) {
                assert(run(middle.base(), middle.count()).contains(g));
                assert(!middle.taken().contains(g));
            }
        }
    }

    /// What holds of every allocator: RAM is bounded, taken frames are frames
    /// of RAM, and every frame is either free or taken.
    pub proof fn lemma_facts(&self)
        requires
            self.wf(),
        ensures
            0 <= self.base(),
            0 <= self.length() <= MAX_RAM,
            self.length() % 4096 == 0,
            self.length() == self.count() * 4096,
            self.count() <= MAX_FRAMES,
            self.base() + self.length() <= u64::MAX,
            self.taken().finite(),
            self.taken().subset_of(run(self.base(), self.count())),
            0 <= self.free_count(),
            self.free_count() + self.taken().len() == self.count(),
    {
        lemma_run(self.base(), self.count());
        assert(self.taken().subset_of(run(self.base(), self.count())));
        lemma_set_subset_finite(run(self.base(), self.count()), self.taken());
    }

    /// A bit is set exactly when its frame is taken.
    proof fn lemma_taken(&self, i: int)
        requires
            self.wf(),
            0 <= i < self.count(),
        ensures
            self.taken().contains(self.frame(i)) == self.bitmap.holds(i),
    {
        assert(self.frame(i) - self.base() == i * 4096);
    }
}

/// Physical address where RAM starts.
pub fn ram_base(a: &Allocator) -> (r: u64)
    ensures
        r == a.base(),
{
    a.ram_base
}

/// How much RAM there is, as the machine described it.
pub fn ram_size(a: &Allocator) -> (r: u64)
    ensures
        r == a.length(),
{
    a.ram_length
}

/// First address past the kernel image.
pub fn image_end(a: &Allocator) -> (r: u64)
    ensures
        r == a.image(),
{
    a.image_end
}

/// How many frames that works out to.
pub fn frame_count(a: &Allocator) -> (r: usize)
    requires
        a.wf(),
    ensures
        r == a.count(),
{
    (a.ram_length / FRAME_SIZE) as usize
}

/// Frames currently available.
pub fn free_frames(a: &Allocator) -> (r: usize)
    ensures
        r == a.free_count(),
{
    a.bitmap.free
}

/// Frames permanently held: the kernel image, and anything `reserve_range`
/// has taken out of the pool since.
pub fn reserved_frames(a: &Allocator) -> (r: usize)
    ensures
        r == a.reserved_count(),
{
    a.bitmap.reserved
}

fn truncate(size: u64) -> (r: u64)
    ensures
        r == trackable(size as int),
        r % 4096 == 0,
        r <= MAX_RAM,
{
    let capped: u64 = if size < MAX_RAM {
        size
    } else {
        MAX_RAM
    };
    capped / FRAME_SIZE * FRAME_SIZE
}

/// Claim everything from the base of RAM up to the end of the kernel image,
/// and release the rest.
///
/// RAM past what the bitmap can track is cut off rather than refused, so a
/// larger machine still boots on the part that can be described.
pub fn init(base: u64, size: u64, kernel_end: u64) -> (a: Allocator)
    requires
        base + trackable(size as int) <= u64::MAX,
        base <= round_up(kernel_end as int) <= u64::MAX,
        (round_up(kernel_end as int) - base) / 4096 <= trackable(size as int) / 4096,
    ensures
        a.wf(),
        a.base() == base,
        a.length() == trackable(size as int),
        a.image() == round_up(kernel_end as int),
        a.reserved_count() == (round_up(kernel_end as int) - base) / 4096,
        a.taken() == run(base as int, a.reserved_count()),
        a.free_count() == a.count() - a.reserved_count(),
{
    let size: u64 = truncate(size);
    let frames: usize = (size / FRAME_SIZE) as usize;

    // Round up: a frame is only free if the whole frame is free.
    let whole: u64 = kernel_end / FRAME_SIZE;
    let first_free: u64 = if kernel_end % FRAME_SIZE == 0 {
        kernel_end
    } else {
        assert(round_up(kernel_end as int) == (kernel_end / 4096 + 1) * 4096);
        (whole + 1) * FRAME_SIZE
    };
    assert(first_free == round_up(kernel_end as int));
    let reserved_frames: usize = ((first_free - base) / FRAME_SIZE) as usize;

    let mut bitmap = Bitmap::new();
    bitmap.set_range(0, reserved_frames);
    // Frames that do not exist have to look occupied, or the lowest first
    // search would walk straight off the end of memory.
    bitmap.set_range(frames, MAX_FRAMES);
    bitmap.set_counts(frames - reserved_frames, reserved_frames);

    let a = Allocator { bitmap, ram_base: base, ram_length: size, image_end: first_free };
    proof {
        assert forall|i: int| 0 <= i < MAX_FRAMES implies #[trigger] a.bitmap.holds(i) == (i
            < reserved_frames || frames <= i) by {}
        assert(a.taken() =~= run(base as int, reserved_frames as int));
        lemma_run(base as int, reserved_frames as int);
    }
    a
}

/// Claim a range of physical memory the allocator must never hand out.
///
/// Checks the whole range before setting a single bit, so a refusal leaves
/// nothing behind. The error for a clash names the lowest frame in the way.
pub fn reserve_range(a: &mut Allocator, base: u64, len: u64) -> (r: Result<usize, ReserveError>)
    requires
        old(a).wf(),
        old(a).reserved_count() + MAX_FRAMES <= usize::MAX,
    ensures
        final(a).wf(),
        ({
            let start = round_down(base as int);
            let end = round_up(base + len);
            let ram_end = old(a).base() + old(a).length();
            let first = old(a).base() + round_down(start - old(a).base());
            let wanted = run(first, (end - start) / 4096);
            if len == 0 {
                r == Ok::<usize, ReserveError>(0) && final(a).same(old(a))
            } else if base + len > u64::MAX || start < old(a).base() || end > ram_end {
                r == Err::<usize, ReserveError>(ReserveError::OutsideRam(base)) && final(a).same(
                    old(a),
                )
            } else if wanted.disjoint(old(a).taken()) {
                &&& r == Ok::<usize, ReserveError>(((end - start) / 4096) as usize)
                &&& final(a).taken() == old(a).taken().union(wanted)
                &&& final(a).free_count() == old(a).free_count() - (end - start) / 4096
                &&& final(a).reserved_count() == old(a).reserved_count() + (end - start) / 4096
                &&& final(a).base() == old(a).base()
                &&& final(a).length() == old(a).length()
                &&& final(a).image() == old(a).image()
            } else {
                &&& final(a).same(old(a))
                &&& r matches Err(ReserveError::AlreadyTaken(clash)) && wanted.contains(clash as int)
                    && old(a).taken().contains(clash as int) && forall|q: int|
                    #[trigger] wanted.contains(q) && old(a).taken().contains(q) ==> clash <= q
            }
        }),
{
    if len == 0 {
        return Ok(0);
    }
    // Round outwards. A range covering one byte of a frame reserves the frame.

    let start: u64 = base / FRAME_SIZE * FRAME_SIZE;
    let stop: u64 = match base.checked_add(len) {
        Some(stop) => stop,
        None => {
            return Err(ReserveError::OutsideRam(base));
        },
    };
    let end: u64 = if stop % FRAME_SIZE == 0 {
        stop
    } else {
        assert(round_up(stop as int) == (stop / 4096 + 1) * 4096);
        if stop > u64::MAX - FRAME_SIZE {
            // The last frame of the address space, which no RAM reaches the
            // end of.
            return Err(ReserveError::OutsideRam(base));
        }
        (stop / FRAME_SIZE + 1) * FRAME_SIZE
    };
    assert(end == round_up(base + len));

    if start < a.ram_base || end > a.ram_base + a.ram_length {
        return Err(ReserveError::OutsideRam(base));
    }
    let first: usize = ((start - a.ram_base) / FRAME_SIZE) as usize;
    let count: usize = ((end - start) / FRAME_SIZE) as usize;
    let ghost low = a.frame(first as int);
    let ghost wanted = run(low, count as int);
    proof {
        assert(end - start == count * 4096);
        assert(first * 4096 <= start - a.ram_base);
        assert(low == old(a).base() + round_down(start - old(a).base()));
        assert(first + count <= a.count()) by {
            assert((first + count) * 4096 <= a.ram_length);
        }
        a.lemma_facts();
    }

    let mut index: usize = first;
    while index < first + count
        invariant
            *a == *old(a),
            a.wf(),
            first <= index <= first + count <= a.count() <= MAX_FRAMES,
            low == a.frame(first as int),
            low == a.base() + round_down(start - a.base()),
            wanted == run(low, count as int),
            len != 0,
            base + len <= u64::MAX,
            start == round_down(base as int),
            end == round_up(base + len),
            end - start == count * 4096,
            a.base() <= start,
            end <= a.base() + a.length(),
            forall|i: int| first <= i < index ==> !#[trigger] a.bitmap.holds(i),
        decreases first + count - index,
    {
        if a.bitmap.is_set(index) {
            proof {
                a.lemma_taken(index as int);
                let clash = a.frame(index as int);
                assert((clash - low) == (index - first) * 4096);
                assert(wanted.contains(clash));
                assert forall|q: int| #[trigger]
                    wanted.contains(q) && a.taken().contains(q) implies clash <= q by {
                    let i = (q - a.base()) / 4096;
                    assert(q - a.base() == (q - low) + first * 4096);
                    assert(i >= first);
                    assert(q == a.frame(i));
                    if q < clash {
                        assert(!a.bitmap.holds(i));
                    }
                }
                assert(!wanted.disjoint(a.taken()));
            }
            return Err(ReserveError::AlreadyTaken(a.ram_base + index as u64 * FRAME_SIZE));
        }
        index += 1;
    }

    proof {
        assert(wanted.disjoint(a.taken())) by {
            assert forall|q: int| wanted.contains(q) implies !a.taken().contains(q) by {
                let i = (q - a.base()) / 4096;
                assert(q - a.base() == (q - low) + first * 4096);
                assert(q == a.frame(i));
                assert(first <= i < first + count);
                assert(!a.bitmap.holds(i));
            }
        }
    }

    let mut index: usize = first;
    while index < first + count
        invariant
            a.bitmap.wf(),
            a.ram_base == old(a).ram_base,
            a.ram_length == old(a).ram_length,
            a.image_end == old(a).image_end,
            a.bitmap.same_counts(&old(a).bitmap),
            first <= index <= first + count <= MAX_FRAMES,
            forall|i: int|
                0 <= i < MAX_FRAMES ==> #[trigger] a.bitmap.holds(i) == (first <= i < index || old(
                    a,
                ).bitmap.holds(i)),
        decreases first + count - index,
    {
        a.bitmap.set(index);
        index += 1;
    }
    proof {
        lemma_run(low, count as int);
        assert(a.taken() =~= old(a).taken().union(wanted)) by {
            assert forall|q: int| a.taken().contains(q) == old(a).taken().union(wanted).contains(
                q,
            ) by {
                let i = (q - a.base()) / 4096;
                if a.base() <= q < a.base() + a.length() && (q - a.base()) % 4096 == 0 {
                    assert(q == a.frame(i));
                    assert(q - low == (i - first) * 4096);
                    assert(wanted.contains(q) == (first <= i < first + count));
                }
                if wanted.contains(q) {
                    assert(q - a.base() == (q - low) + first * 4096);
                }
            }
        }
        old(a).lemma_facts();
        lemma_set_disjoint_lens(old(a).taken(), wanted);
        lemma_run(a.base(), a.count());
        assert(a.taken().subset_of(run(a.base(), a.count())));
        lemma_len_subset(a.taken(), run(a.base(), a.count()));
    }
    a.bitmap.set_counts(a.bitmap.free - count, a.bitmap.reserved + count);
    proof {
        assert(a.taken() =~= old(a).taken().union(wanted));
    }
    Ok(count)
}

/// Is this address in a frame that is allocated or reserved?
pub fn is_taken(a: &Allocator, addr: u64) -> (r: bool)
    requires
        a.wf(),
    ensures
        r == (a.base() <= addr < a.base() + a.length() && a.taken().contains(
            a.base() + round_down(addr - a.base()),
        )),
{
    if addr < a.ram_base || addr >= a.ram_base + a.ram_length {
        return false;
    }
    let index: usize = ((addr - a.ram_base) / FRAME_SIZE) as usize;
    proof {
        a.lemma_taken(index as int);
    }
    a.bitmap.is_set(index)
}

/// Take on the real memory map, once the device tree has been read.
///
/// Refuses to move RAM out from under itself, and refuses to shrink past a
/// frame somebody holds. Returns how many frames were gained.
pub fn adopt(a: &mut Allocator, base: u64, size: u64) -> (r: Result<i64, ReserveError>)
    requires
        old(a).wf(),
        base == old(a).base() ==> base + trackable(size as int) <= u64::MAX,
    ensures
        final(a).wf(),
        ({
            let new = trackable(size as int);
            let lost = Set::new(|q: int| old(a).taken().contains(q) && q >= old(a).base() + new);
            if base != old(a).base() {
                r == Err::<i64, ReserveError>(ReserveError::OutsideRam(base)) && final(a).same(
                    old(a),
                )
            } else if lost.is_empty() {
                &&& r matches Ok(gained) && gained == new / 4096 - old(a).count()
                &&& final(a).base() == old(a).base()
                &&& final(a).length() == new
                &&& final(a).image() == old(a).image()
                &&& final(a).reserved_count() == old(a).reserved_count()
                &&& final(a).taken() == old(a).taken()
                &&& final(a).free_count() == old(a).free_count() + new / 4096 - old(a).count()
            } else {
                &&& final(a).same(old(a))
                &&& r matches Err(ReserveError::AlreadyTaken(clash)) && lost.contains(clash as int)
                    && forall|q: int| #[trigger] lost.contains(q) ==> clash <= q
            }
        }),
{
    if base != a.ram_base {
        return Err(ReserveError::OutsideRam(base));
    }
    let whole: u64 = truncate(size);
    let old_count: usize = frame_count(a);
    let new_count: usize = (whole / FRAME_SIZE) as usize;
    let ghost lost = Set::new(
        |q: int| old(a).taken().contains(q) && q >= old(a).base() + whole,
    );
    proof {
        a.lemma_facts();
    }

    if new_count > old_count {
        a.bitmap.clear_range(old_count, new_count);
        a.bitmap.set_counts(a.bitmap.free + (new_count - old_count), a.bitmap.reserved);
        proof {
            assert(lost =~= Set::empty());
        }
    } else {
        // Shrinking can only take frames nobody has.
        let mut index: usize = new_count;
        while index < old_count
            invariant
                *a == *old(a),
                a.wf(),
                new_count <= index <= old_count == a.count() <= MAX_FRAMES,
                whole == new_count * 4096,
                whole == trackable(size as int),
                base == a.base(),
                lost == Set::new(
                    |q: int| old(a).taken().contains(q) && q >= old(a).base() + whole,
                ),
                forall|i: int| new_count <= i < index ==> !#[trigger] a.bitmap.holds(i),
            decreases old_count - index,
        {
            if a.bitmap.is_set(index) {
                proof {
                    a.lemma_taken(index as int);
                    let clash = a.frame(index as int);
                    assert(lost.contains(clash));
                    assert(!lost.is_empty());
                    assert forall|q: int| #[trigger] lost.contains(q) implies clash <= q by {
                        let i = (q - a.base()) / 4096;
                        assert(q == a.frame(i));
                        if q < clash {
                            assert(!a.bitmap.holds(i));
                        }
                    }
                }
                return Err(ReserveError::AlreadyTaken(a.ram_base + index as u64 * FRAME_SIZE));
            }
            index += 1;
        }
        proof {
            assert forall|q: int| !lost.contains(q) by {
                if lost.contains(q) {
                    let i = (q - a.base()) / 4096;
                    assert(q == a.frame(i));
                    assert(!a.bitmap.holds(i));
                }
            }
            assert(lost =~= Set::empty());
            assert(a.taken().subset_of(run(a.base(), new_count as int))) by {
                assert forall|q: int| a.taken().contains(q) implies run(
                    a.base(),
                    new_count as int,
                ).contains(q) by {
                    assert(!lost.contains(q));
                }
            }
            lemma_run(a.base(), new_count as int);
            lemma_len_subset(a.taken(), run(a.base(), new_count as int));
        }
        a.bitmap.set_range(new_count, old_count);
        a.bitmap.set_counts(a.bitmap.free - (old_count - new_count), a.bitmap.reserved);
    }

    a.ram_length = whole;
    proof {
        assert forall|q: int| a.taken().contains(q) == old(a).taken().contains(q) by {
            let i = (q - a.base()) / 4096;
            if (q - a.base()) % 4096 == 0 {
                assert(q == a.frame(i));
            }
            assert(!lost.contains(q));
        }
        assert(a.taken() =~= old(a).taken());
    }
    Ok(new_count as i64 - old_count as i64)
}

/// Take the lowest free frame, zeroed.
///
/// Always zeroed, so nothing that was in a freed frame can leak into whatever
/// gets it next.
pub fn alloc_frame(a: &mut Allocator, memory: &mut Memory) -> (r: Option<Frame>)
    requires
        old(a).wf(),
        old(memory).wf(),
        old(memory).has(old(a).base(), old(a).length()),
    ensures
        final(a).wf(),
        final(memory).wf(),
        final(a).same_machine(old(a)),
        (r is Some) == (old(a).free_count() > 0),
        match r {
            Some(f) => {
                &&& final(a).packed(old(a))
                &&& run(old(a).base(), old(a).count()).contains(f.0 as int)
                &&& !old(a).taken().contains(f.0 as int)
                &&& forall|q: int|
                    #[trigger] run(old(a).base(), old(a).count()).contains(q) && q < f.0 ==> old(
                        a,
                    ).taken().contains(q)
                &&& final(a).taken() == old(a).taken().insert(f.0 as int)
                &&& final(a).free_count() == old(a).free_count() - 1
                &&& final(memory).agrees_outside(old(memory), f.0 as int, f.0 + 4096)
                &&& forall|q: int| f.0 <= q < f.0 + 4096 ==> #[trigger] final(memory).byte_at(q) == 0
            },
            None => *final(a) == *old(a) && *final(memory) == *old(memory),
        },
{
    proof {
        a.lemma_facts();
    }
    let index: usize = match a.bitmap.first_clear() {
        Some(index) => index,
        None => {
            proof {
                assert(a.taken() =~= run(a.base(), a.count()));
                lemma_run(a.base(), a.count());
            }
            return None;
        },
    };
    assert(index < a.count());
    let frame = Frame(a.ram_base + index as u64 * FRAME_SIZE);
    proof {
        a.lemma_taken(index as int);
        assert(frame.0 == a.frame(index as int));
        assert forall|q: int| #[trigger]
            run(a.base(), a.count()).contains(q) && q < frame.0 implies a.taken().contains(q) by {
            let i = (q - a.base()) / 4096;
            assert(q == a.frame(i));
            assert(a.bitmap.holds(i));
        }
        lemma_run(a.base(), a.count());
        lemma_len_subset(a.taken().insert(frame.0 as int), run(a.base(), a.count()));
    }
    a.bitmap.set(index);
    a.bitmap.set_counts(a.bitmap.free - 1, a.bitmap.reserved);
    proof {
        assert(a.taken() =~= old(a).taken().insert(frame.0 as int)) by {
            assert forall|q: int| a.taken().contains(q) == old(a).taken().insert(
                frame.0 as int,
            ).contains(q) by {
                let i = (q - a.base()) / 4096;
                if (q - a.base()) % 4096 == 0 {
                    assert(q == a.frame(i));
                }
            }
        }
    }
    memory.fill(frame.0, FRAME_SIZE as usize, 0);
    Some(frame)
}

/// Take `count` physically consecutive frames, zeroed: the lowest such run.
pub fn alloc_contiguous(a: &mut Allocator, memory: &mut Memory, count: usize) -> (r: Option<Frame>)
    requires
        old(a).wf(),
        old(memory).wf(),
        old(memory).has(old(a).base(), old(a).length()),
        count > 0,
    ensures
        final(a).wf(),
        final(memory).wf(),
        final(a).same_machine(old(a)),
        match r {
            Some(f) => {
                &&& old(a).fits(f.0 as int, count as int)
                &&& old(a).first_fit(f.0 as int, count as int)
                &&& final(a).taken() == old(a).taken().union(run(f.0 as int, count as int))
                &&& final(a).free_count() == old(a).free_count() - count
                &&& final(memory).agrees_outside(old(memory), f.0 as int, f.0 + count * 4096)
                &&& forall|q: int|
                    f.0 <= q < f.0 + count * 4096 ==> #[trigger] final(memory).byte_at(q) == 0
            },
            None => {
                &&& *final(a) == *old(a)
                &&& *final(memory) == *old(memory)
                &&& old(a).no_fit(count as int)
            },
        },
{
    proof {
        a.lemma_facts();
    }
    let total: usize = frame_count(a);
    let mut run_start: usize = 0;
    let mut found: usize = 0;
    let mut index: usize = 0;
    while index < total
        invariant
            *a == *old(a),
            *memory == *old(memory),
            a.wf(),
            memory.wf(),
            memory.has(a.base(), a.length()),
            a.length() == a.count() * 4096,
            a.base() + a.length() <= u64::MAX,
            total == a.count() <= MAX_FRAMES,
            count > 0,
            index <= total,
            found < count,
            found <= index,
            found > 0 ==> run_start == index - found,
            forall|i: int| index - found <= i < index ==> !#[trigger] a.bitmap.holds(i),
            found < index ==> a.bitmap.holds(index - found - 1),
            forall|s: int| 0 <= s && s + count <= index ==> !#[trigger] a.clear_run(s, count as int),
        decreases total - index,
    {
        if a.bitmap.is_set(index) {
            proof {
                assert forall|s: int| 0 <= s && s + count <= index + 1 implies !#[trigger] a.clear_run(
                    s,
                    count as int,
                ) by {
                    if s + count == index + 1 {
                        assert(a.bitmap.holds(index as int));
                    }
                }
            }
            found = 0;
            index += 1;
            continue ;
        }
        if found == 0 {
            run_start = index;
        }
        found += 1;
        if found < count {
            proof {
                assert forall|s: int| 0 <= s && s + count <= index + 1 implies !#[trigger] a.clear_run(
                    s,
                    count as int,
                ) by {
                    if s + count == index + 1 {
                        assert(s <= index - found < s + count);
                        assert(a.bitmap.holds(index - found));
                    }
                }
            }
            index += 1;
            continue ;
        }
        let frame = Frame(a.ram_base + run_start as u64 * FRAME_SIZE);
        let ghost low = frame.0 as int;
        let ghost wanted = run(low, count as int);
        proof {
            assert(low == a.frame(run_start as int));
            assert(a.clear_run(run_start as int, count as int));
            a.lemma_fits(run_start as int, count as int);
            assert forall|q: int| #[trigger] old(a).fits(q, count as int) implies frame.0 <= q by {
                let s = (q - a.base()) / 4096;
                a.lemma_fits_index(q, count as int);
            }
            lemma_run(low, count as int);
            a.lemma_facts();
            lemma_set_disjoint_lens(a.taken(), wanted);
            lemma_run(a.base(), a.count());
            assert(a.taken().union(wanted).subset_of(run(a.base(), a.count())));
            lemma_len_subset(a.taken().union(wanted), run(a.base(), a.count()));
        }
        let mut taking: usize = run_start;
        while taking < run_start + count
            invariant
                a.bitmap.wf(),
                a.ram_base == old(a).ram_base,
                a.ram_length == old(a).ram_length,
                a.image_end == old(a).image_end,
                a.bitmap.same_counts(&old(a).bitmap),
                run_start <= taking <= run_start + count <= MAX_FRAMES,
                forall|i: int|
                    0 <= i < MAX_FRAMES ==> #[trigger] a.bitmap.holds(i) == (run_start <= i < taking
                        || old(a).bitmap.holds(i)),
            decreases run_start + count - taking,
        {
            a.bitmap.set(taking);
            taking += 1;
        }
        a.bitmap.set_counts(a.bitmap.free - count, a.bitmap.reserved);
        proof {
            assert(a.taken() =~= old(a).taken().union(wanted)) by {
                assert forall|q: int| a.taken().contains(q) == old(a).taken().union(
                    wanted,
                ).contains(q) by {
                    let i = (q - a.base()) / 4096;
                    if (q - a.base()) % 4096 == 0 {
                        assert(q == a.frame(i));
                        assert(q - low == (i - run_start) * 4096);
                    }
                    if wanted.contains(q) {
                        assert(q - a.base() == (q - low) + run_start * 4096);
                    }
                }
            }
        }
        let size: usize = memory.bytes.len();
        assert(run_start * 4096 + count * 4096 <= a.length());
        assert(count * 4096 <= size);
        memory.fill(frame.0, count * 4096, 0);
        return Some(frame);
    }
    proof {
        assert forall|q: int| !#[trigger] old(a).fits(q, count as int) by {
            if old(a).fits(q, count as int) {
                a.lemma_fits_index(q, count as int);
            }
        }
    }
    None
}

impl Allocator {
    /// `count` consecutive frames of RAM from `q`, none of them taken.
    pub open spec fn fits(&self, q: int, count: int) -> bool {
        &&& run(q, count).subset_of(run(self.base(), self.count()))
        &&& run(q, count).disjoint(self.taken())
    }

    /// No run of `count` free frames begins before `f`.
    pub open spec fn first_fit(&self, f: int, count: int) -> bool {
        forall|q: int| #[trigger] self.fits(q, count) ==> f <= q
    }

    /// There is no run of `count` free frames.
    pub open spec fn no_fit(&self, count: int) -> bool {
        forall|q: int| !#[trigger] self.fits(q, count)
    }

    /// There is a run of `count` free frames with as many as `below` free ones
    /// before it.
    pub open spec fn has_fit(&self, count: int, below: int) -> bool {
        exists|q: int| #[trigger] self.fits(q, count) && free_below(self, q).len() >= below
    }

    spec fn clear_run(&self, s: int, count: int) -> bool {
        forall|i: int| s <= i < s + count ==> !#[trigger] self.bitmap.holds(i)
    }

    proof fn lemma_fits(&self, s: int, count: int)
        requires
            self.wf(),
            0 <= s,
            s + count <= self.count(),
            self.clear_run(s, count),
        ensures
            self.fits(self.frame(s), count),
    {
        let q = self.frame(s);
        assert forall|a: int| run(q, count).contains(a) implies run(
            self.base(),
            self.count(),
        ).contains(a) && !self.taken().contains(a) by {
            let i = (a - self.base()) / 4096;
            assert(a - self.base() == (a - q) + s * 4096);
            assert(a == self.frame(i));
            assert(s <= i < s + count);
            assert(!self.bitmap.holds(i));
        }
    }

    proof fn lemma_fits_index(&self, q: int, count: int)
        requires
            self.wf(),
            count > 0,
            self.fits(q, count),
        ensures
            ({
                let s = (q - self.base()) / 4096;
                &&& q == self.frame(s)
                &&& 0 <= s
                &&& s + count <= self.count()
                &&& self.clear_run(s, count)
            }),
    {
        let s = (q - self.base()) / 4096;
        assert(run(q, count).contains(q));
        let last = q + (count - 1) * 4096;
        assert(run(q, count).contains(last));
        assert(run(self.base(), self.count()).contains(last));
        assert forall|i: int| s <= i < s + count implies !#[trigger] self.bitmap.holds(i) by {
            let a = self.frame(i);
            assert(a - q == (i - s) * 4096);
            assert(run(q, count).contains(a));
            assert(run(self.base(), self.count()).contains(a));
            self.lemma_taken(i);
        }
    }
}

/// Of the frames of `ram`, the ones in `after` but not in `before` are the
/// lowest that were free: each lies below every frame that still is.
#[verifier::opaque]
pub open spec fn lowest(ram: Set<int>, before: Set<int>, after: Set<int>) -> bool {
    forall|f: int, g: int|
        #![trigger after.contains(f), ram.contains(g)]
        after.contains(f) && !before.contains(f) && ram.contains(g) && !after.contains(g) ==> f < g
}

/// Taking the lowest frames takes the lowest frames.
pub proof fn lemma_lowest(after: &Allocator, before: &Allocator)
    requires
        after.packed(before),
    ensures
        lowest(run(before.base(), before.count()), before.taken(), after.taken()),
{
    reveal(lowest);
    let (one, two) = (before.taken(), after.taken());
    let ram = run(before.base(), before.count());
    assert forall|f: int, g: int|
        #![trigger two.contains(f), ram.contains(g)]
        two.contains(f) && !one.contains(f) && ram.contains(g) && !two.contains(g) implies f
        < g by {
        assert(run(after.base(), after.count()).contains(g));
    }
}

/// The free frames below `q`.
pub open spec fn free_below(a: &Allocator, q: int) -> Set<int> {
    Set::new(|f: int| run(a.base(), a.count()).contains(f) && !a.taken().contains(f) && f < q)
}

/// One frame further on, there is one more frame below.
proof fn lemma_below_step(a: &Allocator, i: int)
    requires
        a.wf(),
        0 <= i < a.count(),
    ensures
        free_below(a, a.frame(i)).finite(),
        free_below(a, a.frame(i + 1)).finite(),
        free_below(a, a.frame(i + 1)).len() == free_below(a, a.frame(i)).len() + if a.bitmap.holds(
            i,
        ) {
            0int
        } else {
            1int
        },
{
    let ram = run(a.base(), a.count());
    let here = a.frame(i);
    lemma_run(a.base(), a.count());
    a.lemma_taken(i);
    lemma_set_subset_finite(ram, free_below(a, here));
    lemma_set_subset_finite(ram, free_below(a, a.frame(i + 1)));
    assert(ram.contains(here)) by {
        assert(here - a.base() == i * 4096);
    }
    if a.bitmap.holds(i) {
        assert(free_below(a, a.frame(i + 1)) =~= free_below(a, here));
    } else {
        assert(free_below(a, a.frame(i + 1)) =~= free_below(a, here).insert(here));
    }
}

/// Past a run of free frames, there are that many more below.
proof fn lemma_below_run(a: &Allocator, s: int, count: int)
    requires
        a.wf(),
        0 <= s,
        0 <= count,
        s + count <= a.count(),
        a.clear_run(s, count),
    ensures
        free_below(a, a.frame(s + count)).len() == free_below(a, a.frame(s)).len() + count,
    decreases count,
{
    if count > 0 {
        lemma_below_run(a, s, count - 1);
        lemma_below_step(a, s + count - 1);
        assert(!a.bitmap.holds(s + count - 1));
    }
}

/// Is there a run of `count` free frames with at least `below` free frames
/// below it?
pub fn has_run(a: &Allocator, count: usize, below: usize) -> (r: bool)
    requires
        a.wf(),
        count > 0,
    ensures
        r == a.has_fit(count as int, below as int),
{
    proof {
        a.lemma_facts();
        assert(free_below(a, a.frame(0)) =~= Set::empty());
    }
    let total: usize = frame_count(a);
    let mut found: usize = 0;
    let mut seen: usize = 0;
    let mut index: usize = 0;
    while index < total
        invariant
            a.wf(),
            count > 0,
            index <= total == a.count() <= MAX_FRAMES,
            found <= seen <= index,
            seen == free_below(a, a.frame(index as int)).len(),
            forall|i: int| index - found <= i < index ==> !#[trigger] a.bitmap.holds(i),
            found < index ==> a.bitmap.holds(index - found - 1),
            forall|s: int|
                0 <= s && s + count <= index && #[trigger] a.clear_run(s, count as int)
                    ==> free_below(a, a.frame(s)).len() < below,
        decreases total - index,
    {
        proof {
            lemma_below_step(a, index as int);
        }
        if a.bitmap.is_set(index) {
            found = 0;
            assert forall|s: int|
                0 <= s && s + count <= index + 1 && #[trigger] a.clear_run(
                    s,
                    count as int,
                ) implies free_below(a, a.frame(s)).len() < below by {
                assert(s + count == index + 1 ==> s <= index < s + count);
            }
        } else {
            found += 1;
            seen += 1;
            let ghost s = index + 1 - count;
            if found >= count {
                proof {
                    assert(a.clear_run(s, count as int));
                    lemma_below_run(a, s, count as int);
                    a.lemma_fits(s, count as int);
                }
                if seen - count >= below {
                    assert(a.fits(a.frame(s), count as int));
                    return true;
                }
            } else {
                assert(0 <= s ==> a.bitmap.holds(index - found) && s <= index - found < s + count);
            }
        }
        index += 1;
    }
    assert forall|q: int| #[trigger] a.fits(q, count as int) implies free_below(a, q).len()
        < below by {
        a.lemma_fits_index(q, count as int);
    }
    false
}

/// Hand a frame back. It must be a frame that is taken.
pub fn free(a: &mut Allocator, frame: Frame)
    requires
        old(a).wf(),
        frame.0 % FRAME_SIZE == 0,
        old(a).taken().contains(frame.0 as int),
    ensures
        final(a).wf(),
        final(a).same_machine(old(a)),
        final(a).taken() == old(a).taken().remove(frame.0 as int),
        final(a).free_count() == old(a).free_count() + 1,
{
    let index: usize = ((frame.0 - a.ram_base) / FRAME_SIZE) as usize;
    proof {
        a.lemma_facts();
        assert(frame.0 == a.frame(index as int));
        lemma_run(a.base(), a.count());
    }
    a.bitmap.clear(index);
    a.bitmap.set_counts(a.bitmap.free + 1, a.bitmap.reserved);
    proof {
        assert(a.taken() =~= old(a).taken().remove(frame.0 as int)) by {
            assert forall|q: int| a.taken().contains(q) == old(a).taken().remove(
                frame.0 as int,
            ).contains(q) by {
                let i = (q - a.base()) / 4096;
                if (q - a.base()) % 4096 == 0 {
                    assert(q == a.frame(i));
                }
            }
        }
    }
}

/// A run of frames is the one before it and one more.
proof fn lemma_run_step(start: int, n: int, count: int)
    requires
        0 <= n < count,
    ensures
        run(start, n + 1) == run(start, n).insert(start + n * 4096),
        !run(start, n).contains(start + n * 4096),
        run(start, count).contains(start + n * 4096),
        start % 4096 == 0 ==> (start + n * 4096) % 4096 == 0,
{
    assert(run(start, n + 1) =~= run(start, n).insert(start + n * 4096));
}

/// Taking one more away.
proof fn lemma_less_one(all: Set<int>, gone: Set<int>, x: int)
    ensures
        all.difference(gone).remove(x) == all.difference(gone.insert(x)),
{
    assert(all.difference(gone).remove(x) =~= all.difference(gone.insert(x)));
}

/// Hand back `count` frames starting at `first`.
#[verifier::spinoff_prover]
pub fn free_contiguous(a: &mut Allocator, first: Frame, count: usize)
    requires
        old(a).wf(),
        first.0 % FRAME_SIZE == 0,
        run(first.0 as int, count as int).subset_of(old(a).taken()),
    ensures
        final(a).wf(),
        final(a).same_machine(old(a)),
        final(a).taken() == old(a).taken().difference(run(first.0 as int, count as int)),
        final(a).free_count() == old(a).free_count() + count,
{
    let mut index: usize = 0;
    proof {
        a.lemma_facts();
        assert(a.taken() =~= old(a).taken().difference(run(first.0 as int, 0)));
        assert forall|q: int| run(first.0 as int, count as int).contains(q) implies q
            <= u64::MAX - 4096 by {
            assert(old(a).taken().contains(q));
            assert(run(old(a).base(), old(a).count()).contains(q));
        }
    }
    while index < count
        invariant
            a.wf(),
            index <= count,
            first.0 % 4096 == 0,
            a.same_machine(old(a)),
            run(first.0 as int, count as int).subset_of(old(a).taken()),
            forall|q: int| #[trigger]
                run(first.0 as int, count as int).contains(q) ==> q <= u64::MAX - 4096,
            a.taken() == old(a).taken().difference(run(first.0 as int, index as int)),
            a.free_count() == old(a).free_count() + index,
        decreases count - index,
    {
        let ghost next = first.0 + index * 4096;
        let ghost before = a.taken();
        proof {
            lemma_run_step(first.0 as int, index as int, count as int);
            assert(before.contains(next));
        }
        let frame = Frame::from_addr(first.0 + index as u64 * FRAME_SIZE);
        free(a, frame);
        proof {
            lemma_less_one(old(a).taken(), run(first.0 as int, index as int), next);
        }
        index += 1;
    }
}

/// Reuse is deterministic: a frame that was allocated and given back is the one
/// that the next allocation returns.
///
/// `f` is what an allocation returned and `g` what the next one returned, with
/// nothing but giving `f` back in between.
pub proof fn lemma_reuse(ram: Set<int>, taken: Set<int>, f: int, g: int)
    requires
        ram.contains(f),
        !taken.contains(f),
        forall|q: int| #[trigger] ram.contains(q) && q < f ==> taken.contains(q),
        ram.contains(g),
        !taken.insert(f).remove(f).contains(g),
        forall|q: int| #[trigger]
            ram.contains(q) && q < g ==> taken.insert(f).remove(f).contains(q),
    ensures
        g == f,
{
    assert(taken.insert(f).remove(f) =~= taken);
}

/// A frame that is handed out was nobody's, is the lowest such, and comes
/// zeroed; it is its owner's from then on, and nothing else has changed hands.
pub proof fn lemma_frame_is_handed_out_once(
    a: &mut Allocator,
    m: &mut Memory,
    f: Frame,
    before: bool,
    after: bool,
    q: u64,
    was: bool,
    now: bool,
)
    requires
        old(a).wf(),
        old(m).wf(),
        old(m).has(old(a).base(), old(a).length()),
        call_ensures(alloc_frame, (a, m), Some(f)),
        call_ensures(is_taken, (&*old(a), f.0), before),
        call_ensures(is_taken, (&*final(a), f.0), after),
        call_ensures(is_taken, (&*old(a), q), was),
        call_ensures(is_taken, (&*final(a), q), now),
        old(m).has(q as int, 1),
    ensures
        !before && after,
        (f.0 - old(a).base()) % 4096 == 0,
        old(a).base() <= f.0 && f.0 + 4096 <= old(a).base() + old(a).length(),
        f.0 <= q < f.0 + 4096 ==> now && final(m).byte_at(q as int) == 0,
        !(f.0 <= q < f.0 + 4096) ==> now == was && final(m).byte_at(q as int) == old(m).byte_at(
            q as int,
        ),
        old(a).base() <= q < f.0 ==> was,
        final(a).free_count() == old(a).free_count() - 1,
        final(a).base() == old(a).base(),
        final(a).length() == old(a).length(),
        final(a).reserved_count() == old(a).reserved_count(),
{
    let b = old(a).base();
    let frame = b + round_down(q - b);
    if old(a).base() <= q < f.0 {
        assert((f.0 - b) % 4096 == 0);
        assert(run(b, old(a).count()).contains(frame));
        assert(frame < f.0);
    }
    if b <= q < b + old(a).length() {
        assert((f.0 <= q < f.0 + 4096) == (frame == f.0));
    }
}

/// There is a frame to be had exactly as long as some are free.
pub proof fn lemma_out_of_frames(a: &mut Allocator, m: &mut Memory, r: Option<Frame>, left: usize)
    requires
        old(a).wf(),
        call_ensures(alloc_frame, (a, m), r),
        call_ensures(free_frames, (&*old(a),), left),
    ensures
        r is None <==> left == 0,
        r is None ==> *final(a) == *old(a) && *final(m) == *old(m),
{
    old(a).lemma_facts();
}

/// Giving a frame back makes it nobody's: it is the next to be handed out,
/// unless a lower one is free, and everything else stays with its owner.
pub proof fn lemma_freed_frame_is_free(
    a: &mut Allocator,
    frame: Frame,
    q: u64,
    was: bool,
    now: bool,
    a2: &mut Allocator,
    m2: &mut Memory,
    next: Option<Frame>,
)
    requires
        old(a).wf(),
        frame.0 % 4096 == 0,
        old(a).base() % 4096 == 0,
        old(a).taken().contains(frame.0 as int),
        call_ensures(free, (a, frame), ()),
        call_ensures(is_taken, (&*old(a), q), was),
        call_ensures(is_taken, (&*final(a), q), now),
        *old(a2) == *final(a),
        call_ensures(alloc_frame, (a2, m2), next),
    ensures
        frame.0 <= q < frame.0 + 4096 ==> was && !now,
        !(frame.0 <= q < frame.0 + 4096) ==> now == was,
        final(a).free_count() == old(a).free_count() + 1,
        next is Some && (next->0).0 <= frame.0,
{
    old(a).lemma_facts();
    let b = old(a).base();
    assert(run(b, old(a).count()).contains(frame.0 as int));
}

/// A run that is handed out is whole: each of its frames was nobody's and comes
/// zeroed, they lie one after the other, and no run of that length was free
/// lower down. There is none only if no such run was free anywhere.
pub proof fn lemma_run_is_handed_out_whole(
    a: &mut Allocator,
    m: &mut Memory,
    count: usize,
    r: Option<Frame>,
    q: u64,
    was: bool,
    now: bool,
    other: int,
)
    requires
        old(a).wf(),
        old(m).wf(),
        old(m).has(old(a).base(), old(a).length()),
        count > 0,
        call_ensures(alloc_contiguous, (a, m, count), r),
        call_ensures(is_taken, (&*old(a), q), was),
        call_ensures(is_taken, (&*final(a), q), now),
        old(m).has(q as int, 1),
    ensures
        r is Some ==> {
            let f = (r->0).0 as int;
            &&& f <= q < f + count * 4096 ==> !was && now && final(m).byte_at(q as int) == 0
            &&& !(f <= q < f + count * 4096) ==> now == was && final(m).byte_at(q as int) == old(
                m,
            ).byte_at(q as int)
            &&& old(a).base() <= f && f + count * 4096 <= old(a).base() + old(a).length()
            &&& final(a).free_count() == old(a).free_count() - count
        },
        ({
            let free = {
                &&& old(a).base() <= other
                &&& other + count * 4096 <= old(a).base() + old(a).length()
                &&& (other - old(a).base()) % 4096 == 0
                &&& forall|p: int|
                    other <= p < other + count * 4096 && (p - other) % 4096 == 0 ==> !#[trigger] old(
                        a,
                    ).taken().contains(p)
            };
            free ==> r is Some && (r->0).0 <= other
        }),
        r is None ==> *final(a) == *old(a) && *final(m) == *old(m),
{
    old(a).lemma_facts();
    let b = old(a).base();
    let n = count as int;
    assert(count * 4096 == n * 4096);
    if r is Some {
        let f = (r->0).0 as int;
        let frame = b + round_down(q - b);
        assert(run(f, n).contains(f));
        let last = f + (n - 1) * 4096;
        assert(run(f, n).contains(last));
        assert(run(b, old(a).count()).contains(f));
        assert(run(b, old(a).count()).contains(last));
        if b <= q < b + old(a).length() {
            assert((f <= q < f + n * 4096) == run(f, n).contains(frame));
        }
    }
    if {
        &&& b <= other
        &&& other + count * 4096 <= b + old(a).length()
        &&& (other - b) % 4096 == 0
        &&& forall|p: int|
            other <= p < other + count * 4096 && (p - other) % 4096 == 0 ==> !#[trigger] old(
                a,
            ).taken().contains(p)
    } {
        assert(old(a).fits(other, n));
    }
}

/// What is reserved is never handed out: every frame that the range touches,
/// none of which anybody had, is held from then on, and counted as held for
/// good. No other frame is.
pub proof fn lemma_reserved_is_held(
    a: &mut Allocator,
    base: u64,
    len: u64,
    r: Result<usize, ReserveError>,
    q: u64,
    was: bool,
    now: bool,
)
    requires
        old(a).wf(),
        old(a).base() % 4096 == 0,
        call_ensures(reserve_range, (a, base, len), r),
        call_ensures(is_taken, (&*old(a), q), was),
        call_ensures(is_taken, (&*final(a), q), now),
    ensures
        r is Ok && base <= q < base + len ==> !was && now,
        r is Ok && now && !was ==> q / 4096 * 4096 < base + len && base < q / 4096 * 4096 + 4096,
        was ==> now,
        r is Err ==> now == was && final(a).free_count() == old(a).free_count(),
        r is Ok ==> final(a).free_count() == old(a).free_count() - r->Ok_0
            && final(a).reserved_count() == old(a).reserved_count() + r->Ok_0,
        final(a).base() == old(a).base(),
        final(a).length() == old(a).length(),
{
    let b = old(a).base();
    let start = round_down(base as int);
    let end = round_up(base + len);
    let first = b + round_down(start - b);
    let frame = b + round_down(q - b);
    let wanted = run(first, (end - start) / 4096);
    assert(first == start);
    if r is Ok && len > 0 {
        assert((end - start) / 4096 * 4096 == end - start);
        if b <= q < b + old(a).length() {
            assert(frame == q / 4096 * 4096);
            if base <= q < base + len {
                assert(wanted.contains(frame));
            }
        }
    }
}

/// A range is reserved unless part of it is no RAM, or somebody has a frame
/// that it touches: then that is the reason given, with the lowest such frame.
pub proof fn lemma_reservation_is_refused_for_a_reason(
    a: &mut Allocator,
    base: u64,
    len: u64,
    r: Result<usize, ReserveError>,
    q: u64,
    was: bool,
)
    requires
        old(a).wf(),
        old(a).base() % 4096 == 0,
        len > 0,
        call_ensures(reserve_range, (a, base, len), r),
        call_ensures(is_taken, (&*old(a), q), was),
    ensures
        ({
            let inside = old(a).base() <= base && base + len <= old(a).base() + old(a).length();
            &&& !inside <==> r == Err::<usize, ReserveError>(ReserveError::OutsideRam(base))
            &&& inside && was && base <= q < base + len ==> r is Err
            &&& r matches Err(ReserveError::AlreadyTaken(clash)) ==> {
                &&& old(a).taken().contains(clash as int)
                &&& clash < base + len && clash + 4096 > base
                &&& was && base <= q < base + len ==> clash <= q
            }
        }),
{
    old(a).lemma_facts();
    let b = old(a).base();
    let start = round_down(base as int);
    let end = round_up(base + len);
    let first = b + round_down(start - b);
    let frame = b + round_down(q - b);
    let wanted = run(first, (end - start) / 4096);
    assert(first == start);
    assert((end - start) / 4096 * 4096 == end - start);
    assert((b + old(a).length()) % 4096 == 0);
    if b <= q < b + old(a).length() && base <= q < base + len {
        assert(frame == q / 4096 * 4096);
        assert(wanted.contains(frame));
    }
}

/// The allocator starts with the kernel's image held and the rest of the RAM
/// it can track free.
pub proof fn lemma_starts_past_the_image(
    base: u64,
    size: u64,
    kernel_end: u64,
    a: Allocator,
    q: u64,
    now: bool,
)
    requires
        base % 4096 == 0,
        base <= kernel_end,
        kernel_end + 4095 <= u64::MAX,
        base + size <= u64::MAX,
        size % 4096 == 0,
        size <= MAX_RAM,
        kernel_end <= base + size,
        call_ensures(init, (base, size, kernel_end), a),
        call_ensures(is_taken, (&a, q), now),
    ensures
        a.base() == base,
        a.length() == size,
        base <= q < kernel_end ==> now,
        base <= q < base + size && q / 4096 > (kernel_end - 1) / 4096 ==> !now,
        !(base <= q < base + size) ==> !now,
        a.free_count() + a.reserved_count() == size / 4096,
{
    let held = a.reserved_count();
    let frame = base + round_down(q - base);
    let end = round_up(kernel_end as int);
    assert(held * 4096 == end - base);
    if base <= q < base + size {
        assert(run(base as int, held).contains(frame) == (frame < end));
    }
}

/// Adopting the machine's own account of its memory changes how much there is,
/// and not who has what: frames are gained or lost at the end, and none that
/// somebody has may be lost.
pub proof fn lemma_adopted_memory_keeps_its_owners(
    a: &mut Allocator,
    base: u64,
    size: u64,
    r: Result<i64, ReserveError>,
    q: u64,
    was: bool,
    now: bool,
)
    requires
        old(a).wf(),
        size % 4096 == 0,
        size <= MAX_RAM,
        base + size <= u64::MAX,
        call_ensures(adopt, (a, base, size), r),
        call_ensures(is_taken, (&*old(a), q), was),
        call_ensures(is_taken, (&*final(a), q), now),
    ensures
        now == was,
        base != old(a).base() <==> r == Err::<i64, ReserveError>(ReserveError::OutsideRam(base)),
        r is Ok ==> final(a).length() == size && r->Ok_0 * 4096 == size - old(a).length(),
        r is Ok ==> final(a).free_count() - old(a).free_count() == r->Ok_0,
        r is Ok && was ==> q < base + size,
        r is Err ==> final(a).length() == old(a).length() && final(a).free_count() == old(
            a,
        ).free_count(),
        final(a).base() == old(a).base(),
        final(a).reserved_count() == old(a).reserved_count(),
{
    old(a).lemma_facts();
    final(a).lemma_facts();
    let b = old(a).base();
    let frame = b + round_down(q - b);
    let lost = Set::new(|p: int| old(a).taken().contains(p) && p >= b + size);
    if was {
        if lost.is_empty() && frame >= b + size {
            assert(lost.contains(frame));
        }
    }
    if now {
        assert(run(b, old(a).count()).contains(frame) || !old(a).taken().contains(frame));
    }
}

/// A run that was handed out and given back leaves the frames as they were.
pub proof fn lemma_run_comes_back(
    a: &mut Allocator,
    m: &mut Memory,
    count: usize,
    f: Frame,
    b: &mut Allocator,
    q: int,
)
    requires
        old(a).wf(),
        count > 0,
        call_ensures(alloc_contiguous, (a, m, count), Some(f)),
        *old(b) == *final(a),
        call_ensures(free_contiguous, (b, f, count), ()),
    ensures
        final(b).taken().contains(q) == old(a).taken().contains(q),
        final(b).free_count() == old(a).free_count(),
{
}

/// There is a run to be had exactly if asking for one gives one.
pub proof fn lemma_run_is_there_to_be_had(
    a: &mut Allocator,
    m: &mut Memory,
    count: usize,
    there: bool,
    r: Option<Frame>,
)
    requires
        old(a).wf(),
        count > 0,
        call_ensures(has_run, (&*old(a), count, 0), there),
        call_ensures(alloc_contiguous, (a, m, count), r),
    ensures
        there <==> r is Some,
{
}

} // verus!
