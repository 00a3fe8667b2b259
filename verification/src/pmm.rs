//! Sources of physical frames: a bitmap with one bit for every frame between
//! the lowest and the highest address of a memory map, and a pool of frames
//! that were set aside beforehand.
use vstd::prelude::*;

use crate::memory::{
    is_page_aligned, page_count, MemoryDescriptor, MemoryMap, MemoryType, PhysicalAddress,
    PAGE_SIZE,
};
use crate::paging::manager::PageFrameAllocator;

verus! {

/// Why no frame could be handed out.
#[derive(Clone, Copy, Debug, PartialEq, Eq, Structural)]
pub enum PageFrameAllocatorError {
    /// Every frame of the available regions is in use, or the memory map
    /// spans more frames than a bitmap can have bits.
    OutOfMemory,
    /// The memory map holds no available frame at all.
    MemoryMapEmpty,
}

/// The whole frame at `address` lies in the region `descriptor`, which is
/// available.
pub open spec fn descriptor_offers(descriptor: MemoryDescriptor, address: PhysicalAddress) -> bool {
    &&& descriptor.kind == MemoryType::Available
    &&& descriptor.phys_start <= address
    &&& address + PAGE_SIZE <= descriptor.phys_end
}

/// `address` is the start of a frame that lies between the bounds of `map`
/// and in one of its available regions.
pub open spec fn frame_is_available(map: MemoryMap, address: PhysicalAddress) -> bool {
    &&& is_page_aligned(address)
    &&& map.first_addr <= address
    &&& address + PAGE_SIZE <= map.last_addr
    &&& exists|j: int|
        0 <= j < map.descriptors@.len() && descriptor_offers(
            #[trigger] map.descriptors@[j],
            address,
        )
}

/// The frames that an allocator made from `map` hands out.
pub open spec fn available_frames(map: MemoryMap) -> Set<PhysicalAddress> {
    Set::new(|address: PhysicalAddress| frame_is_available(map, address))
}

/// A frame that an allocator made from `map` hands out starts on a page
/// boundary and lies whole in an available region of `map` and between its
/// bounds.
pub proof fn lemma_frames_lie_in_available_regions(map: MemoryMap, address: PhysicalAddress)
    requires
        available_frames(map).contains(address),
    ensures
        is_page_aligned(address),
        map.first_addr <= address,
        address + PAGE_SIZE <= map.last_addr,
        exists|j: int|
            0 <= j < map.descriptors@.len() && (#[trigger] map.descriptors@[j]).kind
                == MemoryType::Available && map.descriptors@[j].phys_start <= address && address
                + PAGE_SIZE <= map.descriptors@[j].phys_end,
{
    let j = choose|j: int|
        0 <= j < map.descriptors@.len() && descriptor_offers(
            #[trigger] map.descriptors@[j],
            address,
        );
    assert(map.descriptors@[j].kind == MemoryType::Available);
}

/// The number of frames that lie whole between the bounds of `map`.
pub open spec fn spanned_frames(map: MemoryMap) -> int {
    let first = (map.first_addr + PAGE_SIZE - 1) / (PAGE_SIZE as int);
    let end = map.last_addr / PAGE_SIZE;
    if end > first {
        end - first
    } else {
        0
    }
}

/// Bit `k` of `word` is set.
pub closed spec fn word_bit(word: u64, k: u64) -> bool {
    (word >> k) & 1 == 1
}

/// Bit `i` of the bitmap is set.
pub closed spec fn is_marked(bitmap: Seq<u64>, i: int) -> bool {
    word_bit(bitmap[i / 64], (i % 64) as u64)
}

proof fn lemma_set_bit(word: u64, b: u64, k: u64)
    requires
        b < 64,
        k < 64,
    ensures
        word_bit(word | (1u64 << b), k) == (k == b || word_bit(word, k)),
{
    assert((((word | (1u64 << b)) >> k) & 1 == 1) == (k == b || (word >> k) & 1 == 1))
        by (bit_vector)
        requires
            b < 64,
            k < 64,
    ;
}

proof fn lemma_clear_bit(word: u64, b: u64, k: u64)
    requires
        b < 64,
        k < 64,
    ensures
        word_bit(word & !(1u64 << b), k) == (k != b && word_bit(word, k)),
{
    assert((((word & !(1u64 << b)) >> k) & 1 == 1) == (k != b && (word >> k) & 1 == 1))
        by (bit_vector)
        requires
            b < 64,
            k < 64,
    ;
}

proof fn lemma_zero_word(k: u64)
    requires
        k < 64,
    ensures
        !word_bit(0, k),
{
    assert((0u64 >> k) & 1 != 1) by (bit_vector)
        requires
            k < 64,
    ;
}

/// Whether bit `i` of `bitmap` is set.
fn marked(bitmap: &Vec<u64>, i: usize) -> (set: bool)
    requires
        i / 64 < bitmap.len(),
    ensures
        set == is_marked(bitmap@, i as int),
{
    let word: u64 = bitmap[i / 64];
    let bit: u64 = (i % 64) as u64;
    (word >> bit) & 1 == 1
}

/// Sets bit `i` of `bitmap`.
fn mark(bitmap: &mut Vec<u64>, i: usize)
    requires
        i / 64 < old(bitmap).len(),
    ensures
        final(bitmap).len() == old(bitmap).len(),
        forall|j: int|
            0 <= j < old(bitmap).len() * 64 ==> is_marked(final(bitmap)@, j) == (j == i
                || is_marked(old(bitmap)@, j)),
{
    let word: u64 = bitmap[i / 64];
    let bit: u64 = (i % 64) as u64;
    bitmap[i / 64] = word | (1u64 << bit);
    proof {
        assert forall|j: int| 0 <= j < old(bitmap).len() * 64 implies is_marked(bitmap@, j) == (j
            == i || is_marked(old(bitmap)@, j)) by {
            if j / 64 == i / 64 {
                lemma_set_bit(word, bit, (j % 64) as u64);
            }
        }
    }
}

/// Clears bit `i` of `bitmap`.
fn unmark(bitmap: &mut Vec<u64>, i: usize)
    requires
        i / 64 < old(bitmap).len(),
    ensures
        final(bitmap).len() == old(bitmap).len(),
        forall|j: int|
            0 <= j < old(bitmap).len() * 64 ==> is_marked(final(bitmap)@, j) == (j != i
                && is_marked(old(bitmap)@, j)),
{
    let word: u64 = bitmap[i / 64];
    let bit: u64 = (i % 64) as u64;
    bitmap[i / 64] = word & !(1u64 << bit);
    proof {
        assert forall|j: int| 0 <= j < old(bitmap).len() * 64 implies is_marked(bitmap@, j) == (j
            != i && is_marked(old(bitmap)@, j)) by {
            if j / 64 == i / 64 {
                lemma_clear_bit(word, bit, (j % 64) as u64);
            }
        }
    }
}

/// Hands out the frames of the available regions of a memory map, the lowest
/// one first, each once.
pub struct BitMapAllocator {
    /// Number of the frame that bit 0 stands for.
    base: u64,
    /// Number of frames that the bitmap covers.
    count: usize,
    /// Bit `i` is set while the frame with the number `base + i` is free.
    bitmap: Vec<u64>,
    /// No frame below this bit is free.
    cursor: usize,
}

impl BitMapAllocator {
    /// The address of the frame that bit `i` stands for.
    spec fn frame_address(&self, i: int) -> int {
        (self.base + i) * PAGE_SIZE
    }

    /// What holds of the allocator between calls.
    pub closed spec fn well_formed(&self) -> bool {
        &&& self.count < self.bitmap@.len() * 64
        &&& self.base + self.count <= 0x10_0000_0000_0000
        &&& self.cursor <= self.count
        &&& forall|i: int| 0 <= i < self.cursor ==> !is_marked(self.bitmap@, i)
    }

    /// The frames that are free.
    pub closed spec fn free_frames(&self) -> Set<PhysicalAddress> {
        Set::new(
            |address: PhysicalAddress|
                {
                    &&& is_page_aligned(address)
                    &&& self.base <= address / PAGE_SIZE
                    &&& address / PAGE_SIZE - self.base < self.count
                    &&& is_marked(self.bitmap@, address / PAGE_SIZE - self.base)
                },
        )
    }

    /// There are finitely many free frames.
    pub proof fn lemma_free_frames_finite(&self)
        requires
            self.well_formed(),
        ensures
            self.free_frames().finite(),
    {
        let base = self.base;
        let to_address = |i: int| ((base + i) * PAGE_SIZE) as u64;
        let range = vstd::set_lib::set_int_range(0, self.count as int);
        vstd::set_lib::lemma_int_range(0, self.count as int);
        range.lemma_map_finite(to_address);
        let all = range.map(to_address);
        assert forall|address: PhysicalAddress|
            self.free_frames().contains(address) implies all.contains(address) by {
            let i = address / PAGE_SIZE - base;
            assert(range.contains(i));
            assert(to_address(i) == address);
        }
        assert(self.free_frames().subset_of(all));
        vstd::set_lib::lemma_len_subset(self.free_frames(), all);
    }

    /// An allocator for the frames that lie between the bounds of
    /// `memory_map` and in one of its available regions.
    ///
    /// Fails with `OutOfMemory` exactly if there are more frames between the
    /// bounds than a bitmap can have bits, and otherwise with
    /// `MemoryMapEmpty` exactly if no frame is available.
    pub fn try_new(memory_map: &MemoryMap) -> (allocator: Result<
        BitMapAllocator,
        PageFrameAllocatorError,
    >)
        ensures
            match allocator {
                Ok(allocator) => {
                    &&& spanned_frames(*memory_map) < usize::MAX
                    &&& !available_frames(*memory_map).is_empty()
                    &&& allocator.well_formed()
                    &&& allocator.free_frames() == available_frames(*memory_map)
                },
                Err(PageFrameAllocatorError::OutOfMemory) => spanned_frames(*memory_map)
                    >= usize::MAX,
                Err(PageFrameAllocatorError::MemoryMapEmpty) => spanned_frames(*memory_map)
                    < usize::MAX && available_frames(*memory_map).is_empty(),
            },
    {
        let base: u64 = page_count(memory_map.first_addr);
        let end: u64 = memory_map.last_addr / PAGE_SIZE;
        let span: u64 = if end > base {
            end - base
        } else {
            0
        };
        if span >= usize::MAX as u64 {
            return Err(PageFrameAllocatorError::OutOfMemory);
        }
        let count: usize = span as usize;
        let mut bitmap: Vec<u64> = vec![0u64; count / 64 + 1];
        let mut lowest: usize = count;
        proof {
            assert forall|i: int| 0 <= i < count implies !is_marked(bitmap@, i) by {
                lemma_zero_word((i % 64) as u64);
            }
        }
        let mut j: usize = 0;
        while j < memory_map.descriptors.len()
            invariant
                j <= memory_map.descriptors.len(),
                base == (memory_map.first_addr + PAGE_SIZE - 1) / (PAGE_SIZE as int),
                end == memory_map.last_addr / PAGE_SIZE,
                count == spanned_frames(*memory_map),
                count < usize::MAX,
                bitmap@.len() == count / 64 + 1,
                lowest <= count,
                lowest < count ==> is_marked(bitmap@, lowest as int),
                forall|i: int| 0 <= i < lowest ==> !is_marked(bitmap@, i),
                forall|i: int|
                    0 <= i < count ==> (is_marked(bitmap@, i) <==> exists|k: int|
                        0 <= k < j && descriptor_offers(
                            #[trigger] memory_map.descriptors@[k],
                            ((base + i) * PAGE_SIZE) as u64,
                        )),
            decreases memory_map.descriptors.len() - j,
        {
            let descriptor = memory_map.descriptors[j];
            let ghost before = bitmap@;
            if descriptor.kind == MemoryType::Available {
                let from: u64 = page_count(descriptor.phys_start);
                let to: u64 = descriptor.phys_end / PAGE_SIZE;
                let low: u64 = if from > base {
                    from
                } else {
                    base
                };
                let high: u64 = if to < end {
                    to
                } else {
                    end
                };
                let mut frame: u64 = low;
                while frame < high
                    invariant
                        base <= low <= frame,
                        low >= from,
                        high <= to,
                        high <= end,
                        frame <= high || frame == low,
                        count == spanned_frames(*memory_map),
                        base == (memory_map.first_addr + PAGE_SIZE - 1) / (PAGE_SIZE as int),
                        end == memory_map.last_addr / PAGE_SIZE,
                        count < usize::MAX,
                        bitmap@.len() == count / 64 + 1,
                        lowest <= count,
                        lowest < count ==> is_marked(bitmap@, lowest as int),
                        forall|i: int| 0 <= i < lowest ==> !is_marked(bitmap@, i),
                        forall|i: int|
                            #![trigger is_marked(bitmap@, i)]
                            0 <= i < count ==> (is_marked(bitmap@, i) <==> (is_marked(before, i)
                                || (low <= base + i && base + i < frame))),
                    decreases high - frame,
                {
                    assert(frame - base < count);
                    let bit: usize = (frame - base) as usize;
                    let ghost previous = bitmap@;
                    mark(&mut bitmap, bit);
                    assert forall|i: int| 0 <= i < count implies (is_marked(bitmap@, i)
                        <==> is_marked(before, i) || low <= base + i < frame + 1) by {
                        assert(is_marked(bitmap@, i) == (i == bit || is_marked(previous, i)));
                    }
                    if bit < lowest {
                        lowest = bit;
                    }
                    frame += 1;
                }
                proof {
                    assert forall|i: int| 0 <= i < count implies (is_marked(bitmap@, i)
                        <==> exists|k: int|
                        0 <= k < j + 1 && descriptor_offers(
                            #[trigger] memory_map.descriptors@[k],
                            ((base + i) * PAGE_SIZE) as u64,
                        )) by {
                        let address = ((base + i) * PAGE_SIZE) as u64;
                        assert(descriptor_offers(descriptor, address) <==> low <= base + i < high);
                        if is_marked(bitmap@, i) {
                            if is_marked(before, i) {
                                let k = choose|k: int|
                                    0 <= k < j && descriptor_offers(
                                        #[trigger] memory_map.descriptors@[k],
                                        address,
                                    );
                                assert(descriptor_offers(memory_map.descriptors@[k], address));
                            } else {
                                assert(descriptor_offers(
                                    memory_map.descriptors@[j as int],
                                    address,
                                ));
                            }
                        }
                    }
                }
            } else {
                proof {
                    assert forall|i: int| 0 <= i < count implies (is_marked(bitmap@, i)
                        <==> exists|k: int|
                        0 <= k < j + 1 && descriptor_offers(
                            #[trigger] memory_map.descriptors@[k],
                            ((base + i) * PAGE_SIZE) as u64,
                        )) by {
                        let address = ((base + i) * PAGE_SIZE) as u64;
                        if is_marked(bitmap@, i) {
                            let k = choose|k: int|
                                0 <= k < j && descriptor_offers(
                                    #[trigger] memory_map.descriptors@[k],
                                    address,
                                );
                            assert(descriptor_offers(memory_map.descriptors@[k], address));
                        }
                    }
                }
            }
            j += 1;
        }
        let allocator = BitMapAllocator { base, count, bitmap, cursor: lowest };
        proof {
            assert forall|address: PhysicalAddress|
                allocator.free_frames().contains(address) <==> frame_is_available(
                    *memory_map,
                    address,
                ) by {
                if is_page_aligned(address) {
                    let i = address / PAGE_SIZE - base;
                    assert(address == (address / PAGE_SIZE) * PAGE_SIZE);
                    if 0 <= i < count {
                        assert(((base + i) * PAGE_SIZE) as u64 == address);
                    }
                }
            }
            assert(allocator.free_frames() =~= available_frames(*memory_map));
            if lowest < count {
                let address = ((base + lowest) * PAGE_SIZE) as u64;
                assert(address / PAGE_SIZE == base + lowest);
                assert(allocator.free_frames().contains(address));
            } else {
                assert forall|address: PhysicalAddress|
                    !allocator.free_frames().contains(address) by {}
            }
        }
        if lowest >= count {
            return Err(PageFrameAllocatorError::MemoryMapEmpty);
        }
        Ok(allocator)
    }

    /// Hands out the lowest free frame. Fails with `OutOfMemory` exactly if
    /// no frame is free.
    pub fn request_page(&mut self) -> (frame: Result<PhysicalAddress, PageFrameAllocatorError>)
        requires
            old(self).well_formed(),
        ensures
            final(self).well_formed(),
            frame is Err <==> old(self).free_frames().is_empty(),
            match frame {
                Ok(address) => {
                    &&& old(self).free_frames().contains(address)
                    &&& is_page_aligned(address)
                    &&& forall|other: PhysicalAddress|
                        old(self).free_frames().contains(other) ==> address <= other
                    &&& final(self).free_frames() == old(self).free_frames().remove(address)
                },
                Err(error) => {
                    &&& error == PageFrameAllocatorError::OutOfMemory
                    &&& final(self).free_frames() == old(self).free_frames()
                },
            },
    {
        let ghost before = self.free_frames();
        while self.cursor < self.count && !marked(&self.bitmap, self.cursor)
            invariant
                self.well_formed(),
                self.free_frames() == before,
                self.bitmap@ == old(self).bitmap@,
                self.base == old(self).base,
                self.count == old(self).count,
            decreases self.count - self.cursor,
        {
            self.cursor += 1;
        }
        if self.cursor >= self.count {
            proof {
                assert forall|address: PhysicalAddress| !before.contains(address) by {}
                assert(before =~= Set::empty());
            }
            return Err(PageFrameAllocatorError::OutOfMemory);
        }
        let bit: usize = self.cursor;
        let address: u64 = (self.base + bit as u64) * PAGE_SIZE;
        unmark(&mut self.bitmap, bit);
        self.cursor = bit + 1;
        proof {
            assert(address / PAGE_SIZE == self.base + bit);
            assert(before.contains(address));
            assert forall|other: PhysicalAddress| before.contains(other) implies address
                <= other by {
                let i = other / PAGE_SIZE - self.base;
                assert(i >= bit);
            }
            assert forall|other: PhysicalAddress|
                self.free_frames().contains(other) <==> before.remove(address).contains(other) by {
                if is_page_aligned(other) && other / PAGE_SIZE - self.base == bit {
                    assert(other == (other / PAGE_SIZE) * PAGE_SIZE);
                }
            }
            assert(self.free_frames() =~= before.remove(address));
        }
        Ok(address)
    }

    /// Hands out the `n` lowest free frames, the lowest first. Fails with
    /// `OutOfMemory` exactly if fewer than `n` frames are free; the frames
    /// that were free are then all used up.
    pub fn request_pages(&mut self, n: usize) -> (frames: Result<
        Vec<PhysicalAddress>,
        PageFrameAllocatorError,
    >)
        requires
            old(self).well_formed(),
        ensures
            final(self).well_formed(),
            frames is Err <==> n > old(self).free_frames().len(),
            final(self).free_frames().subset_of(old(self).free_frames()),
            match frames {
                Ok(frames) => {
                    &&& frames@.len() == n
                    &&& forall|i: int|
                        0 <= i < n ==> old(self).free_frames().contains(#[trigger] frames@[i])
                    &&& forall|i: int, j: int| 0 <= i < j < n ==> frames@[i] < frames@[j]
                    &&& forall|i: int, other: PhysicalAddress|
                        0 <= i < n && #[trigger] final(self).free_frames().contains(other)
                            ==> #[trigger] frames@[i] < other
                    &&& forall|frame: PhysicalAddress|
                        final(self).free_frames().contains(frame) <==> !frames@.contains(frame)
                            && old(self).free_frames().contains(frame)
                    &&& final(self).free_frames().len() == old(self).free_frames().len() - n
                },
                Err(error) => {
                    &&& error == PageFrameAllocatorError::OutOfMemory
                    &&& final(self).free_frames().is_empty()
                },
            },
    {
        let mut frames: Vec<PhysicalAddress> = Vec::new();
        proof {
            self.lemma_free_frames_finite();
        }
        while frames.len() < n
            invariant
                self.well_formed(),
                self.free_frames().finite(),
                frames@.len() <= n,
                self.free_frames().subset_of(old(self).free_frames()),
                self.free_frames().len() == old(self).free_frames().len() - frames@.len(),
                forall|i: int|
                    0 <= i < frames@.len() ==> old(self).free_frames().contains(
                        #[trigger] frames@[i],
                    ),
                forall|frame: PhysicalAddress|
                    self.free_frames().contains(frame) <==> old(self).free_frames().contains(frame)
                        && !frames@.contains(frame),
                forall|i: int, j: int| 0 <= i < j < frames@.len() ==> frames@[i] < frames@[j],
                forall|i: int, other: PhysicalAddress|
                    0 <= i < frames@.len() && #[trigger] self.free_frames().contains(other)
                        ==> #[trigger] frames@[i] < other,
            decreases n - frames@.len(),
        {
            let ghost handed = frames@;
            match self.request_page() {
                Ok(frame) => {
                    proof {
                        self.lemma_free_frames_finite();
                    }
                    frames.push(frame);
                    proof {
                        assert forall|other: PhysicalAddress|
                            self.free_frames().contains(other) <==> !frames@.contains(other)
                                && old(self).free_frames().contains(other) by {
                            if handed.contains(other) {
                                let k = choose|k: int| 0 <= k < handed.len() && handed[k] == other;
                                assert(frames@[k] == other);
                            }
                            if frames@.contains(other) && other != frame {
                                let k = choose|k: int|
                                    0 <= k < frames@.len() && frames@[k] == other;
                                assert(handed[k] == other);
                            }
                            assert(frames@[handed.len() as int] == frame);
                        }
                    }
                },
                Err(error) => {
                    return Err(error);
                },
            }
        }
        Ok(frames)
    }
}

impl PageFrameAllocator for BitMapAllocator {
    open spec fn inv(&self) -> bool {
        self.well_formed()
    }

    open spec fn available(&self) -> Set<PhysicalAddress> {
        self.free_frames()
    }

    proof fn lemma_available_finite(&self) {
        self.lemma_free_frames_finite();
    }

    fn request_page(&mut self) -> (frame: Result<PhysicalAddress, PageFrameAllocatorError>) {
        BitMapAllocator::request_page(self)
    }
}

/// Hands out frames that were set aside beforehand, for example by
/// firmware, in the order in which they are listed.
pub struct FramePool {
    frames: Vec<PhysicalAddress>,
    /// The frames before this place have been handed out.
    next: usize,
}

/// Every frame of `frames` starts on a page boundary, and none is listed
/// twice.
pub open spec fn is_frame_list(frames: Seq<PhysicalAddress>) -> bool {
    &&& forall|i: int| 0 <= i < frames.len() ==> is_page_aligned(#[trigger] frames[i])
    &&& forall|i: int, j: int| 0 <= i < j < frames.len() ==> frames[i] != frames[j]
}

impl FramePool {
    /// What holds of the pool between calls.
    pub closed spec fn well_formed(&self) -> bool {
        self.next <= self.frames@.len() && is_frame_list(self.frames@)
    }

    /// The frames that are left, in the order in which they are handed out.
    pub closed spec fn remaining(&self) -> Seq<PhysicalAddress> {
        self.frames@.skip(self.next as int)
    }

    /// A pool of the frames `frames`. There is none where a frame does not
    /// start on a page boundary or is listed twice.
    pub fn new(frames: Vec<PhysicalAddress>) -> (pool: Option<FramePool>)
        ensures
            pool is Some <==> is_frame_list(frames@),
            match pool {
                Some(pool) => pool.well_formed() && pool.remaining() == frames@,
                None => true,
            },
    {
        let mut i: usize = 0;
        while i < frames.len()
            invariant
                i <= frames.len(),
                forall|k: int| 0 <= k < i ==> is_page_aligned(#[trigger] frames@[k]),
                forall|k: int, j: int| 0 <= k < j < i ==> frames@[k] != frames@[j],
            decreases frames.len() - i,
        {
            if frames[i] % PAGE_SIZE != 0 {
                return None;
            }
            let mut k: usize = 0;
            while k < i
                invariant
                    k <= i < frames.len(),
                    forall|j: int| 0 <= j < k ==> frames@[j] != frames@[i as int],
                decreases i - k,
            {
                if frames[k] == frames[i] {
                    return None;
                }
                k += 1;
            }
            i += 1;
        }
        let pool = FramePool { frames, next: 0 };
        assert(pool.remaining() =~= frames@);
        Some(pool)
    }

    /// Hands out the next frame of the list. Fails with `OutOfMemory`
    /// exactly if none is left.
    pub fn request_page(&mut self) -> (frame: Result<PhysicalAddress, PageFrameAllocatorError>)
        requires
            old(self).well_formed(),
        ensures
            final(self).well_formed(),
            match frame {
                Ok(address) => {
                    &&& old(self).remaining().len() > 0
                    &&& address == old(self).remaining()[0]
                    &&& is_page_aligned(address)
                    &&& final(self).remaining() == old(self).remaining().drop_first()
                    &&& final(self).remaining().to_set() == old(self).remaining().to_set().remove(
                        address,
                    )
                },
                Err(error) => {
                    &&& error == PageFrameAllocatorError::OutOfMemory
                    &&& old(self).remaining().len() == 0
                    &&& final(self).remaining() == old(self).remaining()
                },
            },
    {
        if self.next >= self.frames.len() {
            return Err(PageFrameAllocatorError::OutOfMemory);
        }
        let address = self.frames[self.next];
        self.next += 1;
        proof {
            let before = old(self).remaining();
            let after = self.remaining();
            assert(after =~= before.drop_first());
            assert forall|other: PhysicalAddress|
                after.to_set().contains(other) <==> before.to_set().remove(address).contains(
                    other,
                ) by {
                if after.contains(other) {
                    let k = choose|k: int| 0 <= k < after.len() && after[k] == other;
                    assert(before[k + 1] == other);
                    assert(self.frames@[old(self).next + k + 1] == other);
                }
                if before.contains(other) && other != address {
                    let k = choose|k: int| 0 <= k < before.len() && before[k] == other;
                    assert(after[k - 1] == other);
                }
            }
            assert(after.to_set() =~= before.to_set().remove(address));
        }
        Ok(address)
    }
}

impl PageFrameAllocator for FramePool {
    open spec fn inv(&self) -> bool {
        self.well_formed()
    }

    open spec fn available(&self) -> Set<PhysicalAddress> {
        self.remaining().to_set()
    }

    proof fn lemma_available_finite(&self) {
        vstd::seq_lib::seq_to_set_is_finite(self.remaining());
    }

    fn request_page(&mut self) -> (frame: Result<PhysicalAddress, PageFrameAllocatorError>) {
        let frame = FramePool::request_page(self);
        proof {
            if frame is Ok {
                assert(old(self).remaining().to_set().contains(old(self).remaining()[0]));
            } else {
                assert(old(self).remaining().to_set() =~= Set::empty());
            }
        }
        frame
    }
}

} // verus!
