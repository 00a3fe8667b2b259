//! Loading of the kernel: where the segments of a 64-bit executable go in
//! physical memory and what each of them holds there.
use vstd::prelude::*;
use vstd::slice::{slice_subrange, slice_to_vec};

use crate::memory::{page_count, pages_for, PhysicalAddress, VirtualAddress};

verus! {

/// The type of a segment that is copied into memory.
pub const PT_LOAD: u32 = 1;

/// Why an executable could not be loaded.
#[derive(Clone, Copy, Debug, PartialEq, Eq, Structural)]
pub enum LoadError {
    /// The file is no 64-bit executable, has no loadable segment, or has a
    /// loadable segment that does not fit its file or the address space.
    FormatError,
    /// The frames at the address that the executable is built for could not
    /// be reserved.
    AllocationFailure,
}

/// What the loader reads of one entry of the program header table.
#[derive(Clone, Copy, Debug, PartialEq, Eq, Structural)]
pub struct ProgramHeader {
    pub p_type: u32,
    pub p_offset: u64,
    pub p_paddr: u64,
    pub p_filesz: u64,
    pub p_memsz: u64,
}

/// What the loader reads of a parsed executable.
#[derive(Debug)]
pub struct ElfHeaders {
    pub is_64: bool,
    pub entry: VirtualAddress,
    pub program_headers: Vec<ProgramHeader>,
}

/// The bytes of one loadable segment and the physical address that they
/// are to be copied to.
#[derive(Debug)]
pub struct LoadedSegment {
    pub address: PhysicalAddress,
    pub bytes: Vec<u8>,
}

/// An executable laid out for physical memory.
#[derive(Debug)]
pub struct KernelImage {
    /// Virtual address at which execution starts.
    pub entry: VirtualAddress,
    /// Lowest physical address of a loadable segment.
    pub load_address: PhysicalAddress,
    /// Number of pages from `load_address` on that hold all segments.
    pub page_count: u64,
    /// The loadable segments in the order of the program header table.
    pub segments: Vec<LoadedSegment>,
}

/// What `goblin` makes of the bytes of a file: whether they are a 64-bit
/// executable, the entry address and the program headers; `None` where it
/// refuses the bytes. On a machine with addresses of less than 64 bits the
/// entry address is cut to that width.
pub uninterp spec fn elf_parse(bytes: Seq<u8>) -> Option<(bool, u64, Seq<ProgramHeader>)>;

/// Parses `data` with `goblin::elf::Elf::parse` and keeps of the result what
/// the loader reads: `is_64`, `entry`, and of each program header the type,
/// the offset in the file, the physical address and the two sizes. The
/// contract only gives the result its name, [`elf_parse`].
#[verifier::external_body]
fn parse_headers(data: &[u8]) -> (parsed: Option<ElfHeaders>)
    ensures
        match parsed {
            Some(headers) => elf_parse(data@) == Some(
                (headers.is_64, headers.entry, headers.program_headers@),
            ),
            None => elf_parse(data@) is None,
        },
{
    let elf = match goblin::elf::Elf::parse(data) {
        Ok(elf) => elf,
        Err(_) => return None,
    };
    let headers = elf.program_headers.iter();
    let program_headers = headers.map(
        |h| ProgramHeader::new(h.p_type, h.p_offset, h.p_paddr, h.p_filesz, h.p_memsz),
    ).collect();
    Some(ElfHeaders { is_64: elf.is_64, entry: elf.entry, program_headers })
}

impl ProgramHeader {
    /// The header with the given fields.
    pub fn new(p_type: u32, p_offset: u64, p_paddr: u64, p_filesz: u64, p_memsz: u64) -> (header:
        ProgramHeader)
        ensures
            header == (ProgramHeader { p_type, p_offset, p_paddr, p_filesz, p_memsz }),
    {
        ProgramHeader { p_type, p_offset, p_paddr, p_filesz, p_memsz }
    }

    /// The segment is copied into memory.
    pub open spec fn is_loadable(self) -> bool {
        self.p_type == PT_LOAD
    }

    /// The first address behind the segment in memory.
    pub open spec fn end(self) -> int {
        self.p_paddr + self.p_memsz
    }

    /// The segment's bytes lie within a file of `file_size` bytes, are not
    /// more than the segment has in memory, and the segment ends within the
    /// address space and is no larger than a vector can be.
    pub open spec fn fits(self, file_size: int) -> bool {
        &&& self.p_filesz <= self.p_memsz
        &&& self.p_offset + self.p_filesz <= file_size
        &&& self.end() <= u64::MAX
        &&& self.p_memsz <= usize::MAX
    }

    /// What the segment holds in memory: the first `p_filesz` bytes are the
    /// bytes of the file from `p_offset` on, and the rest, up to `p_memsz`
    /// bytes, is zero.
    pub open spec fn contents(self, file: Seq<u8>) -> Seq<u8> {
        file.subrange(self.p_offset as int, self.p_offset + self.p_filesz) + Seq::new(
            (self.p_memsz - self.p_filesz) as nat,
            |i: int| 0u8,
        )
    }
}

/// The lowest physical address of a loadable segment; `u64::MAX` where
/// there is none.
pub open spec fn image_start(headers: Seq<ProgramHeader>) -> int
    decreases headers.len(),
{
    if headers.len() == 0 {
        u64::MAX as int
    } else {
        let rest = image_start(headers.drop_last());
        if headers.last().is_loadable() && headers.last().p_paddr < rest {
            headers.last().p_paddr as int
        } else {
            rest
        }
    }
}

/// The highest end of a loadable segment; zero where there is none.
pub open spec fn image_end(headers: Seq<ProgramHeader>) -> int
    decreases headers.len(),
{
    if headers.len() == 0 {
        0
    } else {
        let rest = image_end(headers.drop_last());
        if headers.last().is_loadable() && headers.last().end() > rest {
            headers.last().end()
        } else {
            rest
        }
    }
}

/// The loadable segments of `headers` in their order, each with its address
/// and what it holds in memory.
pub open spec fn image_segments(file: Seq<u8>, headers: Seq<ProgramHeader>) -> Seq<
    (PhysicalAddress, Seq<u8>),
>
    decreases headers.len(),
{
    if headers.len() == 0 {
        Seq::empty()
    } else {
        let rest = image_segments(file, headers.drop_last());
        if headers.last().is_loadable() {
            rest.push((headers.last().p_paddr, headers.last().contents(file)))
        } else {
            rest
        }
    }
}

/// The headers describe an executable that can be loaded from a file of
/// `file_size` bytes: it is a 64-bit executable with at least one loadable
/// segment, and every loadable segment fits.
pub open spec fn is_loadable_image(
    is_64: bool,
    headers: Seq<ProgramHeader>,
    file_size: int,
) -> bool {
    &&& is_64
    &&& exists|i: int| 0 <= i < headers.len() && (#[trigger] headers[i]).is_loadable()
    &&& forall|i: int|
        0 <= i < headers.len() && (#[trigger] headers[i]).is_loadable() ==> headers[i].fits(
            file_size,
        )
}

/// `result` is what loading gives for the file `file` with the parsed
/// headers: a format error unless the headers describe a loadable image, and
/// else the image with its entry address, its place and size in memory and
/// the contents of its segments.
pub open spec fn is_load_result(
    file: Seq<u8>,
    is_64: bool,
    entry: VirtualAddress,
    headers: Seq<ProgramHeader>,
    result: Result<KernelImage, LoadError>,
) -> bool {
    match result {
        Ok(image) => {
            &&& is_loadable_image(is_64, headers, file.len() as int)
            &&& image.entry == entry
            &&& image.load_address == image_start(headers)
            &&& image.page_count == pages_for(image_end(headers) - image_start(headers))
            &&& image.segments@.len() == image_segments(file, headers).len()
            &&& forall|i: int|
                0 <= i < image.segments@.len() ==> (#[trigger] image.segments@[i]).address
                    == image_segments(file, headers)[i].0 && image.segments@[i].bytes@
                    == image_segments(file, headers)[i].1
        },
        Err(error) => error == LoadError::FormatError && !is_loadable_image(
            is_64,
            headers,
            file.len() as int,
        ),
    }
}

/// The start of an image is the address of a loadable segment and no
/// higher than any of them; its end is the end of one and no lower than
/// any.
pub proof fn lemma_image_bounds(headers: Seq<ProgramHeader>)
    ensures
        forall|i: int|
            0 <= i < headers.len() && (#[trigger] headers[i]).is_loadable() ==> image_start(headers)
                <= headers[i].p_paddr && headers[i].end() <= image_end(headers),
        (exists|i: int| 0 <= i < headers.len() && (#[trigger] headers[i]).is_loadable())
            ==> (exists|i: int|
            0 <= i < headers.len() && (#[trigger] headers[i]).is_loadable() && headers[i].p_paddr
                == image_start(headers)) && (exists|i: int|
            0 <= i < headers.len() && (#[trigger] headers[i]).is_loadable() && headers[i].end()
                == image_end(headers)),
        0 <= image_start(headers) <= u64::MAX,
        0 <= image_end(headers),
    decreases headers.len(),
{
    if headers.len() > 0 {
        let rest = headers.drop_last();
        let n = headers.len() - 1;
        lemma_image_bounds(rest);
        assert forall|i: int| 0 <= i < rest.len() implies rest[i] == headers[i] by {}
        assert forall|i: int|
            0 <= i < headers.len() && (#[trigger] headers[i]).is_loadable() implies image_start(
            headers,
        ) <= headers[i].p_paddr && headers[i].end() <= image_end(headers) by {
            if i < n {
                assert(rest[i].is_loadable());
            }
        }
        if exists|i: int| 0 <= i < headers.len() && (#[trigger] headers[i]).is_loadable() {
            if exists|i: int| 0 <= i < rest.len() && (#[trigger] rest[i]).is_loadable() {
                let a = choose|i: int|
                    0 <= i < rest.len() && (#[trigger] rest[i]).is_loadable() && rest[i].p_paddr
                        == image_start(rest);
                let b = choose|i: int|
                    0 <= i < rest.len() && (#[trigger] rest[i]).is_loadable() && rest[i].end()
                        == image_end(rest);
                assert(headers[a].is_loadable() && headers[b].is_loadable());
                assert(headers[n].is_loadable() || true);
                if headers[n].is_loadable() && headers[n].p_paddr < image_start(rest) {
                    assert(headers[n].p_paddr == image_start(headers));
                } else {
                    assert(headers[a].p_paddr == image_start(headers));
                }
                if headers[n].is_loadable() && headers[n].end() > image_end(rest) {
                    assert(headers[n].end() == image_end(headers));
                } else {
                    assert(headers[b].end() == image_end(headers));
                }
            } else {
                let k = choose|i: int|
                    0 <= i < headers.len() && (#[trigger] headers[i]).is_loadable();
                if k < n {
                    assert(rest[k].is_loadable());
                }
                assert(headers[n].is_loadable());
                lemma_no_loadable(rest);
                assert(headers[n].p_paddr == image_start(headers));
                assert(headers[n].end() == image_end(headers));
            }
        }
    }
}

proof fn lemma_no_loadable(headers: Seq<ProgramHeader>)
    requires
        forall|i: int| 0 <= i < headers.len() ==> !(#[trigger] headers[i]).is_loadable(),
    ensures
        image_start(headers) == u64::MAX,
        image_end(headers) == 0,
    decreases headers.len(),
{
    if headers.len() > 0 {
        let rest = headers.drop_last();
        assert forall|i: int| 0 <= i < rest.len() implies !(#[trigger] rest[i]).is_loadable() by {
            assert(rest[i] == headers[i]);
        }
        lemma_no_loadable(rest);
        assert(!headers[headers.len() - 1].is_loadable());
    }
}

/// What the segment `header` holds in memory.
pub fn segment_contents(data: &Vec<u8>, header: &ProgramHeader) -> (bytes: Vec<u8>)
    requires
        header.fits(data@.len() as int),
    ensures
        bytes@ == header.contents(data@),
        bytes@.len() == header.p_memsz,
        forall|i: int| 0 <= i < header.p_filesz ==> bytes@[i] == data@[header.p_offset + i],
        forall|i: int| header.p_filesz <= i < header.p_memsz ==> bytes@[i] == 0,
{
    let file_size: usize = data.len();
    let offset: usize = header.p_offset as usize;
    let size_in_file: usize = header.p_filesz as usize;
    let size_in_memory: usize = header.p_memsz as usize;
    let mut bytes: Vec<u8> = slice_to_vec(
        slice_subrange(data.as_slice(), offset, offset + size_in_file),
    );
    let ghost copied = bytes@;
    let mut i: usize = size_in_file;
    while i < size_in_memory
        invariant
            size_in_file <= i <= size_in_memory,
            bytes@ == copied + Seq::new((i - size_in_file) as nat, |k: int| 0u8),
        decreases size_in_memory - i,
    {
        bytes.push(0);
        i += 1;
        assert(bytes@ =~= copied + Seq::new((i - size_in_file) as nat, |k: int| 0u8));
    }
    bytes
}

/// Lays out the executable with the parsed headers `headers` whose file is
/// `data`.
///
/// Fails with `FormatError` exactly if the executable is not a 64-bit one,
/// has no loadable segment, or has a loadable segment that does not fit.
pub fn lay_out(data: &Vec<u8>, headers: &ElfHeaders) -> (result: Result<KernelImage, LoadError>)
    ensures
        is_load_result(data@, headers.is_64, headers.entry, headers.program_headers@, result),
{
    if !headers.is_64 {
        return Err(LoadError::FormatError);
    }
    let ghost all = headers.program_headers@;
    let mut dest_start: u64 = u64::MAX;
    let mut dest_end: u64 = 0;
    let mut found: bool = false;
    let mut segments: Vec<LoadedSegment> = Vec::new();
    let mut i: usize = 0;
    while i < headers.program_headers.len()
        invariant
            i <= headers.program_headers.len(),
            all == headers.program_headers@,
            dest_start == image_start(all.take(i as int)),
            dest_end == image_end(all.take(i as int)),
            found <==> exists|k: int| 0 <= k < i && (#[trigger] all[k]).is_loadable(),
            forall|k: int|
                0 <= k < i && (#[trigger] all[k]).is_loadable() ==> all[k].fits(data@.len() as int),
            segments@.len() == image_segments(data@, all.take(i as int)).len(),
            forall|k: int|
                0 <= k < segments@.len() ==> (#[trigger] segments@[k]).address == image_segments(
                    data@,
                    all.take(i as int),
                )[k].0 && segments@[k].bytes@ == image_segments(data@, all.take(i as int))[k].1,
        decreases headers.program_headers.len() - i,
    {
        let header = headers.program_headers[i];
        proof {
            assert(all.take(i + 1).drop_last() =~= all.take(i as int));
            assert(all.take(i + 1).last() == header);
        }
        if header.p_type == PT_LOAD {
            let end: u128 = header.p_paddr as u128 + header.p_memsz as u128;
            let file_end: u128 = header.p_offset as u128 + header.p_filesz as u128;
            if header.p_filesz > header.p_memsz || file_end > data.len() as u128 || end
                > u64::MAX as u128 || header.p_memsz > usize::MAX as u64 {
                proof {
                    assert(all[i as int].is_loadable() && !all[i as int].fits(data@.len() as int));
                }
                return Err(LoadError::FormatError);
            }
            found = true;
            if header.p_paddr < dest_start {
                dest_start = header.p_paddr;
            }
            if end as u64 > dest_end {
                dest_end = end as u64;
            }
            let bytes = segment_contents(data, &header);
            segments.push(LoadedSegment { address: header.p_paddr, bytes });
        }
        i += 1;
    }
    proof {
        assert(all.take(i as int) =~= all);
        lemma_image_bounds(all);
    }
    if !found {
        return Err(LoadError::FormatError);
    }
    Ok(
        KernelImage {
            entry: headers.entry,
            load_address: dest_start,
            page_count: page_count(dest_end - dest_start),
            segments,
        },
    )
}

/// Parses the executable `data` and lays it out for physical memory.
///
/// Fails with `FormatError` exactly if the parser refuses the file, or if
/// what it parsed is not a 64-bit executable, has no loadable segment, or
/// has a loadable segment that does not fit.
pub fn parse_elf(data: &Vec<u8>) -> (result: Result<KernelImage, LoadError>)
    ensures
        match elf_parse(data@) {
            Some((is_64, entry, headers)) => is_load_result(data@, is_64, entry, headers, result),
            None => result is Err && result->Err_0 == LoadError::FormatError,
        },
{
    match parse_headers(data.as_slice()) {
        Some(headers) => lay_out(data, &headers),
        None => Err(LoadError::FormatError),
    }
}

impl KernelImage {
    /// The result of loading once firmware has answered the request for
    /// `page_count` frames at `load_address`: the entry address, the address
    /// of the image and its number of pages if `reserved` is that address,
    /// and an allocation failure if firmware gave nothing or other frames.
    pub fn placed(&self, reserved: Option<PhysicalAddress>) -> (result: Result<
        (VirtualAddress, PhysicalAddress, u64),
        LoadError,
    >)
        ensures
            result == if reserved == Some(self.load_address) {
                Ok::<(VirtualAddress, PhysicalAddress, u64), LoadError>(
                    (self.entry, self.load_address, self.page_count),
                )
            } else {
                Err::<(VirtualAddress, PhysicalAddress, u64), LoadError>(
                    LoadError::AllocationFailure,
                )
            },
    {
        match reserved {
            Some(address) => if address == self.load_address {
                Ok((self.entry, self.load_address, self.page_count))
            } else {
                Err(LoadError::AllocationFailure)
            },
            None => Err(LoadError::AllocationFailure),
        }
    }
}

} // verus!
