//! What a memory image looks like as a stripped ELF file: one loadable
//! segment for each region, and what a file's segments say of the regions
//! that they load.

use vstd::prelude::*;
use crate::memory::{regions_wf, MemoryImage, MemoryRegion, Protection};

verus! {

/// The segment may be executed.
pub const PF_X: u32 = 1;

/// The segment may be written.
pub const PF_W: u32 = 2;

/// The segment may be read.
pub const PF_R: u32 = 4;

/// The segment is loaded.
pub const PT_LOAD: u32 = 1;

/// What segments are aligned to, in a file and in memory.
pub const SEGMENT_ALIGN: u64 = 0x1000;

/// The section may be executed.
pub const IMAGE_SCN_MEM_EXECUTE: u32 = 0x2000_0000;

/// The section may be read.
pub const IMAGE_SCN_MEM_READ: u32 = 0x4000_0000;

/// The section may be written.
pub const IMAGE_SCN_MEM_WRITE: u32 = 0x8000_0000;

/// The address that a position-independent executable is loaded at.
pub const DYNAMIC_BASE_ADDRESS: u32 = 0x40000;

/// A program header of an ELF file.
#[derive(Copy, Clone, Debug, PartialEq, Eq, Structural)]
pub struct ProgramHeader {
    pub p_type: u32,
    pub p_flags: u32,
    pub p_offset: u64,
    pub p_vaddr: u64,
    pub p_paddr: u64,
    pub p_filesz: u64,
    pub p_memsz: u64,
    pub p_align: u64,
}

/// The segment flags that stand for a protection.
pub open spec fn flags_of(protection: Protection) -> u32 {
    ((if protection.read { PF_R } else { 0u32 }) + (if protection.write { PF_W } else { 0u32 }) + (
    if protection.execute {
        PF_X
    } else {
        0u32
    })) as u32
}

impl Protection {
    /// The segment flags that stand for the protection.
    pub fn elf_flags(&self) -> (r: u32)
        ensures
            r == flags_of(*self),
    {
        let mut flags: u32 = 0;
        if self.read {
            flags = flags + PF_R;
        }
        if self.write {
            flags = flags + PF_W;
        }
        if self.execute {
            flags = flags + PF_X;
        }
        flags
    }

    /// The protection that the three lowest bits of segment flags stand for,
    /// if any of them is set.
    pub fn from_elf_flags(p_flags: u32) -> (r: Option<Protection>)
        ensures
            match r {
                Some(protection) => flags_of(protection) == p_flags % 8 && p_flags % 8 != 0,
                None => p_flags % 8 == 0,
            },
    {
        let flags = p_flags % 8;
        if flags == 0 {
            None
        } else {
            Some(Protection { read: flags >= 4, write: flags % 4 >= 2, execute: flags % 2 == 1 })
        }
    }

    /// The protection that the characteristics of a section of a PE file
    /// stand for, if they allow anything.
    pub fn from_coff_characteristics(characteristics: u32) -> (r: Option<Protection>)
        ensures
            match r {
                Some(protection) => {
                    &&& protection.read == (characteristics & IMAGE_SCN_MEM_READ != 0)
                    &&& protection.write == (characteristics & IMAGE_SCN_MEM_WRITE != 0)
                    &&& protection.execute == (characteristics & IMAGE_SCN_MEM_EXECUTE != 0)
                    &&& protection.read || protection.write || protection.execute
                },
                None => characteristics & IMAGE_SCN_MEM_READ == 0 && characteristics
                    & IMAGE_SCN_MEM_WRITE == 0 && characteristics & IMAGE_SCN_MEM_EXECUTE == 0,
            },
    {
        let read = characteristics & IMAGE_SCN_MEM_READ != 0;
        let write = characteristics & IMAGE_SCN_MEM_WRITE != 0;
        let execute = characteristics & IMAGE_SCN_MEM_EXECUTE != 0;
        if read || write || execute {
            Some(Protection { read, write, execute })
        } else {
            None
        }
    }
}

/// The address that an executable is loaded at.
pub fn get_base_address(is_dynamic: bool) -> (r: u32)
    ensures
        r == (if is_dynamic { DYNAMIC_BASE_ADDRESS } else { 0u32 }),
{
    if is_dynamic {
        DYNAMIC_BASE_ADDRESS
    } else {
        0
    }
}

/// The bytes of a segment in memory: those that the file holds for it, and
/// zeros after them up to the segment's size in memory.
pub fn pad_segment(data: Vec<u8>, size: u64) -> (r: Vec<u8>)
    requires
        size <= usize::MAX,
    ensures
        r@.len() == (if data@.len() >= size { data@.len() as int } else { size as int }),
        r@.subrange(0, data@.len() as int) =~= data@,
        forall|i: int| data@.len() <= i < r@.len() ==> r@[i] == 0,
{
    let mut data = data;
    let ghost held = data@;
    while (data.len() as u64) < size
        invariant
            size <= usize::MAX,
            held.len() <= data@.len(),
            data@.len() <= (if held.len() >= size { held.len() as int } else { size as int }),
            data@.subrange(0, held.len() as int) =~= held,
            forall|i: int| held.len() <= i < data@.len() ==> data@[i] == 0,
        decreases size - data@.len(),
    {
        data.push(0);
    }
    data
}

impl MemoryRegion {
    /// The program header of the loadable segment that holds the region,
    /// where the bytes of the segment stand at `offset` in the file.
    pub fn program_header(&self, offset: u64) -> (r: ProgramHeader)
        ensures
            r == (ProgramHeader {
                p_type: PT_LOAD,
                p_flags: flags_of(self.protection),
                p_offset: offset,
                p_vaddr: self.addr as u64,
                p_paddr: self.addr as u64,
                p_filesz: self.data@.len() as u64,
                p_memsz: self.data@.len() as u64,
                p_align: SEGMENT_ALIGN,
            }),
    {
        ProgramHeader {
            p_type: PT_LOAD,
            p_flags: self.protection.elf_flags(),
            p_offset: offset,
            p_vaddr: self.addr as u64,
            p_paddr: self.addr as u64,
            p_filesz: self.data.len() as u64,
            p_memsz: self.data.len() as u64,
            p_align: SEGMENT_ALIGN,
        }
    }
}

/// The size of the header of a 32-bit ELF file.
pub const FILE_HEADER_SIZE: u64 = 52;

/// The size of a program header of a 32-bit ELF file.
pub const PROGRAM_HEADER_SIZE: u64 = 32;

/// The number of program headers from which on a file needs section headers
/// to say how many it has.
pub const PN_XNUM: usize = 0xffff;

/// Why a memory image has no stripped ELF file.
#[derive(Copy, Clone, Debug, PartialEq, Eq, Structural)]
pub enum ElfError {
    /// The image has more regions than a file without section headers can
    /// have program headers.
    TooManyRegions,
    /// The file would be larger than a 32-bit file can be.
    TooLarge,
}

/// The two bytes of a 16-bit number, the low byte first.
pub open spec fn le16(v: u16) -> Seq<u8> {
    seq![(v % 256) as u8, (v / 256) as u8]
}

/// The four bytes of a 32-bit number, the lowest byte first.
pub open spec fn le32(v: u32) -> Seq<u8> {
    seq![(v % 256) as u8, (v / 256 % 256) as u8, (v / 65536 % 256) as u8, (v / 16777216) as u8]
}

/// The least multiple of 4096 that is not below `x`.
pub open spec fn align_up(x: int) -> int {
    (x + 4095) / 4096 * 4096
}

/// The header of the ELF file with `count` program headers: a 32-bit
/// little-endian executable for the 386, with no entry point and no section
/// headers.
pub open spec fn file_header_bytes(count: u16) -> Seq<u8> {
    seq![0x7fu8, 0x45u8, 0x4cu8, 0x46u8, 1u8, 1u8, 1u8, 0u8, 0u8, 0u8, 0u8, 0u8, 0u8, 0u8, 0u8, 0u8]
        + le16(2) + le16(3) + le32(1) + le32(0) + le32(if count == 0 { 0u32 } else { 52u32 }) + le32(0)
        + le32(0) + le16(52) + le16(if count == 0 { 0u16 } else { 32u16 }) + le16(count) + le16(0)
        + le16(0) + le16(0)
}

/// The bytes of a program header of a 32-bit file.
pub open spec fn program_header_bytes(h: ProgramHeader) -> Seq<u8> {
    le32(h.p_type) + le32(h.p_offset as u32) + le32(h.p_vaddr as u32) + le32(h.p_paddr as u32) + le32(
        h.p_filesz as u32,
    ) + le32(h.p_memsz as u32) + le32(h.p_flags) + le32(h.p_align as u32)
}

/// The program header of the segment that holds `region`, whose bytes stand
/// at `offset` in the file.
pub open spec fn header_of(region: MemoryRegion, offset: int) -> ProgramHeader {
    ProgramHeader {
        p_type: PT_LOAD,
        p_flags: flags_of(region.protection),
        p_offset: offset as u64,
        p_vaddr: region.addr as u64,
        p_paddr: region.addr as u64,
        p_filesz: region.data@.len() as u64,
        p_memsz: region.data@.len() as u64,
        p_align: SEGMENT_ALIGN,
    }
}

/// Where the first `upto` segments end in the file: each segment begins at
/// the next multiple of 4096 after what stands before it.
pub open spec fn segments_end(regions: Seq<MemoryRegion>, upto: int) -> int
    decreases upto, 0int,
{
    if upto <= 0 {
        52 + 32 * (regions.len() as int)
    } else {
        segment_offset(regions, upto - 1) + regions[upto - 1].data@.len()
    }
}

/// Where the bytes of segment `i` begin in the file.
pub open spec fn segment_offset(regions: Seq<MemoryRegion>, i: int) -> int
    decreases i, 1int,
{
    if i < 0 {
        0
    } else {
        align_up(segments_end(regions, i))
    }
}

/// The program headers of the first `upto` segments.
pub open spec fn program_headers(regions: Seq<MemoryRegion>, upto: int) -> Seq<u8>
    decreases upto,
{
    if upto <= 0 {
        Seq::empty()
    } else {
        program_headers(regions, upto - 1) + program_header_bytes(
            header_of(regions[upto - 1], segment_offset(regions, upto - 1)),
        )
    }
}

/// The file as far as the first `upto` segments: the headers, and each of
/// the segments after zeros up to the place where it begins.
pub open spec fn file_upto(regions: Seq<MemoryRegion>, upto: int) -> Seq<u8>
    decreases upto,
{
    if upto <= 0 {
        file_header_bytes(regions.len() as u16) + program_headers(regions, regions.len() as int)
    } else {
        let before = file_upto(regions, upto - 1);
        before + Seq::new(
            (segment_offset(regions, upto - 1) - before.len()) as nat,
            |k: int| 0u8,
        ) + regions[upto - 1].data@
    }
}

proof fn lemma_segments_grow(regions: Seq<MemoryRegion>, upto: int)
    requires
        0 <= upto <= regions.len(),
    ensures
        52 + 32 * regions.len() <= segments_end(regions, upto),
        upto > 0 ==> segments_end(regions, upto - 1) <= segment_offset(regions, upto - 1) <= segments_end(
            regions,
            upto,
        ),
        upto < regions.len() ==> segments_end(regions, upto) <= segments_end(regions, upto + 1),
    decreases upto,
{
    if upto > 0 {
        lemma_segments_grow(regions, upto - 1);
    }
}

proof fn lemma_segments_monotone(regions: Seq<MemoryRegion>, from: int, upto: int)
    requires
        0 <= from <= upto <= regions.len(),
    ensures
        segments_end(regions, from) <= segments_end(regions, upto),
    decreases upto - from,
{
    if from < upto {
        lemma_segments_grow(regions, from);
        lemma_segments_monotone(regions, from + 1, upto);
    }
}

proof fn lemma_file_len(regions: Seq<MemoryRegion>, upto: int)
    requires
        0 <= upto <= regions.len(),
    ensures
        file_upto(regions, upto).len() == segments_end(regions, upto),
    decreases upto,
{
    if upto <= 0 {
        lemma_headers_len(regions, regions.len() as int);
    } else {
        lemma_file_len(regions, upto - 1);
        lemma_segments_grow(regions, upto);
    }
}

proof fn lemma_headers_len(regions: Seq<MemoryRegion>, upto: int)
    requires
        0 <= upto,
    ensures
        program_headers(regions, upto).len() == 32 * upto,
    decreases upto,
{
    if upto > 0 {
        lemma_headers_len(regions, upto - 1);
    }
}

fn push_le16(out: &mut Vec<u8>, v: u16)
    ensures
        final(out)@ =~= old(out)@ + le16(v),
{
    out.push((v % 256) as u8);
    out.push((v / 256) as u8);
}

fn push_le32(out: &mut Vec<u8>, v: u32)
    ensures
        final(out)@ =~= old(out)@ + le32(v),
{
    out.push((v % 256) as u8);
    out.push((v / 256 % 256) as u8);
    out.push((v / 65536 % 256) as u8);
    out.push((v / 16777216) as u8);
}

fn push_program_header(out: &mut Vec<u8>, header: ProgramHeader)
    ensures
        final(out)@ =~= old(out)@ + program_header_bytes(header),
{
    let ghost start = out@;
    push_le32(out, header.p_type);
    push_le32(out, header.p_offset as u32);
    assert(out@ =~= start + (le32(header.p_type) + le32(header.p_offset as u32)));
    push_le32(out, header.p_vaddr as u32);
    push_le32(out, header.p_paddr as u32);
    assert(out@ =~= start + (le32(header.p_type) + le32(header.p_offset as u32) + le32(header.p_vaddr as u32)
        + le32(header.p_paddr as u32)));
    push_le32(out, header.p_filesz as u32);
    push_le32(out, header.p_memsz as u32);
    assert(out@ =~= start + (le32(header.p_type) + le32(header.p_offset as u32) + le32(header.p_vaddr as u32)
        + le32(header.p_paddr as u32) + le32(header.p_filesz as u32) + le32(header.p_memsz as u32)));
    push_le32(out, header.p_flags);
    push_le32(out, header.p_align as u32);
}

impl MemoryImage {
    /// Where the bytes of each region begin in the stripped ELF file of the
    /// image.
    fn segment_offsets(&self) -> (r: Option<Vec<u32>>)
        requires
            self.wf(),
            self@.len() < PN_XNUM,
        ensures
            match r {
                Some(offsets) => offsets@.len() == self@.len() && segments_end(self@, self@.len() as int)
                    <= u32::MAX && forall|i: int|
                    0 <= i < offsets@.len() ==> (#[trigger] offsets@[i]) == segment_offset(self@, i),
                None => segments_end(self@, self@.len() as int) > u32::MAX,
            },
    {
        let regions = self.regions();
        let count = regions.len();
        let mut offsets: Vec<u32> = Vec::new();
        let mut len: u64 = FILE_HEADER_SIZE + PROGRAM_HEADER_SIZE * count as u64;
        let mut i: usize = 0;
        while i < count
            invariant
                0 <= i <= count,
                count == regions@.len(),
                regions@ == self@,
                count < PN_XNUM,
                regions_wf(regions@),
                len == segments_end(regions@, i as int),
                len <= u32::MAX,
                offsets@.len() == i,
                forall|k: int| 0 <= k < i ==> (#[trigger] offsets@[k]) == segment_offset(regions@, k),
            decreases count - i,
        {
            let offset: u64 = (len + 4095) / 4096 * 4096;
            let data_len = regions[i].data.len() as u64;
            proof {
                assert(regions@[i as int].wf());
                lemma_segments_monotone(regions@, i + 1, count as int);
            }
            if offset > u32::MAX as u64 || data_len > u32::MAX as u64 - offset {
                return None;
            }
            offsets.push(offset as u32);
            len = offset + data_len;
            i += 1;
        }
        Some(offsets)
    }

    /// The image as a stripped ELF file: a 32-bit little-endian executable
    /// for the 386 that holds one loadable segment for each region and
    /// nothing else. The segments are aligned to 4096 bytes in the file.
    pub fn as_stripped_elf(&self) -> (r: Result<Vec<u8>, ElfError>)
        requires
            self.wf(),
        ensures
            match r {
                Ok(file) => self@.len() < PN_XNUM && file@ == file_upto(self@, self@.len() as int)
                    && file@.len() <= u32::MAX,
                Err(ElfError::TooManyRegions) => self@.len() >= PN_XNUM,
                Err(ElfError::TooLarge) => self@.len() < PN_XNUM && segments_end(self@, self@.len() as int)
                    > u32::MAX,
            },
    {
        let regions = self.regions();
        let count = regions.len();
        if count >= PN_XNUM {
            return Err(ElfError::TooManyRegions);
        }
        let offsets = match self.segment_offsets() {
            Some(offsets) => offsets,
            None => {
                return Err(ElfError::TooLarge);
            },
        };
        let mut file: Vec<u8> = Vec::new();
        file.push(0x7f);
        file.push(0x45);
        file.push(0x4c);
        file.push(0x46);
        file.push(1);
        file.push(1);
        file.push(1);
        let mut pad: usize = 0;
        while pad < 9
            invariant
                0 <= pad <= 9,
                file@ =~= seq![0x7fu8, 0x45u8, 0x4cu8, 0x46u8, 1u8, 1u8, 1u8] + Seq::new(pad as nat, |k: int| 0u8),
            decreases 9 - pad,
        {
            file.push(0);
            pad += 1;
        }
        assert(file@ =~= seq![
            0x7fu8,
            0x45u8,
            0x4cu8,
            0x46u8,
            1u8,
            1u8,
            1u8,
            0u8,
            0u8,
            0u8,
            0u8,
            0u8,
            0u8,
            0u8,
            0u8,
            0u8,
        ]);
        push_le16(&mut file, 2);
        push_le16(&mut file, 3);
        push_le32(&mut file, 1);
        push_le32(&mut file, 0);
        push_le32(&mut file, if count == 0 { 0 } else { 52 });
        push_le32(&mut file, 0);
        push_le32(&mut file, 0);
        push_le16(&mut file, 52);
        push_le16(&mut file, if count == 0 { 0 } else { 32 });
        push_le16(&mut file, count as u16);
        push_le16(&mut file, 0);
        push_le16(&mut file, 0);
        push_le16(&mut file, 0);
        assert(file@ =~= file_header_bytes(count as u16));
        let ghost head = file@;
        let mut i: usize = 0;
        while i < count
            invariant
                0 <= i <= count,
                count == regions@.len(),
                regions@ == self@,
                regions_wf(regions@),
                offsets@.len() == count,
                forall|k: int| 0 <= k < count ==> (#[trigger] offsets@[k]) == segment_offset(regions@, k),
                file@ =~= head + program_headers(regions@, i as int),
            decreases count - i,
        {
            let region = &regions[i];
            proof {
                assert(regions@[i as int].wf());
            }
            let header = region.program_header(offsets[i] as u64);
            assert(header == header_of(regions@[i as int], segment_offset(regions@, i as int)));
            push_program_header(&mut file, header);
            i += 1;
        }
        assert(file@ =~= file_upto(regions@, 0));
        let mut i: usize = 0;
        while i < count
            invariant
                0 <= i <= count,
                count == regions@.len(),
                regions@ == self@,
                offsets@.len() == count,
                segments_end(regions@, count as int) <= u32::MAX,
                forall|k: int| 0 <= k < count ==> (#[trigger] offsets@[k]) == segment_offset(regions@, k),
                file@ =~= file_upto(regions@, i as int),
            decreases count - i,
        {
            let region = &regions[i];
            let offset = offsets[i] as usize;
            proof {
                lemma_file_len(regions@, i as int);
                lemma_file_len(regions@, i + 1);
                lemma_segments_grow(regions@, i + 1);
                lemma_segments_monotone(regions@, i + 1, count as int);
            }
            let ghost before = file@;
            while file.len() < offset
                invariant
                    before.len() <= file@.len() <= offset,
                    file@ =~= before + Seq::new((file@.len() - before.len()) as nat, |k: int| 0u8),
                decreases offset - file@.len(),
            {
                file.push(0);
            }
            let ghost padded = file@;
            let mut k: usize = 0;
            while k < region.data.len()
                invariant
                    0 <= k <= region.data@.len(),
                    file@ =~= padded + region.data@.subrange(0, k as int),
                decreases region.data@.len() - k,
            {
                file.push(region.data[k]);
                k += 1;
            }
            assert(region.data@.subrange(0, k as int) =~= region.data@);
            i += 1;
        }
        proof {
            lemma_file_len(regions@, count as int);
        }
        Ok(file)
    }
}

impl crate::superset::ExecutableSample {
    /// The memory of the sample as a stripped ELF file, see
    /// [`MemoryImage::as_stripped_elf`].
    pub fn as_stripped_elf(&self) -> (r: Result<Vec<u8>, ElfError>)
        requires
            self.memory.wf(),
        ensures
            match r {
                Ok(file) => self.memory@.len() < PN_XNUM && file@ == file_upto(
                    self.memory@,
                    self.memory@.len() as int,
                ) && file@.len() <= u32::MAX,
                Err(ElfError::TooManyRegions) => self.memory@.len() >= PN_XNUM,
                Err(ElfError::TooLarge) => self.memory@.len() < PN_XNUM && segments_end(
                    self.memory@,
                    self.memory@.len() as int,
                ) > u32::MAX,
            },
    {
        self.memory.as_stripped_elf()
    }
}

} // verus!
