use datatool::classes::{AddressClasses, RangeKind};
use datatool::ground_truth::{
    classes_from_elf_symbols, classes_from_functions, classes_from_ranges, AddressRange, ElfSymbol, FunctionError,
    RangeError, SymbolClass, SymbolError,
};
use datatool::elf::{get_base_address, pad_segment, ElfError, ProgramHeader};
use datatool::interval::Interval;
use datatool::memory::{MemoryImage, MemoryRegion, Protection, RegionError};

const RX: Protection = Protection { read: true, write: false, execute: true };
const RW: Protection = Protection { read: true, write: true, execute: false };

#[test]
fn regions_are_kept_in_address_order() {
    let mut memory = MemoryImage::new();
    assert_eq!(memory.add_region(0x2000, RW, vec![1, 2, 3], "data".to_string()), Ok(()));
    assert_eq!(memory.add_region(0x1000, RX, vec![0x90; 16], "text".to_string()), Ok(()));
    assert_eq!(memory.add_region(0x3000, RW, vec![], String::new()), Ok(()));
    let addresses: Vec<u32> = memory.regions().iter().map(|r| r.addr).collect();
    assert_eq!(addresses, vec![0x1000, 0x2000, 0x3000]);
    assert_eq!(memory.regions()[0].end(), 0x1010);
    assert_eq!(memory.size(), 19);
}

#[test]
fn overlapping_regions_are_refused() {
    let mut memory = MemoryImage::new();
    assert_eq!(memory.add_region(0x1000, RX, vec![0; 16], String::new()), Ok(()));
    assert_eq!(memory.add_region(0x100f, RW, vec![0; 4], String::new()), Err(RegionError::Overlap));
    assert_eq!(memory.add_region(0x0ff8, RW, vec![0; 9], String::new()), Err(RegionError::Overlap));
    assert_eq!(memory.add_region(0x0ff8, RW, vec![0; 8], String::new()), Ok(()));
    assert_eq!(memory.add_region(0x1010, RW, vec![0; 8], String::new()), Ok(()));
    assert_eq!(
        memory.add_region(0xffff_fff0, RW, vec![0; 16], String::new()),
        Err(RegionError::OutOfRange)
    );
    assert_eq!(memory.add_region(0xffff_fff0, RW, vec![0; 15], String::new()), Ok(()));
    assert_eq!(memory.regions().len(), 4);
}

#[test]
fn executable_region_lookup() {
    let mut memory = MemoryImage::new();
    memory.add_region(0x1000, RX, vec![0; 16], String::new()).unwrap();
    memory.add_region(0x2000, RW, vec![0; 16], String::new()).unwrap();
    assert_eq!(memory.executable_region_at(0x1000), Some(0));
    assert_eq!(memory.executable_region_at(0x100f), Some(0));
    assert_eq!(memory.executable_region_at(0x1010), None);
    assert_eq!(memory.executable_region_at(0x2000), None);
}

#[test]
fn classes_relocate_filter_and_cover() {
    let mut classes = AddressClasses::new();
    classes.true_instructions.push(Interval::from_start_and_end(0, 10));
    classes.true_instructions.push(Interval::from_start_and_end(20, 30));
    classes.true_data.push(Interval::from_start_and_end(25, 50));
    assert_eq!(classes.coverage(), 10 + 10 + 25);
    classes.relocate(100);
    assert_eq!(classes.true_data.iter().collect(), vec![Interval::from_start_and_end(125, 150)]);
    classes.filter_to(Interval::from_start_and_len(105, 25));
    assert_eq!(classes.true_instructions.iter().collect(), vec![
        Interval::from_start_and_end(105, 110),
        Interval::from_start_and_end(120, 130),
    ]);
    assert_eq!(classes.true_data.iter().collect(), vec![Interval::from_start_and_end(125, 130)]);
    assert_eq!(classes.coverage(), 5 + 10 + 5);
}

#[test]
fn protection_and_segment_flags() {
    assert_eq!(RX.elf_flags(), 5);
    assert_eq!(RW.elf_flags(), 6);
    assert_eq!(Protection { read: false, write: false, execute: true }.elf_flags(), 1);
    for flags in 1..8u32 {
        let protection = Protection::from_elf_flags(flags | 0x1000_0000).unwrap();
        assert_eq!(protection.elf_flags(), flags);
    }
    assert_eq!(Protection::from_elf_flags(8), None);
    assert_eq!(Protection::from_coff_characteristics(0x6000_0020), Some(RX));
    assert_eq!(Protection::from_coff_characteristics(0xC000_0040), Some(RW));
    assert_eq!(Protection::from_coff_characteristics(0x0000_0040), None);
    assert_eq!(get_base_address(true), 0x40000);
    assert_eq!(get_base_address(false), 0);
}

#[test]
fn segments_are_padded_with_zeros() {
    assert_eq!(pad_segment(vec![1, 2], 5), vec![1, 2, 0, 0, 0]);
    assert_eq!(pad_segment(vec![1, 2], 1), vec![1, 2]);
    assert_eq!(pad_segment(vec![], 0), Vec::<u8>::new());
}

#[test]
fn program_header_of_a_region() {
    let region = MemoryRegion { addr: 0x1000, data: vec![0x90; 7], protection: RX, name: String::new() };
    assert_eq!(region.program_header(0x2000), ProgramHeader {
        p_type: 1,
        p_flags: 5,
        p_offset: 0x2000,
        p_vaddr: 0x1000,
        p_paddr: 0x1000,
        p_filesz: 7,
        p_memsz: 7,
        p_align: 0x1000,
    });
}

/// The file that the writer of the `object` crate makes of the same regions.
fn written_by_object(memory: &MemoryImage) -> Vec<u8> {
    let mut buffer = Vec::<u8>::new();
    let mut writer = object::write::elf::Writer::new(object::Endianness::Little, false, &mut buffer);
    let regions = memory.regions();
    writer.reserve_file_header();
    writer.reserve_program_headers(regions.len() as u32);
    let offsets: Vec<u64> = regions.iter().map(|v| writer.reserve(v.data.len() as u64, 0x1000)).collect();
    writer
        .write_file_header(&object::write::elf::FileHeader {
            os_abi: object::elf::ELFOSABI_NONE,
            abi_version: 0,
            e_type: object::elf::ET_EXEC,
            e_machine: object::elf::EM_386,
            e_entry: 0,
            e_flags: object::elf::FileFlags(0),
        })
        .unwrap();
    writer.write_align_program_headers();
    for (region, &offset) in regions.iter().zip(offsets.iter()) {
        writer.write_program_header(&object::write::elf::ProgramHeader {
            p_type: object::elf::PT_LOAD,
            p_flags: object::elf::ProgramFlags(region.protection.elf_flags()),
            p_offset: offset,
            p_vaddr: region.addr as u64,
            p_paddr: region.addr as u64,
            p_filesz: region.data.len() as u64,
            p_memsz: region.data.len() as u64,
            p_align: 0x1000,
        });
    }
    for (region, &offset) in regions.iter().zip(offsets.iter()) {
        writer.write_align(0x1000);
        assert_eq!(writer.len(), offset);
        writer.write(&region.data);
    }
    buffer
}

#[test]
fn stripped_elf_of_two_regions() {
    let mut memory = MemoryImage::new();
    memory.add_region(0x0804_8000, RX, vec![0x90, 0x90, 0xC3], "text".to_string()).unwrap();
    memory.add_region(0x0804_9000, RW, vec![7; 0x1001], "data".to_string()).unwrap();
    let file = memory.as_stripped_elf().unwrap();
    assert_eq!(file.len(), 0x2000 + 0x1001);
    assert_eq!(&file[..8], &[0x7f, b'E', b'L', b'F', 1, 1, 1, 0]);
    // type: executable; machine: 386; program headers at 52, two of 32 bytes
    assert_eq!(&file[16..20], &[2, 0, 3, 0]);
    assert_eq!(&file[28..32], &[52, 0, 0, 0]);
    assert_eq!(&file[40..48], &[52, 0, 32, 0, 2, 0, 0, 0]);
    // first program header: loadable, at 0x1000 in the file, at 0x08048000 in memory, 3 bytes, r-x
    assert_eq!(&file[52..84], &[
        1, 0, 0, 0, 0, 0x10, 0, 0, 0, 0x80, 0x04, 0x08, 0, 0x80, 0x04, 0x08, 3, 0, 0, 0, 3, 0, 0, 0, 5, 0, 0,
        0, 0, 0x10, 0, 0,
    ]);
    assert_eq!(&file[84..92], &[1, 0, 0, 0, 0, 0x20, 0, 0]);
    assert!(file[116..0x1000].iter().all(|&b| b == 0));
    assert_eq!(&file[0x1000..0x1003], &[0x90, 0x90, 0xC3]);
    assert!(file[0x1003..0x2000].iter().all(|&b| b == 0));
    assert!(file[0x2000..].iter().all(|&b| b == 7));
    assert_eq!(file, written_by_object(&memory));
}

#[test]
fn stripped_elf_agrees_with_the_object_writer() {
    let shapes: [&[(u32, usize)]; 6] = [
        &[],
        &[(0, 0)],
        &[(0x1000, 1)],
        &[(0x1000, 0x1000), (0x2000, 0)],
        &[(0x10, 0xfff), (0x2000, 0x1000), (0x4000, 0), (0x4000, 5)],
        &[(0xffff_0000, 0xffff)],
    ];
    for shape in shapes {
        let mut memory = MemoryImage::new();
        for (i, &(addr, len)) in shape.iter().enumerate() {
            let protection = Protection { read: i % 2 == 0, write: i % 3 == 0, execute: i % 2 == 1 };
            let data: Vec<u8> = (0..len).map(|k| (k * 7 + i) as u8).collect();
            memory.add_region(addr, protection, data, String::new()).unwrap();
        }
        assert_eq!(memory.as_stripped_elf().unwrap(), written_by_object(&memory), "{:?}", shape);
    }
}

fn intervals(set: &datatool::interval_set::IntervalSet) -> Vec<(u32, u32)> {
    set.iter().collect().into_iter().map(|i| (i.start(), i.end())).collect()
}

#[test]
fn dump_lists_ranges_and_gaps() {
    let mut classes = AddressClasses::new();
    classes.true_instructions.push(Interval::from_start_and_end(0x10, 0x20));
    classes.true_instructions.push(Interval::from_start_and_end(0x40, 0x50));
    classes.true_data.push(Interval::from_start_and_end(0x20, 0x28));
    classes.true_data.push(Interval::from_start_and_end(0x40, 0x50));
    classes.true_data.push(Interval::from_start_and_end(0x48, 0x60));
    classes.true_data.push(Interval::from_start_and_end(0x70, 0x71));
    let rows: Vec<(u32, u32, RangeKind)> = classes.dump().into_iter().map(|r| (r.start, r.end, r.kind)).collect();
    assert_eq!(rows, vec![
        (0x10, 0x20, RangeKind::Code),
        (0x20, 0x28, RangeKind::Data),
        (0x28, 0x40, RangeKind::Gap),
        (0x40, 0x50, RangeKind::Code),
        (0x40, 0x60, RangeKind::Data),
        (0x60, 0x70, RangeKind::Gap),
        (0x70, 0x71, RangeKind::Data),
    ]);
    assert_eq!(AddressClasses::new().dump(), vec![]);
}

#[test]
fn classes_of_elf_symbols() {
    let symbol = |section_index, value, size, kind| ElfSymbol { section_index, value, size, kind };
    let symbols = vec![
        symbol(1, 0x1000, 0x10, 2),
        symbol(0, 0x5000, 0x10, 2),
        symbol(1, 0x2000, 4, 1),
        symbol(1, 0x2004, 4, 5),
        symbol(1, 0x3000, 8, 0),
        symbol(1, 0x3000, 8, 3),
        symbol(1, 0x3000, 8, 4),
        symbol(1, 0x3000, 8, 6),
        symbol(1, 0x1010, 0, 2),
        symbol(1, 0x1020, 8, 2),
    ];
    let classes = classes_from_elf_symbols(&symbols).unwrap();
    assert_eq!(intervals(&classes.true_instructions), vec![(0x1000, 0x1010), (0x1020, 0x1028)]);
    assert_eq!(intervals(&classes.true_data), vec![(0x2000, 0x2008)]);
    let mut unknown = symbols.clone();
    unknown.push(symbol(1, 0, 1, 10));
    unknown.push(symbol(1, u32::MAX, 1, 2));
    assert_eq!(classes_from_elf_symbols(&unknown), Err(SymbolError::UnknownSymbolType(10)));
    assert_eq!(
        classes_from_elf_symbols(&vec![symbol(1, u32::MAX, 2, 1)]),
        Err(SymbolError::OutOfRange(0))
    );
    assert!(classes_from_elf_symbols(&vec![symbol(0, u32::MAX, 2, 10), symbol(1, u32::MAX, 0, 2)]).is_ok());
    assert_eq!(symbol(1, 0, 0, 7).class(), SymbolClass::Unknown);
}

#[test]
fn classes_of_debug_ranges() {
    let ranges = vec![(0x30, 0x10), (0x10, 0x8), (0x50, 1)];
    let data = vec![0x40, 0x18, 0x8, 0x51, 0x30];
    let classes = classes_from_ranges(0x1000, &ranges, &data).unwrap();
    assert_eq!(intervals(&classes.true_instructions), vec![(0x1010, 0x1018), (0x1030, 0x1040), (0x1050, 0x1051)]);
    // Data reaches to the next function; after the last function there is none.
    assert_eq!(intervals(&classes.true_data), vec![(0x1008, 0x1010), (0x1018, 0x1030), (0x1040, 0x1050)]);
    assert_eq!(classes_from_ranges(0, &vec![(1, 1), (u32::MAX, 1)], &vec![]), Err(RangeError::OutOfRange(1)));
    assert_eq!(classes_from_ranges(1, &vec![(u32::MAX - 1, 1)], &vec![]), Err(RangeError::Relocation));
    assert!(classes_from_ranges(0, &vec![(u32::MAX - 1, 1)], &vec![0]).is_ok());
    assert_eq!(classes_from_ranges(7, &vec![], &vec![1, 2]).map(|c| c.coverage()), Ok(0));
}

#[test]
fn classes_of_functions_and_thunks() {
    let mut memory = MemoryImage::new();
    // jmp dword ptr [0x2000] ; nop ; ret
    memory.add_region(0x1000, RX, vec![0xFF, 0x25, 0x00, 0x20, 0x00, 0x00, 0x90, 0xC3], String::new()).unwrap();
    memory.add_region(0x2000, RW, vec![0; 4], String::new()).unwrap();
    let classes = classes_from_functions(&memory, &vec![(0x1006, 0x1008), (0x3000, 0x3000)], &vec![0x1000]).unwrap();
    assert_eq!(intervals(&classes.true_instructions), vec![(0x1000, 0x1008)]);
    assert_eq!(intervals(&classes.true_data), vec![]);
    let alone = classes_from_functions(&memory, &vec![], &vec![0x1007, 0x1000]).unwrap();
    assert_eq!(intervals(&alone.true_instructions), vec![(0x1000, 0x1006), (0x1007, 0x1008)]);
    assert_eq!(
        classes_from_functions(&memory, &vec![(1, 2), (5, 4)], &vec![0x2000]),
        Err(FunctionError::FunctionEndsEarly(1))
    );
    assert_eq!(
        classes_from_functions(&memory, &vec![(1, 2)], &vec![0x1000, 0x2000]),
        Err(FunctionError::ThunkNotInCode(1))
    );
}

#[test]
fn address_ranges() {
    let mut range = AddressRange::from_simple_range(10, 20);
    range.add_range(20, 25);
    range.add_range(40, 40);
    let mut other = AddressRange::new();
    other.add_range(5, 12);
    other.add_range(30, 31);
    range.merge(&other);
    assert_eq!(intervals(&range.range_set), vec![(5, 25), (30, 31)]);
    assert_eq!(range.range_set.last_end(), Some(31));
    assert_eq!(AddressRange::new().range_set.last_end(), None);
}

#[test]
fn an_image_with_too_many_regions_has_no_stripped_elf() {
    let mut memory = MemoryImage::new();
    for i in 0..0xffffu32 {
        memory.add_region(i * 2, RW, vec![i as u8], String::new()).unwrap();
    }
    assert_eq!(memory.regions().len(), 0xffff);
    assert_eq!(memory.as_stripped_elf(), Err(ElfError::TooManyRegions));
    assert_eq!(memory.size(), 0xffff);
}
