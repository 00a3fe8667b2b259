use core_boot::loader::{
    lay_out, parse_elf, segment_contents, ElfHeaders, KernelImage, LoadError, ProgramHeader,
    PT_LOAD,
};

struct Segment {
    p_type: u32,
    offset: u64,
    paddr: u64,
    filesz: u64,
    memsz: u64,
}

/// The bytes of a 64-bit executable with the given entry address and
/// program headers, followed by `payload`.
fn executable(entry: u64, segments: &[Segment], payload: &[u8]) -> Vec<u8> {
    let mut file = vec![0x7f, b'E', b'L', b'F', 2, 1, 1, 0, 0, 0, 0, 0, 0, 0, 0, 0];
    file.extend_from_slice(&2u16.to_le_bytes());
    file.extend_from_slice(&0x3eu16.to_le_bytes());
    file.extend_from_slice(&1u32.to_le_bytes());
    file.extend_from_slice(&entry.to_le_bytes());
    file.extend_from_slice(&64u64.to_le_bytes());
    file.extend_from_slice(&0u64.to_le_bytes());
    file.extend_from_slice(&0u32.to_le_bytes());
    file.extend_from_slice(&64u16.to_le_bytes());
    file.extend_from_slice(&56u16.to_le_bytes());
    file.extend_from_slice(&(segments.len() as u16).to_le_bytes());
    file.extend_from_slice(&64u16.to_le_bytes());
    file.extend_from_slice(&0u16.to_le_bytes());
    file.extend_from_slice(&0u16.to_le_bytes());
    assert_eq!(file.len(), 64);
    for segment in segments {
        file.extend_from_slice(&segment.p_type.to_le_bytes());
        file.extend_from_slice(&5u32.to_le_bytes());
        file.extend_from_slice(&segment.offset.to_le_bytes());
        let vaddr = 0xFFFF_FFFF_8000_0000u64.wrapping_add(segment.paddr);
        file.extend_from_slice(&vaddr.to_le_bytes());
        file.extend_from_slice(&segment.paddr.to_le_bytes());
        file.extend_from_slice(&segment.filesz.to_le_bytes());
        file.extend_from_slice(&segment.memsz.to_le_bytes());
        file.extend_from_slice(&0x1000u64.to_le_bytes());
    }
    file.extend_from_slice(payload);
    file
}

/// The bytes of a 32-bit executable with one loadable segment.
fn executable_32() -> Vec<u8> {
    let mut file = vec![0x7f, b'E', b'L', b'F', 1, 1, 1, 0, 0, 0, 0, 0, 0, 0, 0, 0];
    file.extend_from_slice(&2u16.to_le_bytes());
    file.extend_from_slice(&3u16.to_le_bytes());
    file.extend_from_slice(&1u32.to_le_bytes());
    file.extend_from_slice(&0x10_0000u32.to_le_bytes());
    file.extend_from_slice(&52u32.to_le_bytes());
    file.extend_from_slice(&0u32.to_le_bytes());
    file.extend_from_slice(&0u32.to_le_bytes());
    file.extend_from_slice(&52u16.to_le_bytes());
    file.extend_from_slice(&32u16.to_le_bytes());
    file.extend_from_slice(&1u16.to_le_bytes());
    file.extend_from_slice(&40u16.to_le_bytes());
    file.extend_from_slice(&0u16.to_le_bytes());
    file.extend_from_slice(&0u16.to_le_bytes());
    assert_eq!(file.len(), 52);
    for value in [1u32, 84, 0x10_0000, 0x10_0000, 4, 4, 5, 0x1000] {
        file.extend_from_slice(&value.to_le_bytes());
    }
    file.extend_from_slice(&[1, 2, 3, 4]);
    file
}

fn image_of(file: &Vec<u8>) -> KernelImage {
    match parse_elf(file) {
        Ok(image) => image,
        Err(error) => panic!("not loaded: {:?}", error),
    }
}

fn error_of(file: &Vec<u8>) -> Option<LoadError> {
    match parse_elf(file) {
        Ok(_) => None,
        Err(error) => Some(error),
    }
}

fn header(p_type: u32, p_offset: u64, p_paddr: u64, p_filesz: u64, p_memsz: u64) -> ProgramHeader {
    ProgramHeader { p_type, p_offset, p_paddr, p_filesz, p_memsz }
}

#[test]
fn rest_of_a_segment_is_zero() {
    let payload: Vec<u8> = (1..=10).collect();
    let segments =
        [Segment { p_type: PT_LOAD, offset: 120, paddr: 0x100000, filesz: 10, memsz: 4096 }];
    let file = executable(0xFFFF_FFFF_8010_0000, &segments, &payload);
    let image = image_of(&file);
    assert_eq!(image.entry, 0xFFFF_FFFF_8010_0000);
    assert_eq!(image.load_address, 0x100000);
    assert_eq!(image.page_count, 1);
    assert_eq!(image.segments.len(), 1);
    assert_eq!(image.segments[0].address, 0x100000);
    assert_eq!(image.segments[0].bytes.len(), 4096);
    assert_eq!(&image.segments[0].bytes[..10], &file[120..130]);
    assert_eq!(&image.segments[0].bytes[..10], &payload[..]);
    assert!(image.segments[0].bytes[10..].iter().all(|byte| *byte == 0));
}

#[test]
fn image_spans_all_loadable_segments() {
    let payload: Vec<u8> = (0..64).collect();
    let segments = [
        Segment { p_type: PT_LOAD, offset: 232, paddr: 0x20_3000, filesz: 16, memsz: 0x1800 },
        Segment { p_type: 4, offset: 232, paddr: 0x1000, filesz: 8, memsz: 0x10_0000 },
        Segment { p_type: PT_LOAD, offset: 248, paddr: 0x20_0000, filesz: 32, memsz: 32 },
    ];
    let file = executable(0x1234, &segments, &payload);
    assert_eq!(file.len(), 64 + 3 * 56 + 64);
    let image = image_of(&file);
    assert_eq!(image.entry, 0x1234);
    assert_eq!(image.load_address, 0x20_0000);
    // From 0x200000 to 0x204800.
    assert_eq!(image.page_count, 5);
    assert_eq!(image.segments.len(), 2);
    assert_eq!(image.segments[0].address, 0x20_3000);
    assert_eq!(image.segments[0].bytes.len(), 0x1800);
    assert_eq!(&image.segments[0].bytes[..16], &payload[..16]);
    assert!(image.segments[0].bytes[16..].iter().all(|byte| *byte == 0));
    assert_eq!(image.segments[1].address, 0x20_0000);
    assert_eq!(image.segments[1].bytes, payload[16..48].to_vec());
}

#[test]
fn file_that_is_no_executable() {
    assert_eq!(error_of(&Vec::new()), Some(LoadError::FormatError));
    assert_eq!(error_of(&vec![0u8; 256]), Some(LoadError::FormatError));
    assert_eq!(error_of(&b"kernel".to_vec()), Some(LoadError::FormatError));
    let segments =
        [Segment { p_type: PT_LOAD, offset: 120, paddr: 0x100000, filesz: 10, memsz: 4096 }];
    let mut file = executable(0, &segments, &[0u8; 10]);
    file[0] = 0x7e;
    assert_eq!(error_of(&file), Some(LoadError::FormatError));
    let mut cut = executable(0, &segments, &[0u8; 10]);
    cut.truncate(100);
    assert_eq!(error_of(&cut), Some(LoadError::FormatError));
}

#[test]
fn executable_of_32_bits_is_refused() {
    assert_eq!(error_of(&executable_32()), Some(LoadError::FormatError));
}

#[test]
fn executable_without_loadable_segment_is_refused() {
    let file = executable(0x1000, &[], &[]);
    assert_eq!(error_of(&file), Some(LoadError::FormatError));
    let segments = [Segment { p_type: 4, offset: 120, paddr: 0x1000, filesz: 4, memsz: 4 }];
    let file = executable(0x1000, &segments, &[1, 2, 3, 4]);
    assert_eq!(error_of(&file), Some(LoadError::FormatError));
}

#[test]
fn segment_that_does_not_fit_is_refused() {
    let beyond = [Segment { p_type: PT_LOAD, offset: 120, paddr: 0x1000, filesz: 11, memsz: 16 }];
    assert_eq!(error_of(&executable(0, &beyond, &[0u8; 10])), Some(LoadError::FormatError));
    let shrinking =
        [Segment { p_type: PT_LOAD, offset: 120, paddr: 0x1000, filesz: 10, memsz: 9 }];
    assert_eq!(error_of(&executable(0, &shrinking, &[0u8; 10])), Some(LoadError::FormatError));
    let wrapping =
        [Segment { p_type: PT_LOAD, offset: 120, paddr: u64::MAX - 7, filesz: 8, memsz: 8 }];
    assert_eq!(error_of(&executable(0, &wrapping, &[0u8; 10])), Some(LoadError::FormatError));
    let fitting = [Segment { p_type: PT_LOAD, offset: 120, paddr: 0x1000, filesz: 10, memsz: 10 }];
    assert_eq!(error_of(&executable(0, &fitting, &[0u8; 10])), None);
}

#[test]
fn layout_from_headers() {
    let data: Vec<u8> = (0..32).collect();
    let headers = ElfHeaders {
        is_64: true,
        entry: 0x40_0000,
        program_headers: vec![
            header(PT_LOAD, 4, 0x5000, 4, 8),
            header(6, 0, 0, 32, 32),
            header(PT_LOAD, 0, 0x3800, 2, 0x900),
        ],
    };
    let image = lay_out(&data, &headers).unwrap();
    assert_eq!(image.entry, 0x40_0000);
    assert_eq!(image.load_address, 0x3800);
    // From 0x3800 to 0x5008.
    assert_eq!(image.page_count, 2);
    assert_eq!(image.segments.len(), 2);
    assert_eq!(image.segments[0].address, 0x5000);
    assert_eq!(image.segments[0].bytes, vec![4, 5, 6, 7, 0, 0, 0, 0]);
    assert_eq!(image.segments[1].address, 0x3800);
    assert_eq!(image.segments[1].bytes.len(), 0x900);
    assert_eq!(&image.segments[1].bytes[..3], &[0, 1, 0]);
}

#[test]
fn layout_refuses_what_is_not_a_loadable_image() {
    let data: Vec<u8> = (0..32).collect();
    let mut headers = ElfHeaders {
        is_64: false,
        entry: 0,
        program_headers: vec![header(PT_LOAD, 0, 0x1000, 4, 4)],
    };
    assert!(matches!(lay_out(&data, &headers), Err(LoadError::FormatError)));
    headers.is_64 = true;
    assert!(lay_out(&data, &headers).is_ok());
    headers.program_headers = vec![header(2, 0, 0x1000, 4, 4)];
    assert!(matches!(lay_out(&data, &headers), Err(LoadError::FormatError)));
    headers.program_headers = vec![header(PT_LOAD, 30, 0x1000, 3, 4)];
    assert!(matches!(lay_out(&data, &headers), Err(LoadError::FormatError)));
    headers.program_headers = vec![header(PT_LOAD, u64::MAX, 0x1000, 2, 4)];
    assert!(matches!(lay_out(&data, &headers), Err(LoadError::FormatError)));
    headers.program_headers = vec![header(2, 30, 0x1000, 3, 4), header(PT_LOAD, 30, 0x1000, 2, 2)];
    assert!(lay_out(&data, &headers).is_ok());
}

#[test]
fn contents_of_a_segment() {
    let data: Vec<u8> = vec![9, 8, 7, 6, 5];
    assert_eq!(segment_contents(&data, &header(PT_LOAD, 1, 0, 3, 6)), vec![8, 7, 6, 0, 0, 0]);
    assert_eq!(segment_contents(&data, &header(PT_LOAD, 5, 0, 0, 2)), vec![0, 0]);
    assert_eq!(segment_contents(&data, &header(PT_LOAD, 0, 0, 5, 5)), data);
    assert_eq!(segment_contents(&data, &header(PT_LOAD, 2, 0, 0, 0)), Vec::<u8>::new());
}

#[test]
fn result_once_firmware_has_answered() {
    let segments =
        [Segment { p_type: PT_LOAD, offset: 120, paddr: 0x100000, filesz: 10, memsz: 0x2001 }];
    let image = image_of(&executable(0x77, &segments, &[0u8; 10]));
    assert_eq!(image.placed(Some(0x100000)), Ok((0x77, 0x100000, 3)));
    assert_eq!(image.placed(Some(0x101000)), Err(LoadError::AllocationFailure));
    assert_eq!(image.placed(None), Err(LoadError::AllocationFailure));
}
