use flow_core::mem::virt_mem::{split_requests, truncate_at_nul, Chunk};
use flow_core::{
    Address, Architecture, CachedVAT, CountCacheValidator, ErrorKind, Length, MemoryImage, Page,
    PageType, Pointer32, Pointer64, TLBCache, VatImpl, VirtualFromPhysical, VirtualMemory,
};

fn put_u64(image: &mut Vec<u8>, at: usize, value: u64) {
    image[at..at + 8].copy_from_slice(&value.to_le_bytes());
}

/// An x86-64 address space rooted at 0x1000: virtual page 0 lies at
/// 0x6000, page 0x2000 at 0x9000, page 0x3000 at 0xa000 and page 0x4000 at
/// 0x80000; page 0x1000 is not mapped, and page 0x8000 lies beyond the
/// image.
fn image() -> Vec<u8> {
    let mut image = vec![0u8; 0x10_0000];
    put_u64(&mut image, 0x1000, 0x2000 | 0x3);
    put_u64(&mut image, 0x2000, 0x3000 | 0x3);
    put_u64(&mut image, 0x3000, 0x5000 | 0x3);
    put_u64(&mut image, 0x5000, 0x6000 | 0x3);
    put_u64(&mut image, 0x5000 + 2 * 8, 0x9000 | 0x3);
    put_u64(&mut image, 0x5000 + 3 * 8, 0xa000 | 0x1);
    put_u64(&mut image, 0x5000 + 4 * 8, 0x8_0000 | 0x3);
    put_u64(&mut image, 0x5000 + 8 * 8, 0x7fff_f000 | 0x3);
    image[0x6ffc..0x7000].copy_from_slice(&[1, 2, 3, 4]);
    for i in 0..0x1000 {
        image[0x9000 + i] = (i % 251) as u8;
        image[0xa000 + i] = (i % 241) as u8 + 1;
    }
    put_u64(&mut image, 0x8_0000, 0x4100);
    put_u64(&mut image, 0x8_0108, 0x2010);
    put_u64(&mut image, 0x9010 + 0x20, 0xdead_beef_0000_4000);
    image[0x8_0200..0x8_020b].copy_from_slice(b"hello\0world");
    image[0x8_0300..0x8_0306].copy_from_slice(&[b'a', 0xff, b'b', 0xe2, 0x82, 0xac]);
    image
}

fn memory() -> VirtualFromPhysical<MemoryImage> {
    VirtualFromPhysical::new(MemoryImage::new(image()), Architecture::X64, Address(0x1000))
}

fn chunk(c: &Chunk) -> (usize, usize, usize, u64) {
    (c.req, c.offset, c.len, c.vaddr.0)
}

#[test]
fn cross_page_read() {
    let mut vm = memory();
    let mut buf = vec![0xaau8; 8];
    vm.virt_read_raw_into(Address(0x0ffc), &mut buf).unwrap();
    assert_eq!(buf, vec![1, 2, 3, 4, 0xaa, 0xaa, 0xaa, 0xaa]);
    let fresh = vm.virt_read_raw(Address(0x0ffc), Length(8)).unwrap();
    assert_eq!(fresh, vec![1, 2, 3, 4, 0, 0, 0, 0]);
}

#[test]
fn read_spans_pages_that_lie_apart() {
    let mut vm = memory();
    let bytes = vm.virt_read_raw(Address(0x2ff0), Length(0x20)).unwrap();
    let expected: Vec<u8> = (0xff0..0x1000).map(|i| (i % 251) as u8).chain((0..0x10).map(|i| (i % 241) as u8 + 1)).collect();
    assert_eq!(bytes, expected);
    assert_eq!(vm.translator_ref().read_passes(), 4 + 1);
}

#[test]
fn batch_read_is_one_translation_and_one_fetch() {
    let mut vm = memory();
    let mut batch = vec![
        (Address(0x2000), vec![0u8; 4]),
        (Address(0x1800), vec![5u8; 3]),
        (Address(0x4000), vec![0u8; 8]),
        (Address(0x3ffe), vec![9u8; 4]),
        (Address(0x5000), Vec::new()),
    ];
    vm.virt_read_raw_iter(&mut batch).unwrap();
    assert_eq!(batch[0], (Address(0x2000), vec![0, 1, 2, 3]));
    assert_eq!(batch[1], (Address(0x1800), vec![5, 5, 5]));
    assert_eq!(batch[2], (Address(0x4000), 0x4100u64.to_le_bytes().to_vec()));
    assert_eq!(batch[3], (Address(0x3ffe), vec![(0xffe % 241) as u8 + 1, (0xfff % 241) as u8 + 1, 0, 0x41]));
    assert_eq!(vm.translator_ref().read_passes(), 4 + 1);
}

#[test]
fn wholly_unmapped_read_is_partial_translation() {
    let mut vm = memory();
    let mut buf = vec![3u8; 16];
    let err = vm.virt_read_raw_into(Address(0x1100), &mut buf).unwrap_err();
    assert_eq!(err.kind, ErrorKind::PartialTranslation);
    assert_eq!(err.addr, Address(0x1100));
    assert_eq!(buf, vec![3u8; 16]);
    let err = vm.virt_read_raw(Address(0x0000_8000_0000_0000), Length(1)).unwrap_err();
    assert_eq!(err.kind, ErrorKind::PartialTranslation);
}

#[test]
fn zero_length_read_is_not_an_error() {
    let mut vm = memory();
    assert_eq!(vm.virt_read_raw(Address(0x1100), Length(0)).unwrap(), Vec::<u8>::new());
    assert_eq!(vm.virt_read_raw(Address(u64::MAX), Length(0)).unwrap(), Vec::<u8>::new());
    assert_eq!(vm.virt_read_cstr(Address(0x1100), Length(0)).unwrap(), "");
    assert_eq!(vm.translator_ref().read_passes(), 0);
    vm.virt_write_raw(Address(0x1100), &Vec::new()).unwrap();
    assert_eq!(vm.translator_ref().write_passes(), 0);
}

#[test]
fn overflowing_range_is_an_invalid_argument() {
    let mut vm = memory();
    let err = vm.virt_read_raw(Address(u64::MAX - 2), Length(4)).unwrap_err();
    assert_eq!((err.kind, err.addr, err.level), (ErrorKind::InvalidArgument, Address(u64::MAX - 2), 0));
    let err = vm.virt_write_raw(Address(u64::MAX), &vec![1, 2]).unwrap_err();
    assert_eq!((err.kind, err.addr, err.level), (ErrorKind::InvalidArgument, Address(u64::MAX), 0));
    let mut batch = vec![(Address(0x2000), vec![0u8; 2]), (Address(u64::MAX), vec![0u8; 2]), (Address(u64::MAX - 1), vec![0u8; 9])];
    let err = vm.virt_read_raw_iter(&mut batch).unwrap_err();
    assert_eq!((err.kind, err.addr), (ErrorKind::InvalidArgument, Address(u64::MAX)));
    assert_eq!(batch[0].1, vec![0u8; 2]);
    assert_eq!(vm.translator_ref().read_passes(), 0);
    let mut late = vec![(Address(0x1000), Vec::new()), (Address(0x1800), vec![1u8; 2]), (Address(0x1100), vec![1u8; 2])];
    let err = vm.virt_read_raw_iter(&mut late).unwrap_err();
    assert_eq!((err.kind, err.addr), (ErrorKind::PartialTranslation, Address(0x1800)));
    assert_eq!(vm.virt_read_raw(Address(u64::MAX - 3), Length(4)).unwrap_err().kind, ErrorKind::PartialTranslation);
    assert_eq!(split_requests(&vec![(Address(u64::MAX), 2)]).unwrap_err().kind, ErrorKind::InvalidArgument);
}

#[test]
fn page_beyond_the_backend_fails_on_access() {
    let mut vm = memory();
    assert_eq!(vm.virt_page_info(Address(0x8000)).unwrap().page_size, Length(0x1000));
    let err = vm.virt_read_raw(Address(0x8000), Length(4)).unwrap_err();
    assert_eq!(err.kind, ErrorKind::OutOfBounds);
    let err = vm.virt_write_raw(Address(0x8000), &vec![1]).unwrap_err();
    assert_eq!(err.kind, ErrorKind::OutOfBounds);
}

#[test]
fn broken_walk_fails_the_read() {
    let mut vm = VirtualFromPhysical::new(MemoryImage::new(image()), Architecture::X64, Address(0x20_0000));
    let err = vm.virt_read_raw(Address(0x4000), Length(4)).unwrap_err();
    assert_eq!(err.kind, ErrorKind::PhysicalReadError);
    assert_eq!(vm.virt_page_info(Address(0x4000)).unwrap_err().kind, ErrorKind::PhysicalReadError);
}

#[test]
fn requests_are_split_at_page_boundaries() {
    let chunks = split_requests(&vec![(Address(0x0ffc), 8), (Address(0x5000), 0), (Address(0x2010), 0x2000)]).unwrap();
    let got: Vec<_> = chunks.iter().map(chunk).collect();
    assert_eq!(
        got,
        vec![
            (0, 0, 4, 0x0ffc),
            (0, 4, 4, 0x1000),
            (2, 0, 0xff0, 0x2010),
            (2, 0xff0, 0x1000, 0x3000),
            (2, 0x1ff0, 0x10, 0x4000),
        ]
    );
    assert!(split_requests(&Vec::new()).unwrap().is_empty());
    let last = split_requests(&vec![(Address(u64::MAX - 1), 2)]).unwrap();
    assert_eq!(last.iter().map(chunk).collect::<Vec<_>>(), vec![(0, 0, 2, u64::MAX - 1)]);
}

#[test]
fn addresses_are_little_endian() {
    let mut vm = memory();
    assert_eq!(vm.virt_read_addr64(Address(0x4000)).unwrap(), Address(0x4100));
    assert_eq!(vm.virt_read_addr64(Address(0x2030)).unwrap(), Address(0xdead_beef_0000_4000));
    assert_eq!(vm.virt_read_addr32(Address(0x2030)).unwrap(), Address(0x0000_4000));
    assert_eq!(vm.virt_read_addr32(Address(0x2034)).unwrap(), Address(0xdead_beef));
    assert_eq!(vm.virt_read_addr32(Address(0x0ffe)).unwrap(), Address(0x0000_0403));
    assert_eq!(vm.virt_read_addr64(Address(0x1000)).unwrap_err().kind, ErrorKind::PartialTranslation);
}

#[test]
fn chain_follows_pointers() {
    let mut vm = memory();
    let end = vm.virt_read_addr64_chain(Address(0x4000), vec![Length(0), Length(8), Length(0x20)]).unwrap();
    assert_eq!(end, Address(0xdead_beef_0000_4000));
    let mut at = Address(0x4000);
    for offset in [0u64, 8, 0x20] {
        at = vm.virt_read_addr64(at.saturating_add(Length(offset))).unwrap();
    }
    assert_eq!(at, end);
    assert_eq!(vm.virt_read_addr64_chain(Address(0x1234), Vec::new()).unwrap(), Address(0x1234));
    let narrow = vm.virt_read_addr32_chain(Address(0x4000), vec![Length(0), Length(8), Length(0x20), Length(0)]).unwrap();
    assert_eq!(narrow, Address(0x4100));
    assert_eq!(vm.virt_read_addr32_chain(Address(7), Vec::new()).unwrap(), Address(7));
}

#[test]
fn chain_stops_at_the_first_error() {
    let mut vm = memory();
    let reads = vm.translator_ref().read_passes();
    let err = vm
        .virt_read_addr64_chain(Address(0x4000), vec![Length(0), Length(0x1000), Length(8)])
        .unwrap_err();
    assert_eq!(err.kind, ErrorKind::PartialTranslation);
    assert_eq!(err.addr, Address(0x5100));
    assert_eq!(vm.translator_ref().read_passes() - reads, 5 + 4);
    let err = vm.virt_read_addr32_chain(Address(0x1000), vec![Length(0), Length(0)]).unwrap_err();
    assert_eq!((err.kind, err.addr), (ErrorKind::PartialTranslation, Address(0x1000)));
    let err = vm.virt_read_addr64_chain(Address(u64::MAX), vec![Length(5)]).unwrap_err();
    assert_eq!((err.kind, err.addr), (ErrorKind::InvalidArgument, Address(u64::MAX)));
    let err = vm.virt_read_addr32(Address(u64::MAX - 2)).unwrap_err();
    assert_eq!((err.kind, err.addr), (ErrorKind::InvalidArgument, Address(u64::MAX - 2)));
}

#[test]
fn cstr_is_cut_at_the_first_zero() {
    let mut vm = memory();
    assert_eq!(vm.virt_read_cstr(Address(0x4200), Length(11)).unwrap(), "hello");
    assert_eq!(vm.virt_read_cstr(Address(0x4200), Length(3)).unwrap(), "hel");
    assert_eq!(vm.virt_read_cstr(Address(0x4200), Length(5)).unwrap(), "hello");
    assert_eq!(vm.virt_read_cstr(Address(0x4206), Length(5)).unwrap(), "world");
    assert_eq!(vm.virt_read_cstr(Address(0x4205), Length(5)).unwrap(), "");
    assert_eq!(vm.virt_read_cstr(Address(0x0ffc), Length(8)).unwrap(), "\u{1}\u{2}\u{3}\u{4}");
    assert_eq!(vm.virt_read_cstr(Address(0x1000), Length(8)).unwrap_err().kind, ErrorKind::PartialTranslation);
}

#[test]
fn cstr_replaces_what_is_not_utf8() {
    let mut vm = memory();
    assert_eq!(vm.virt_read_cstr(Address(0x4300), Length(16)).unwrap(), "a\u{fffd}b\u{20ac}");
    assert_eq!(vm.virt_read_cstr(Address(0x4300), Length(5)).unwrap(), "a\u{fffd}b\u{fffd}");
}

#[test]
fn truncation_keeps_the_bytes_before_the_zero() {
    let mut with_zero = vec![5u8, 6, 0, 7, 0];
    truncate_at_nul(&mut with_zero);
    assert_eq!(with_zero, vec![5, 6]);
    let mut without = vec![1u8, 2, 3];
    truncate_at_nul(&mut without);
    assert_eq!(without, vec![1, 2, 3]);
    let mut leading = vec![0u8, 1];
    truncate_at_nul(&mut leading);
    assert!(leading.is_empty());
    let mut empty: Vec<u8> = Vec::new();
    truncate_at_nul(&mut empty);
    assert!(empty.is_empty());
}

#[test]
fn pointers_are_dereferenced() {
    let mut vm = memory();
    let mut out = vec![0u8; 4];
    vm.virt_read_ptr32_into(Pointer32 { address: 0x0ffc }, &mut out).unwrap();
    assert_eq!(out, vec![1, 2, 3, 4]);
    vm.virt_read_ptr64_into(Pointer64 { address: 0x2001 }, &mut out).unwrap();
    assert_eq!(out, vec![1, 2, 3, 4]);
    assert_eq!(vm.virt_read_ptr32(Pointer32 { address: 0x4200 }, Length(5)).unwrap(), b"hello".to_vec());
    assert_eq!(vm.virt_read_ptr64(Pointer64 { address: 0x4206 }, Length(5)).unwrap(), b"world".to_vec());
    assert_eq!(
        vm.virt_read_ptr64(Pointer64 { address: 0x0000_8000_0000_0000 }, Length(5)).unwrap_err().kind,
        ErrorKind::PartialTranslation
    );
}

#[test]
fn page_info_is_the_page_of_the_walk() {
    let mut vm = memory();
    assert_eq!(vm.virt_page_info(Address(0x2abc)).unwrap(), Page { page_type: PageType(0x07), page_size: Length(0x1000) });
    assert_eq!(vm.virt_page_info(Address(0x3000)).unwrap().page_type, PageType(0x01 | 0x04 | 0x10));
    let err = vm.virt_page_info(Address(0x1000)).unwrap_err();
    assert_eq!((err.kind, err.level), (ErrorKind::PageNotPresent, 1));
}

#[test]
fn write_lands_where_the_pages_lie() {
    let mut vm = memory();
    let data: Vec<u8> = (100..132u8).collect();
    vm.virt_write_raw(Address(0x2ff0), &data).unwrap();
    assert_eq!(vm.virt_read_raw(Address(0x2ff0), Length(32)).unwrap(), data);
    assert_eq!(vm.translator_ref().write_passes(), 1);
    let end = vm.into_inner().into_bytes();
    let before = image();
    assert_eq!(end[0x9ff0..0xa000].to_vec(), data[..16].to_vec());
    assert_eq!(end[0xa000..0xa010].to_vec(), data[16..].to_vec());
    assert_eq!(end[..0x9ff0].to_vec(), before[..0x9ff0].to_vec());
    assert_eq!(end[0xa010..].to_vec(), before[0xa010..].to_vec());
}

#[test]
fn write_with_an_unmapped_page_writes_nothing() {
    let mut vm = memory();
    let err = vm.virt_write_raw(Address(0x0ffe), &vec![7u8; 4]).unwrap_err();
    assert_eq!(err.kind, ErrorKind::PageNotPresent);
    assert_eq!(err.addr, Address(0x1000));
    assert_eq!(err.level, 1);
    assert_eq!(vm.translator_ref().write_passes(), 0);
    let err = vm.virt_write_raw(Address(0x0000_8000_0000_0000), &vec![7u8]).unwrap_err();
    assert_eq!((err.kind, err.level), (ErrorKind::AddressNonCanonical, 0));
    let err = vm.virt_write_raw(Address(0x0020_0000), &vec![7u8]).unwrap_err();
    assert_eq!((err.kind, err.level), (ErrorKind::PageNotPresent, 2));
    let batch = vec![(Address(0x2000), vec![1u8]), (Address(0x1000), vec![2u8])];
    assert_eq!(vm.virt_write_raw_iter(&batch).unwrap_err().kind, ErrorKind::PageNotPresent);
    assert_eq!(vm.into_inner().into_bytes(), image());
}

#[test]
fn batch_write_is_one_pass() {
    let mut vm = memory();
    let batch = vec![(Address(0x0ffc), vec![4u8, 3, 2, 1]), (Address(0x4200), b"HELLO".to_vec()), (Address(0x4000), Vec::new())];
    vm.virt_write_raw_iter(&batch).unwrap();
    assert_eq!(vm.translator_ref().write_passes(), 1);
    assert_eq!(vm.virt_read_cstr(Address(0x4200), Length(16)).unwrap(), "HELLO");
    assert_eq!(vm.virt_read_raw(Address(0x0ffc), Length(4)).unwrap(), vec![4, 3, 2, 1]);
}

#[test]
fn read_only_backend_refuses_writes() {
    let mut vm = VirtualFromPhysical::new(MemoryImage::new_read_only(image()), Architecture::X64, Address(0x1000));
    let err = vm.virt_write_raw(Address(0x4000), &vec![1]).unwrap_err();
    assert_eq!(err.kind, ErrorKind::PhysicalWriteError);
    assert_eq!(vm.virt_read_addr64(Address(0x4000)).unwrap(), Address(0x4100));
}

#[test]
fn vat_impl_reads_and_writes() {
    let mut vat = VatImpl::new(MemoryImage::new(image()));
    let bytes = vat.virt_read(Architecture::X64, Address(0x1000), Address(0x0ffc), Length(8)).unwrap();
    assert_eq!(bytes, vec![1, 2, 3, 4, 0, 0, 0, 0]);
    let none = vat.virt_read(Architecture::X64, Address(0x1000), Address(0x1000), Length(8)).unwrap_err();
    assert_eq!(none.kind, ErrorKind::PartialTranslation);
    assert_eq!(vat.virt_read(Architecture::X64, Address(0x1000), Address(0x1000), Length(0)).unwrap(), Vec::<u8>::new());
    let far = vat.virt_read(Architecture::X64, Address(0x1000), Address(u64::MAX), Length(2)).unwrap_err();
    assert_eq!(far.kind, ErrorKind::InvalidArgument);
    let written = vat.virt_write(Architecture::X64, Address(0x1000), Address(0x2ffe), &vec![8u8, 9, 10]).unwrap();
    assert_eq!(written, Length(3));
    assert_eq!(vat.virt_read(Architecture::X64, Address(0x1000), Address(0x2ffd), Length(5)).unwrap(), vec![(0xffd % 251) as u8, 8, 9, 10, 2]);
    let unmapped = vat.virt_write(Architecture::X64, Address(0x1000), Address(0x1000), &vec![8u8]).unwrap_err();
    assert_eq!(unmapped.kind, ErrorKind::PageNotPresent);
    assert_eq!(vat.0.write_passes(), 1);
}

#[test]
fn virtual_memory_over_a_cached_translator() {
    let tlb = TLBCache::new(16, CountCacheValidator::new(1000));
    let vat = CachedVAT::with(MemoryImage::new(image()), tlb);
    let mut vm = VirtualFromPhysical::new(vat, Architecture::X64, Address(0x1000));
    let first = vm.virt_read_raw(Address(0x2ff0), Length(0x20)).unwrap();
    let passes = vm.translator_ref().backend_ref().read_passes();
    assert_eq!(passes, 4 + 1);
    let second = vm.virt_read_raw(Address(0x2ff8), Length(0x10)).unwrap();
    assert_eq!(second, first[8..0x18].to_vec());
    assert_eq!(vm.translator_ref().backend_ref().read_passes(), passes + 1);
    assert_eq!(vm.virt_read_addr64_chain(Address(0x4000), vec![Length(0), Length(8)]).unwrap(), Address(0x2010));
}

#[test]
fn empty_write_at_an_unmapped_address_is_the_error_of_the_walk() {
    let mut vat = VatImpl::new(MemoryImage::new(image()));
    let err = vat.virt_write(Architecture::X64, Address(0x1000), Address(0x1000), &Vec::new()).unwrap_err();
    assert_eq!((err.kind, err.addr, err.level), (ErrorKind::PageNotPresent, Address(0x1000), 1));
    let err = vat.virt_write(Architecture::X64, Address(0x1000), Address(0x0020_0000), &Vec::new()).unwrap_err();
    assert_eq!((err.kind, err.addr, err.level), (ErrorKind::PageNotPresent, Address(0x0020_0000), 2));
    let err = vat.virt_write(Architecture::X64, Address(0x1000), Address(0x0000_8000_0000_0000), &Vec::new()).unwrap_err();
    assert_eq!((err.kind, err.level), (ErrorKind::AddressNonCanonical, 0));
    assert_eq!(vat.0.write_passes(), 0);
    assert_eq!(vat.0.into_bytes(), image());
}

#[test]
fn empty_write_at_a_mapped_address_writes_nothing() {
    let mut vat = VatImpl::new(MemoryImage::new(image()));
    assert_eq!(vat.virt_write(Architecture::X64, Address(0x1000), Address(0x2000), &Vec::new()).unwrap(), Length(0));
    let top = vat.virt_write(Architecture::X64, Address(0x1000), Address(u64::MAX), &Vec::new()).unwrap_err();
    assert_eq!((top.kind, top.addr, top.level), (ErrorKind::PageNotPresent, Address(u64::MAX), 4));
    assert_eq!(vat.0.into_bytes(), image());
}

#[test]
fn write_checks_its_range_and_then_its_first_address() {
    let mut vat = VatImpl::new(MemoryImage::new(image()));
    let far = vat.virt_write(Architecture::X64, Address(0x1000), Address(u64::MAX), &vec![1u8, 2]).unwrap_err();
    assert_eq!((far.kind, far.addr), (ErrorKind::InvalidArgument, Address(u64::MAX)));
    let first = vat.virt_write(Architecture::X64, Address(0x1000), Address(0x1ffe), &vec![1u8; 4]).unwrap_err();
    assert_eq!((first.kind, first.addr, first.level), (ErrorKind::PageNotPresent, Address(0x1ffe), 1));
    let later = vat.virt_write(Architecture::X64, Address(0x1000), Address(0x0ffe), &vec![1u8; 4]).unwrap_err();
    assert_eq!((later.kind, later.addr, later.level), (ErrorKind::PageNotPresent, Address(0x1000), 1));
    assert_eq!(vat.0.write_passes(), 0);
    assert_eq!(vat.0.into_bytes(), image());
}

#[test]
fn chain_error_is_that_of_the_read_that_failed() {
    let mut vm = memory();
    let err = vm.virt_read_addr64_chain(Address(0x4000), vec![Length(0), Length(0x1000), Length(8)]).unwrap_err();
    let at = vm.virt_read_addr64(Address(0x4000)).unwrap();
    let alone = vm.virt_read_addr64(at.saturating_add(Length(0x1000))).unwrap_err();
    assert_eq!((err.kind, err.addr, err.level), (alone.kind, alone.addr, alone.level));
    let err = vm.virt_read_addr32_chain(Address(0x0ffc), vec![Length(0), Length(3), Length(0)]).unwrap_err();
    assert_eq!((err.kind, err.addr), (ErrorKind::PartialTranslation, Address(0x0403_0204)));
}

#[test]
fn empty_paging_structures_map_nothing() {
    let mut vat = VatImpl::new(MemoryImage::new(vec![0u8; 65536]));
    let err = vat.virt_read(Architecture::X64, Address(0), Address(0x1000), Length(8)).unwrap_err();
    assert_eq!((err.kind, err.addr, err.level), (ErrorKind::PartialTranslation, Address(0x1000), 0));
    assert_eq!(vat.0.read_passes(), 1);
    let err = vat.virt_read(Architecture::X64, Address(0), Address(0x0ffc), Length(8)).unwrap_err();
    assert_eq!((err.kind, err.addr), (ErrorKind::PartialTranslation, Address(0x0ffc)));
    assert_eq!(vat.0.read_passes(), 2);
    let err = vat.virt_write(Architecture::X64, Address(0), Address(0x1000), &vec![1u8]).unwrap_err();
    assert_eq!((err.kind, err.addr, err.level), (ErrorKind::PageNotPresent, Address(0x1000), 4));
    assert_eq!(vat.0.read_passes(), 3);
    assert_eq!(vat.0.write_passes(), 0);
}

#[test]
fn write_translates_its_first_address_and_then_its_pages() {
    let mut vat = VatImpl::new(MemoryImage::new(image()));
    vat.virt_write(Architecture::X64, Address(0x1000), Address(0x2ffe), &vec![8u8, 9, 10]).unwrap();
    assert_eq!(vat.0.read_passes(), 4 + 4);
    assert_eq!(vat.0.write_passes(), 1);
    vat.virt_write(Architecture::X64, Address(0x1000), Address(0x2ffe), &Vec::new()).unwrap();
    assert_eq!(vat.0.read_passes(), 4 + 4 + 4);
    assert_eq!(vat.0.write_passes(), 1);
}
