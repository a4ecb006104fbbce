use flow_core::architecture::Step;
use flow_core::{
    AccessPhysicalMemory, Address, Architecture, CacheValidator, CachedMemoryAccess, CachedVAT,
    CountCacheValidator, ErrorKind, Length, MemoryImage, PageType, PhysicalAddress, TLBCache,
    Ticks, TimedCache, TimedCacheValidator, VirtualAddressTranslator,
};

fn put_u64(image: &mut Vec<u8>, at: usize, value: u64) {
    image[at..at + 8].copy_from_slice(&value.to_le_bytes());
}

fn put_u32(image: &mut Vec<u8>, at: usize, value: u32) {
    image[at..at + 4].copy_from_slice(&value.to_le_bytes());
}

/// An x86-64 address space rooted at 0x1000 that maps 0x4000 to 0x80000,
/// 0x6000 to 0x90000, 0x9000 to 0xa0000 and the 2 MiB page at 0x200000 to
/// 0x400000. The space rooted at 0x7000 has a large bit in its topmost
/// entry.
fn x64_image() -> Vec<u8> {
    let mut image = vec![0u8; 0x10_0000];
    put_u64(&mut image, 0x1000, 0x2000 | 0x3);
    put_u64(&mut image, 0x2000, 0x3000 | 0x3);
    put_u64(&mut image, 0x3000, 0x5000 | 0x3);
    put_u64(&mut image, 0x3000 + 8, 0x40_0000 | 0x83);
    put_u64(&mut image, 0x3000 + 16, 0x60_2000 | 0x83);
    put_u64(&mut image, 0x3000 + 24, 0x80_1000 | 0x83);
    put_u64(&mut image, 0x5000 + 4 * 8, 0x8_0000 | 0x3);
    put_u64(&mut image, 0x5000 + 6 * 8, 0x9_0000 | 0x1 | (1u64 << 63));
    put_u64(&mut image, 0x5000 + 9 * 8, 0xa_0000 | 0x13);
    put_u64(&mut image, 0x7000, 0x2000 | 0x83);
    image
}

fn cached(valid_count: u64, slots: usize) -> CachedVAT<MemoryImage, CountCacheValidator> {
    let tlb = TLBCache::new(slots, CountCacheValidator::new(valid_count));
    CachedVAT::with(MemoryImage::new(x64_image()), tlb)
}

fn sorted(mut results: Vec<flow_core::architecture::Translation>) -> Vec<flow_core::architecture::Translation> {
    results.sort_by_key(|r| (r.2, r.1 .0));
    results
}

#[test]
fn raw_walk_translates_small_page() {
    let mut mem = MemoryImage::new(x64_image());
    let found = Architecture::X64
        .virt_to_phys(&mut mem, Address(0x1000), Address(0x4abc))
        .unwrap();
    assert_eq!(found.address, Address(0x80abc));
    assert_eq!(found.page.page_size, Length(0x1000));
    assert_eq!(found.page.page_type, PageType(0x01 | 0x02 | 0x04));
    assert_eq!(mem.read_passes(), 4);
}

#[test]
fn leaf_flags_become_page_type() {
    let mut mem = MemoryImage::new(x64_image());
    let read_only = Architecture::X64
        .virt_to_phys(&mut mem, Address(0x1000), Address(0x6000))
        .unwrap();
    assert_eq!(read_only.address, Address(0x90000));
    assert_eq!(read_only.page.page_type, PageType(0x01 | 0x10));
    let uncached = Architecture::X64
        .virt_to_phys(&mut mem, Address(0x1000), Address(0x9008))
        .unwrap();
    assert_eq!(uncached.address, Address(0xa0008));
    assert_eq!(uncached.page.page_type, PageType(0x01 | 0x02 | 0x04 | 0x08));
}

#[test]
fn hit_then_miss() {
    let mut vat = cached(100, 4);
    assert_eq!(vat.tlb_ref().slots(), 4);
    let mut out = Vec::new();
    vat.virt_to_phys_tagged(Architecture::X64, Address(0x1000), &[(Address(0x4000), 7)], &mut out);
    assert_eq!(out.len(), 1);
    assert_eq!(out[0].0.unwrap().address, Address(0x80000));
    assert_eq!(out[0].1, Address(0x4000));
    assert_eq!(out[0].2, 7);
    let walked = vat.backend_ref().read_passes();
    assert_eq!(walked, 4);
    vat.virt_to_phys_tagged(Architecture::X64, Address(0x1000), &[(Address(0x4000), 8)], &mut out);
    assert_eq!(out.len(), 2);
    assert_eq!(out[1].0.unwrap().address, Address(0x80000));
    assert_eq!(out[1].2, 8);
    assert_eq!(vat.backend_ref().read_passes(), walked);
    assert_eq!(vat.tlb_ref().slots(), 4);
}

#[test]
fn validator_bump() {
    let mut vat = cached(2, 4);
    let batch = [(Address(0x4000), 0), (Address(0x4010), 1)];
    let mut first = Vec::new();
    vat.virt_to_phys_tagged(Architecture::X64, Address(0x1000), &batch, &mut first);
    let walked = vat.backend_ref().read_passes();
    assert_eq!(walked, 4);
    let mut none = Vec::new();
    vat.virt_to_phys_tagged(Architecture::X64, Address(0x1000), &[], &mut none);
    assert!(none.is_empty());
    assert_eq!(vat.backend_ref().read_passes(), walked);
    let mut second = Vec::new();
    vat.virt_to_phys_tagged(Architecture::X64, Address(0x1000), &batch, &mut second);
    assert_eq!(vat.backend_ref().read_passes(), 2 * walked);
    assert_eq!(first, second);
}

#[test]
fn large_page() {
    let mut mem = MemoryImage::new(x64_image());
    let found = Architecture::X64
        .virt_to_phys(&mut mem, Address(0x1000), Address(0x0020_0123))
        .unwrap();
    assert_eq!(found.page.page_size, Length(2 * 1024 * 1024));
    assert_eq!(found.address, Address(0x40_0000 + 0x123));
    assert_eq!(mem.read_passes(), 3);
    let step = Architecture::X64.decode_entry(0x40_0000 | 0x83, Address(0x0020_0123), 2);
    match step {
        Step::Leaf(leaf) => assert_eq!(leaf, found),
        other => panic!("not a leaf: {:?}", other),
    }
}

#[test]
fn large_page_through_the_cache_keeps_its_size() {
    let mut vat = cached(100, 8);
    let mut out = Vec::new();
    vat.virt_to_phys_tagged(Architecture::X64, Address(0x1000), &[(Address(0x0020_0123), 0)], &mut out);
    vat.virt_to_phys_tagged(Architecture::X64, Address(0x1000), &[(Address(0x0020_0456), 1)], &mut out);
    assert_eq!(vat.backend_ref().read_passes(), 3);
    let second = out[1].0.unwrap();
    assert_eq!(second.address, Address(0x40_0456));
    assert_eq!(second.page.page_size, Length(0x20_0000));
    vat.virt_to_phys_tagged(Architecture::X64, Address(0x1000), &[(Address(0x0020_1456), 2)], &mut out);
    assert_eq!(out[2].0.unwrap().address, Address(0x40_1456));
    assert_eq!(vat.backend_ref().read_passes(), 6);
}

#[test]
fn unmapped_address_is_not_present() {
    let mut mem = MemoryImage::new(x64_image());
    let err = Architecture::X64
        .virt_to_phys(&mut mem, Address(0x1000), Address(0x7000))
        .unwrap_err();
    assert_eq!(err.kind, ErrorKind::PageNotPresent);
    assert_eq!(err.addr, Address(0x7000));
    assert_eq!(err.level, 1);
    assert_eq!(mem.len(), 0x10_0000);
}

#[test]
fn reserved_bits_are_invalid_entries() {
    let mut mem = MemoryImage::new(x64_image());
    let top = Architecture::X64
        .virt_to_phys(&mut mem, Address(0x7000), Address(0))
        .unwrap_err();
    assert_eq!(top.kind, ErrorKind::InvalidEntry);
    assert_eq!(top.level, 4);
    let misaligned = Architecture::X64
        .virt_to_phys(&mut mem, Address(0x1000), Address(0x0040_0000))
        .unwrap_err();
    assert_eq!(misaligned.kind, ErrorKind::InvalidEntry);
    assert_eq!(misaligned.level, 2);
    assert_eq!(misaligned.addr, Address(0x0040_0000));
    let attribute = Architecture::X64
        .virt_to_phys(&mut mem, Address(0x1000), Address(0x0060_0040))
        .unwrap();
    assert_eq!(attribute.address, Address(0x80_0040));
}

#[test]
fn non_canonical_address_is_refused_without_a_read() {
    let mut mem = MemoryImage::new(x64_image());
    let err = Architecture::X64
        .virt_to_phys(&mut mem, Address(0x1000), Address(0x0000_8000_0000_0000))
        .unwrap_err();
    assert_eq!(err.kind, ErrorKind::AddressNonCanonical);
    assert_eq!(mem.read_passes(), 0);
    let high = Architecture::X64
        .virt_to_phys(&mut mem, Address(0x1000), Address(0xffff_8000_0000_0000))
        .unwrap_err();
    assert_eq!(high.kind, ErrorKind::PageNotPresent);
    assert_eq!(high.level, 4);
    let wide = Architecture::X86
        .virt_to_phys(&mut mem, Address(0x1000), Address(0x1_0000_0000))
        .unwrap_err();
    assert_eq!(wide.kind, ErrorKind::AddressNonCanonical);
}

#[test]
fn entry_outside_memory_is_a_read_error() {
    let mut mem = MemoryImage::new(x64_image());
    let err = Architecture::X64
        .virt_to_phys(&mut mem, Address(0x20_0000), Address(0x4000))
        .unwrap_err();
    assert_eq!(err.kind, ErrorKind::PhysicalReadError);
    assert_eq!(err.addr, Address(0x4000));
    assert_eq!(err.level, 4);
}

#[test]
fn failures_do_not_stop_a_batch() {
    let mut mem = MemoryImage::new(x64_image());
    let batch = [
        (Address(0x7000), 0),
        (Address(0x4008), 1),
        (Address(0x0000_8000_0000_0000), 2),
        (Address(0x0020_0000), 3),
    ];
    let mut out = vec![(Ok(PhysicalAddress::from_address(Address(1))), Address(2), 3)];
    Architecture::X64.virt_to_phys_tagged(&mut mem, Address(0x1000), &batch, &mut out);
    assert_eq!(out.len(), 5);
    assert_eq!(out[0], (Ok(PhysicalAddress::from_address(Address(1))), Address(2), 3));
    assert_eq!(out[1].0.unwrap_err().kind, ErrorKind::PageNotPresent);
    assert_eq!(out[2].0.unwrap().address, Address(0x80008));
    assert_eq!(out[3].0.unwrap_err().kind, ErrorKind::AddressNonCanonical);
    assert_eq!(out[4].0.unwrap().address, Address(0x40_0000));
    for (k, item) in batch.iter().enumerate() {
        assert_eq!(out[k + 1].1, item.0);
        assert_eq!(out[k + 1].2, item.1);
    }
    assert_eq!(mem.read_passes(), 4);
}

#[test]
fn payloads_travel_with_their_addresses() {
    let mut mem = MemoryImage::new(x64_image());
    let batch = vec![
        (Address(0x4008), String::from("first")),
        (Address(0x7000), String::from("second")),
        (Address(0x6010), String::from("third")),
    ];
    let mut out = Vec::new();
    Architecture::X64.virt_to_phys_iter(&mut mem, Address(0x1000), batch, &mut out);
    assert_eq!(out.len(), 3);
    assert_eq!(out[0].0.unwrap().address, Address(0x80008));
    assert_eq!((out[0].1, out[0].2.as_str()), (Address(0x4008), "first"));
    assert_eq!(out[1].0.unwrap_err().kind, ErrorKind::PageNotPresent);
    assert_eq!((out[1].1, out[1].2.as_str()), (Address(0x7000), "second"));
    assert_eq!(out[2].0.unwrap().address, Address(0x90010));
    assert_eq!((out[2].1, out[2].2.as_str()), (Address(0x6010), "third"));
    assert_eq!(mem.read_passes(), 4);
}

#[test]
fn payloads_travel_through_the_cache() {
    let mut vat = cached(1000, 16);
    let mut out: Vec<(_, _, Vec<u8>)> = Vec::new();
    vat.virt_to_phys_iter(Architecture::X64, Address(0x1000), vec![(Address(0x6000), vec![6u8])], &mut out);
    let batch = vec![(Address(0x4000), vec![4u8; 2]), (Address(0x6008), vec![6u8; 3]), (Address(0x7000), Vec::new())];
    vat.virt_to_phys_iter(Architecture::X64, Address(0x1000), batch, &mut out);
    assert_eq!(out.len(), 4);
    assert_eq!((out[1].0.unwrap().address, out[1].1, out[1].2.clone()), (Address(0x90008), Address(0x6008), vec![6u8; 3]));
    assert_eq!((out[2].0.unwrap().address, out[2].1, out[2].2.clone()), (Address(0x80000), Address(0x4000), vec![4u8; 2]));
    assert_eq!(out[3].0.unwrap_err().kind, ErrorKind::PageNotPresent);
    assert_eq!((out[3].1, out[3].2.len()), (Address(0x7000), 0));
    let mut none: Vec<(_, _, ())> = Vec::new();
    vat.virt_to_phys_iter(Architecture::X64, Address(0x1000), Vec::new(), &mut none);
    assert!(none.is_empty());
}

#[test]
fn hit_in_the_same_page_needs_no_backend() {
    let mut vat = cached(100, 4);
    let mut first = Vec::new();
    vat.virt_to_phys_iter(Architecture::X64, Address(0x1000), vec![(Address(0x4000), 0u8)], &mut first);
    assert_eq!(first[0].0.unwrap().address, Address(0x80000));
    let walked = vat.backend_ref().read_passes();
    let mut second = Vec::new();
    vat.virt_to_phys_iter(Architecture::X64, Address(0x1000), vec![(Address(0x4123), 1u8)], &mut second);
    assert_eq!(second.len(), 1);
    assert_eq!(second[0].0.unwrap().address, Address(0x80123));
    assert_eq!((second[0].1, second[0].2), (Address(0x4123), 1));
    assert_eq!(second[0].0.unwrap().page, first[0].0.unwrap().page);
    assert_eq!(vat.backend_ref().read_passes(), walked);
}

#[test]
fn cached_translation_equals_raw_walk() {
    let addrs = [
        Address(0x4000),
        Address(0x4fff),
        Address(0x6123),
        Address(0x7000),
        Address(0x0020_0123),
        Address(0x0000_8000_0000_0000),
        Address(0x4000),
    ];
    let mut raw = MemoryImage::new(x64_image());
    let mut vat = cached(1000, 16);
    for round in 0..3 {
        for (i, addr) in addrs.iter().enumerate() {
            let expected = Architecture::X64.virt_to_phys(&mut raw, Address(0x1000), *addr);
            let found = vat.virt_to_phys(Architecture::X64, Address(0x1000), *addr);
            assert_eq!(found, expected, "round {} address {}", round, i);
        }
    }
}

#[test]
fn batch_is_idempotent_between_bumps() {
    let mut vat = cached(1000, 16);
    let batch = [(Address(0x4010), 0), (Address(0x6020), 1), (Address(0x9030), 2), (Address(0x4040), 3)];
    let mut first = Vec::new();
    vat.virt_to_phys_tagged(Architecture::X64, Address(0x1000), &batch, &mut first);
    let walked = vat.backend_ref().read_passes();
    assert_eq!(walked, 4);
    let mut second = Vec::new();
    vat.virt_to_phys_tagged(Architecture::X64, Address(0x1000), &batch, &mut second);
    assert_eq!(vat.backend_ref().read_passes(), walked);
    assert_eq!(sorted(first.clone()), sorted(second.clone()));
    assert_eq!(first.len(), 4);
    assert_eq!(sorted(first)[2].0.unwrap().address, Address(0xa0030));
}

#[test]
fn hits_come_before_misses() {
    let mut vat = cached(1000, 16);
    let mut out = Vec::new();
    vat.virt_to_phys_tagged(Architecture::X64, Address(0x1000), &[(Address(0x6000), 9)], &mut out);
    out.clear();
    let batch = [(Address(0x4000), 0), (Address(0x6008), 1), (Address(0x7000), 2)];
    vat.virt_to_phys_tagged(Architecture::X64, Address(0x1000), &batch, &mut out);
    assert_eq!(out.len(), 3);
    assert_eq!(out[0].2, 1);
    assert_eq!(out[0].0.unwrap().address, Address(0x90008));
    assert_eq!(out[1].2, 0);
    assert_eq!(out[2].2, 2);
    assert_eq!(out[2].0.unwrap_err().kind, ErrorKind::PageNotPresent);
}

#[test]
fn failed_translations_are_not_cached() {
    let mut vat = cached(1000, 16);
    let mut out = Vec::new();
    vat.virt_to_phys_tagged(Architecture::X64, Address(0x1000), &[(Address(0x7000), 0)], &mut out);
    let walked = vat.backend_ref().read_passes();
    vat.virt_to_phys_tagged(Architecture::X64, Address(0x1000), &[(Address(0x7000), 0)], &mut out);
    assert_eq!(vat.backend_ref().read_passes(), 2 * walked);
    assert_eq!(out[0], out[1]);
}

#[test]
fn colliding_pages_evict_each_other() {
    let mut vat = cached(1000, 1);
    let batch = [(Address(0x4000), 0), (Address(0x6000), 1)];
    let mut out = Vec::new();
    vat.virt_to_phys_tagged(Architecture::X64, Address(0x1000), &batch, &mut out);
    assert_eq!(vat.backend_ref().read_passes(), 4);
    out.clear();
    vat.virt_to_phys_tagged(Architecture::X64, Address(0x1000), &batch, &mut out);
    assert_eq!(vat.backend_ref().read_passes(), 8);
    assert_eq!(out.len(), 2);
    assert_eq!(out[0].2, 1);
    assert_eq!(out[0].0.unwrap().address, Address(0x90000));
    assert_eq!(out[1].2, 0);
    assert_eq!(out[1].0.unwrap().address, Address(0x80000));
}

#[test]
fn address_spaces_do_not_share_translations() {
    let mut image = x64_image();
    put_u64(&mut image, 0x8000, 0x2000 | 0x3);
    let tlb = TLBCache::new(8, CountCacheValidator::new(1000));
    let mut vat = CachedVAT::with(MemoryImage::new(image), tlb);
    let first = vat.virt_to_phys(Architecture::X64, Address(0x1000), Address(0x4000)).unwrap();
    let other = vat.virt_to_phys(Architecture::X64, Address(0x7000), Address(0x4000)).unwrap_err();
    assert_eq!(first.address, Address(0x80000));
    assert_eq!(other.kind, ErrorKind::InvalidEntry);
    let same = vat.virt_to_phys(Architecture::X64, Address(0x8000), Address(0x4000)).unwrap();
    assert_eq!(same.address, Address(0x80000));
    assert_eq!(vat.backend_ref().read_passes(), 4 + 1 + 4);
}

#[test]
fn tlb_entry_lives_until_the_generation_changes() {
    let mut tlb = TLBCache::new(4, CountCacheValidator::new(2));
    let page = Length(0x1000);
    let paddr = PhysicalAddress::with_page(Address(0x80123), PageType(0x3), page);
    assert_eq!(tlb.try_entry(Address(0x1000), Address(0x4123), page), None);
    tlb.cache_entry(Address(0x1000), Address(0x4123), paddr, page);
    let hit = tlb.try_entry(Address(0x1000), Address(0x4ff0), page).unwrap();
    assert_eq!(hit.phys_addr.address, Address(0x80ff0));
    assert_eq!(hit.phys_addr.page, paddr.page);
    assert_eq!(hit.virt_addr, Address(0x4ff0));
    assert_eq!(hit.dtb, Address(0x1000));
    assert_eq!(tlb.try_entry(Address(0x2000), Address(0x4123), page), None);
    assert_eq!(tlb.try_entry(Address(0x1000), Address(0x5123), page), None);
    tlb.update_validity();
    assert!(tlb.try_entry(Address(0x1000), Address(0x4123), page).is_some());
    tlb.update_validity();
    assert_eq!(tlb.try_entry(Address(0x1000), Address(0x4123), page), None);
}

#[test]
fn count_validator_counts() {
    let mut v = CountCacheValidator::new(3);
    assert_eq!(v.current_token(), 0);
    v.update_validity();
    v.update_validity();
    assert_eq!(v.current_token(), 0);
    assert!(v.is_valid(0));
    v.update_validity();
    assert_eq!(v.current_token(), 1);
    assert!(!v.is_valid(0));
    let mut every = CountCacheValidator::new(0);
    every.update_validity();
    assert_eq!(every.current_token(), 1);
}

#[test]
fn timed_validator_follows_the_clock() {
    let start = Ticks(1_000);
    let mut v = TimedCacheValidator::with_time(Ticks(100), start);
    v.update_validity_with_time(Ticks(1_099));
    assert_eq!(v.current_token(), 0);
    v.update_validity_with_time(Ticks(1_100));
    assert_eq!(v.current_token(), 1);
    v.update_validity_with_time(Ticks(1_150));
    assert_eq!(v.current_token(), 1);
    v.update_validity_with_time(Ticks(500));
    assert_eq!(v.current_token(), 1);
    v.update_validity_with_time(Ticks(1_200));
    assert_eq!(v.current_token(), 2);
    let mut now = TimedCacheValidator::new(Ticks(u64::MAX));
    now.update_validity();
    assert_eq!(now.current_token(), 0);
}

#[test]
fn x86_two_level_walk() {
    let mut image = vec![0u8; 0x10000];
    put_u32(&mut image, 0x1000 + 4, 0x2000 | 0x3);
    put_u32(&mut image, 0x2000 + 12, 0x9000 | 0x3);
    put_u32(&mut image, 0x1000 + 8, 0x00c0_0000 | 0x83);
    put_u32(&mut image, 0x1000 + 12, 0x00c0_2000 | 0x83);
    let mut mem = MemoryImage::new(image);
    let small = Architecture::X86.virt_to_phys(&mut mem, Address(0x1000), Address(0x0040_3abc)).unwrap();
    assert_eq!(small.address, Address(0x9abc));
    assert_eq!(small.page.page_size, Length(0x1000));
    assert_eq!(mem.read_passes(), 2);
    let large = Architecture::X86.virt_to_phys(&mut mem, Address(0x1000), Address(0x0080_0123)).unwrap();
    assert_eq!(large.address, Address(0x00c0_0123));
    assert_eq!(large.page.page_size, Length(0x40_0000));
    let bad = Architecture::X86.virt_to_phys(&mut mem, Address(0x1000), Address(0x00c0_0000)).unwrap_err();
    assert_eq!(bad.kind, ErrorKind::InvalidEntry);
    assert_eq!(Architecture::X86.levels(), 2);
    assert_eq!(Architecture::X86.entry_size(), 4);
    assert_eq!(Architecture::X86.bits(), 32);
}

#[test]
fn pae_three_level_walk() {
    let mut image = vec![0u8; 0x10000];
    put_u64(&mut image, 0x1020 + 8, 0x2000 | 0x1);
    put_u64(&mut image, 0x2000, 0x3000 | 0x3);
    put_u64(&mut image, 0x3000 + 5 * 8, 0xa000 | 0x3);
    put_u64(&mut image, 0x2000 + 8, 0x0020_0000 | 0x83);
    let mut mem = MemoryImage::new(image);
    let small = Architecture::X86Pae.virt_to_phys(&mut mem, Address(0x1027), Address(0x4000_5abc)).unwrap();
    assert_eq!(small.address, Address(0xaabc));
    assert_eq!(mem.read_passes(), 3);
    let large = Architecture::X86Pae.virt_to_phys(&mut mem, Address(0x1020), Address(0x4020_0010)).unwrap();
    assert_eq!(large.address, Address(0x0020_0010));
    assert_eq!(large.page.page_size, Length(0x20_0000));
    assert_eq!(Architecture::X86Pae.levels(), 3);
    assert_eq!(Architecture::X86Pae.page_size(), Length(4096));
    assert_eq!(Architecture::X64.levels(), 4);
    assert_eq!(Architecture::X64.entry_size(), 8);
    assert_eq!(Architecture::X64.bits(), 64);
}

#[test]
fn page_tables_come_from_the_page_cache() {
    let millis = Ticks::from_millis(60_000);
    let cache = TimedCache::new(Architecture::X64, Length(16 * 4096), millis, PageType(0x01));
    let paged = CachedMemoryAccess::with(MemoryImage::new(x64_image()), cache);
    let tlb = TLBCache::new(8, CountCacheValidator::new(1));
    let mut vat = CachedVAT::with(paged, tlb);
    let first = vat.virt_to_phys(Architecture::X64, Address(0x1000), Address(0x4000)).unwrap();
    let fetched = vat.backend_ref().backend_ref().read_passes();
    assert_eq!(fetched, 4);
    let second = vat.virt_to_phys(Architecture::X64, Address(0x1000), Address(0x4000)).unwrap();
    assert_eq!(first, second);
    assert_eq!(vat.backend_ref().backend_ref().read_passes(), fetched);
    let third = vat.virt_to_phys(Architecture::X64, Address(0x1000), Address(0x6000)).unwrap();
    assert_eq!(third.address, Address(0x90000));
    assert_eq!(vat.backend_ref().backend_ref().read_passes(), fetched);
    let mem = vat.into_inner().into_inner();
    assert_eq!(mem.write_passes(), 0);
    assert_eq!(mem.into_bytes().len(), 0x10_0000);
}

#[test]
fn writes_pass_through_the_translator() {
    let mut vat = cached(1000, 4);
    let before = vat.virt_to_phys(Architecture::X64, Address(0x1000), Address(0x4000)).unwrap();
    assert_eq!(before.address, Address(0x80000));
    let entry = (0xb_0000u64 | 0x3).to_le_bytes().to_vec();
    let batch = vec![(PhysicalAddress::from_address(Address(0x5000 + 4 * 8)), entry.clone())];
    vat.phys_write_raw_iter(&batch).unwrap();
    let mut back = vec![(PhysicalAddress::from_address(Address(0x5000 + 4 * 8)), vec![0u8; 8])];
    vat.phys_read_raw_iter(&mut back).unwrap();
    assert_eq!(back[0].1, entry);
    assert_eq!(vat.backend_ref().write_passes(), 1);
    let mut raw = vat.into_inner();
    let after = Architecture::X64.virt_to_phys(&mut raw, Address(0x1000), Address(0x4000)).unwrap();
    assert_eq!(after.address, Address(0xb0000));
}

#[test]
fn failed_read_ends_every_walk_that_is_under_way() {
    let mut image = x64_image();
    put_u64(&mut image, 0x3000 + 5 * 8, 0x20_0000 | 0x3);
    let mut mem = MemoryImage::new(image);
    let batch = [
        (Address(0x00a0_0000), 0),
        (Address(0x4000), 1),
        (Address(0x0020_0000), 2),
        (Address(0x0000_8000_0000_0000), 3),
        (Address(0x0080_0000_0000), 4),
    ];
    let mut out = Vec::new();
    Architecture::X64.virt_to_phys_tagged(&mut mem, Address(0x1000), &batch, &mut out);
    assert_eq!(out.len(), 5);
    let beyond = out[0].0.unwrap_err();
    assert_eq!((beyond.kind, beyond.addr, beyond.level), (ErrorKind::PhysicalReadError, Address(0x00a0_0000), 1));
    let with_it = out[1].0.unwrap_err();
    assert_eq!((with_it.kind, with_it.addr, with_it.level), (ErrorKind::PhysicalReadError, Address(0x4000), 1));
    assert_eq!(out[2].0.unwrap().address, Address(0x40_0000));
    assert_eq!(out[3].0.unwrap_err().kind, ErrorKind::AddressNonCanonical);
    let absent = out[4].0.unwrap_err();
    assert_eq!((absent.kind, absent.level), (ErrorKind::PageNotPresent, 4));
    assert_eq!(mem.read_passes(), 4);
    let alone = Architecture::X64.virt_to_phys(&mut mem, Address(0x1000), Address(0x4000)).unwrap();
    assert_eq!(alone.address, Address(0x8_0000));
    assert_eq!(mem.read_passes(), 8);
}

#[test]
fn walk_reads_one_batch_for_each_level_it_comes_to() {
    let mut mem = MemoryImage::new(x64_image());
    let mut out = Vec::new();
    Architecture::X64.virt_to_phys_tagged(&mut mem, Address(0x1000), &[(Address(0x0020_0000), 0)], &mut out);
    assert_eq!(out[0].0.unwrap().address, Address(0x40_0000));
    assert_eq!(mem.read_passes(), 3);
    Architecture::X64.virt_to_phys_tagged(&mut mem, Address(0x1000), &[(Address(0x0080_0000_0000), 0)], &mut out);
    assert_eq!(mem.read_passes(), 4);
    Architecture::X64.virt_to_phys_tagged(&mut mem, Address(0x1000), &[(Address(0x0000_8000_0000_0000), 0)], &mut out);
    assert_eq!(mem.read_passes(), 4);
    Architecture::X64.virt_to_phys_tagged(&mut mem, Address(0x20_0000), &[(Address(0x4000), 0)], &mut out);
    assert_eq!(mem.read_passes(), 5);
}
