use flow_core::{
    AccessPhysicalMemory, Address, Architecture, CacheEntry, CachedMemoryAccess, ErrorKind, Length,
    MemoryImage, PageType, PhysicalAddress, Ticks, TimedCache,
};

const PAGE: u64 = 4096;

fn cache(slots: u64, window: Ticks, mask: u8) -> TimedCache {
    TimedCache::new(Architecture::X64, Length(slots * PAGE), window, PageType(mask))
}

fn numbered_image(pages: usize) -> Vec<u8> {
    let mut image = vec![0u8; pages * PAGE as usize];
    for (i, byte) in image.iter_mut().enumerate() {
        *byte = ((i / PAGE as usize) as u8).wrapping_mul(16).wrapping_add((i % 13) as u8);
    }
    image
}

fn request(addr: u64, len: usize, page_type: u8) -> (PhysicalAddress, Vec<u8>) {
    (PhysicalAddress::with_page(Address(addr), PageType(page_type), Length(PAGE)), vec![0xee; len])
}

#[test]
fn new_cache_is_empty_and_zeroed() {
    let mut c = cache(3, Ticks(10), 0x01);
    assert_eq!(c.slots(), 3);
    assert_eq!(c.page_size(), Length(PAGE));
    for idx in 0..3 {
        let (page, tag, _) = c.page_and_info_from_index(idx);
        assert_eq!(tag, Address::invalid());
        assert_eq!(page, vec![0u8; PAGE as usize]);
    }
    let entry = c.cached_page_mut(Address(0x5123));
    assert_eq!(entry, CacheEntry { valid: false, address: Address(0x5000), index: 2 });
    let not_whole = TimedCache::new(Architecture::X64, Length(2 * PAGE + 100), Ticks(0), PageType(0));
    assert_eq!(not_whole.slots(), 2);
}

#[test]
fn cached_page_type_follows_the_mask() {
    let c = cache(1, Ticks(10), 0x01 | 0x04);
    assert!(c.is_cached_page_type(PageType(0x01)));
    assert!(c.is_cached_page_type(PageType(0x05)));
    assert!(c.is_cached_page_type(PageType::none()));
    assert!(!c.is_cached_page_type(PageType(0x03)));
    assert!(!c.is_cached_page_type(PageType::all()));
}

#[test]
fn entries_are_page_aligned() {
    let mut c = cache(4, Ticks(10), 0x01);
    for addr in [0u64, 1, 4095, 4096, 0x1234_5678, u64::MAX] {
        let entry = c.cached_page_mut(Address(addr));
        assert_eq!(entry.address.0 % PAGE, 0);
        assert!(entry.address.0 <= addr && addr - entry.address.0 < PAGE);
        assert_eq!(entry.index as u64, (addr / PAGE) % 4);
        assert_eq!(c.page_from_index(entry.index).len() as u64, PAGE);
    }
}

#[test]
fn page_cache_expiry() {
    let window = Ticks::from_millis(100);
    let later = Ticks::from_millis(150);
    let sooner = Ticks::from_millis(50);
    assert!(sooner.0 < window.0 && window.0 < later.0);
    let mut c = cache(4, window, 0x01);
    let start = Ticks(1 << 40);
    assert!(c.try_page_with_time(Address(0x3010), start).is_err());
    c.fill_page(3, &vec![7u8; PAGE as usize]);
    c.validate_page_with_time(Address(0x3010), PageType(0x01), start);
    assert_eq!(c.try_page_with_time(Address(0x3fff), start), Ok(3));
    assert_eq!(c.try_page_with_time(Address(0x3000), Ticks(start.0 + sooner.0)), Ok(3));
    assert_eq!(c.try_page_with_time(Address(0x3000), Ticks(start.0 + window.0)), Ok(3));
    assert_eq!(c.try_page_with_time(Address(0x3000), Ticks(start.0 + window.0 + 1)), Err(3));
    assert_eq!(c.try_page_with_time(Address(0x3000), Ticks(start.0 + later.0)), Err(3));
    assert_eq!(c.try_page_with_time(Address(0x3000), Ticks(start.0 - 5)), Ok(3));
    let entry = c.cached_page_mut_with_time(Address(0x3abc), Ticks(start.0 + later.0));
    assert_eq!(entry, CacheEntry { valid: false, address: Address(0x3000), index: 3 });
    assert_eq!(c.page_range(3, 10, 2), vec![7u8, 7]);
}

#[test]
fn validate_and_invalidate_respect_the_page_type() {
    let mut c = cache(2, Ticks(1000), 0x01);
    let now = Ticks(50);
    c.validate_page_with_time(Address(0x2000), PageType(0x02), now);
    assert_eq!(c.try_page_with_time(Address(0x2000), now), Err(0));
    c.validate_page_with_time(Address(0x2000), PageType(0x01), now);
    assert_eq!(c.try_page_with_time(Address(0x2000), now), Ok(0));
    let (_, tag, stamp) = c.page_and_info_from_index(0);
    assert_eq!((tag, stamp), (Address(0x2000), now));
    c.invalidate_page(Address(0x2008), PageType(0x02));
    assert_eq!(c.try_page_with_time(Address(0x2000), now), Ok(0));
    c.invalidate_page(Address(0x2008), PageType(0x01));
    assert_eq!(c.try_page_with_time(Address(0x2000), now), Err(0));
    let (_, tag, stamp) = c.page_and_info_from_index(0);
    assert_eq!((tag, stamp), (Address::invalid(), now));
    c.validate_page(Address(0x3000), PageType(0x01));
    assert!(c.cached_page_mut(Address(0x3000)).valid);
}

#[test]
fn cached_reads_expire_with_time() {
    let image = numbered_image(8);
    let window = Ticks::from_millis(100);
    let mut mem = CachedMemoryAccess::with(MemoryImage::new(image.clone()), cache(4, window, 0x01));
    let start = Ticks(1 << 40);
    let mut batch = vec![request(0x3010, 32, 0x01)];
    mem.phys_read_raw_iter_with_time(&mut batch, start).unwrap();
    assert_eq!(batch[0].1, image[0x3010..0x3030].to_vec());
    assert_eq!(mem.backend_ref().read_passes(), 1);
    let mut again = vec![request(0x3800, 16, 0x01)];
    mem.phys_read_raw_iter_with_time(&mut again, Ticks(start.0 + Ticks::from_millis(50).0)).unwrap();
    assert_eq!(again[0].1, image[0x3800..0x3810].to_vec());
    assert_eq!(mem.backend_ref().read_passes(), 1);
    let mut late = vec![request(0x3010, 32, 0x01)];
    mem.phys_read_raw_iter_with_time(&mut late, Ticks(start.0 + Ticks::from_millis(150).0)).unwrap();
    assert_eq!(late[0].1, batch[0].1);
    assert_eq!(mem.backend_ref().read_passes(), 2);
    assert_eq!(mem.cache_ref().slots(), 4);
}

#[test]
fn direct_map_collision() {
    let image = numbered_image(8);
    let mut mem = CachedMemoryAccess::with(MemoryImage::new(image.clone()), cache(2, Ticks(u64::MAX), 0x01));
    let a: u64 = 0x2000;
    let now = Ticks(77);
    let mut passes = 0;
    for round in 0..3 {
        for page in [a, a + 2 * PAGE, a + 4 * PAGE] {
            let mut batch = vec![request(page + 8, 8, 0x01)];
            mem.phys_read_raw_iter_with_time(&mut batch, now).unwrap();
            let at = (page + 8) as usize;
            assert_eq!(batch[0].1, image[at..at + 8].to_vec(), "round {}", round);
            passes += 1;
            assert_eq!(mem.backend_ref().read_passes(), passes);
        }
    }
    let mut other = vec![request(a + PAGE, 8, 0x01)];
    mem.phys_read_raw_iter_with_time(&mut other, now).unwrap();
    mem.phys_read_raw_iter_with_time(&mut other, now).unwrap();
    assert_eq!(mem.backend_ref().read_passes(), passes + 1);
}

#[test]
fn reads_that_the_cache_does_not_serve() {
    let image = numbered_image(4);
    let mut mem = CachedMemoryAccess::with(MemoryImage::new(image.clone()), cache(2, Ticks(u64::MAX), 0x01));
    let now = Ticks(5);
    let mut batch = vec![
        request(0x1ff8, 16, 0x01),
        request(0x2000, 8, 0x02),
        request(0x0010, 8, 0x01),
        request(0x3000, 0, 0x01),
    ];
    mem.phys_read_raw_iter_with_time(&mut batch, now).unwrap();
    assert_eq!(batch[0].1, image[0x1ff8..0x2008].to_vec());
    assert_eq!(batch[1].1, image[0x2000..0x2008].to_vec());
    assert_eq!(batch[2].1, image[0x10..0x18].to_vec());
    assert_eq!(batch[3].1, Vec::<u8>::new());
    assert_eq!(mem.backend_ref().read_passes(), 4);
    mem.phys_read_raw_iter_with_time(&mut batch, now).unwrap();
    assert_eq!(batch[2].1, image[0x10..0x18].to_vec());
    assert_eq!(mem.backend_ref().read_passes(), 7);
}

#[test]
fn read_after_write_sees_the_write() {
    let image = numbered_image(4);
    let mut mem = CachedMemoryAccess::with(MemoryImage::new(image.clone()), cache(2, Ticks(u64::MAX), 0x01));
    let mut warm = vec![request(0x1010, 8, 0x01), request(0x2ff0, 8, 0x01)];
    mem.phys_read_raw_iter(&mut warm).unwrap();
    let data: Vec<u8> = (0..0x30u8).collect();
    let write = vec![(PhysicalAddress::with_page(Address(0x1ff0), PageType(0x02), Length(PAGE)), data.clone())];
    mem.phys_write_raw_iter(&write).unwrap();
    let mut back = vec![request(0x1ff0, 0x30, 0x01)];
    mem.phys_read_raw_iter(&mut back).unwrap();
    assert_eq!(back[0].1, data);
    let mut parts = vec![request(0x1ff0, 16, 0x01), request(0x2000, 32, 0x01), request(0x1010, 8, 0x01)];
    mem.phys_read_raw_iter(&mut parts).unwrap();
    assert_eq!(parts[0].1, data[..16].to_vec());
    assert_eq!(parts[1].1, data[16..].to_vec());
    assert_eq!(parts[2].1, image[0x1010..0x1018].to_vec());
    let end = mem.into_inner().into_bytes();
    assert_eq!(end[0x1ff0..0x2020].to_vec(), data);
    assert_eq!(end[..0x1ff0].to_vec(), image[..0x1ff0].to_vec());
}

#[test]
fn write_empties_the_slots_it_maps_to() {
    let image = numbered_image(8);
    let mut mem = CachedMemoryAccess::with(MemoryImage::new(image), cache(4, Ticks(u64::MAX), 0x01));
    let now = Ticks(9);
    let mut warm = vec![request(0x1000, 8, 0x01), request(0x2000, 8, 0x01), request(0x3000, 8, 0x01), request(0x4000, 8, 0x01)];
    mem.phys_read_raw_iter_with_time(&mut warm, now).unwrap();
    for (slot, page) in [(0usize, 0x4000u64), (1, 0x1000), (2, 0x2000), (3, 0x3000)] {
        let (_, tag, stamp) = mem.cache_ref().page_and_info_from_index(slot);
        assert_eq!((tag, stamp), (Address(page), now));
    }
    let write = vec![
        (PhysicalAddress::from_address(Address(0x1ffe)), vec![1u8, 2, 3]),
        (PhysicalAddress::from_address(Address(0x7000)), vec![4u8]),
        (PhysicalAddress::from_address(Address(0x4000)), Vec::new()),
    ];
    mem.phys_write_raw_iter(&write).unwrap();
    for (slot, page) in [(0usize, 0x4000u64), (1, u64::MAX), (2, u64::MAX), (3, u64::MAX)] {
        let (_, tag, stamp) = mem.cache_ref().page_and_info_from_index(slot);
        assert_eq!((tag, stamp), (Address(page), now), "slot {}", slot);
    }
    assert_eq!(mem.backend_ref().write_passes(), 1);
    assert_eq!(mem.backend_ref().read_passes(), 4);
}

#[test]
fn failed_read_leaves_the_later_requests() {
    let image = numbered_image(2);
    let mut mem = CachedMemoryAccess::with(MemoryImage::new(image.clone()), cache(2, Ticks(u64::MAX), 0x01));
    let mut batch = vec![request(0x1000, 4, 0x01), request(0x2000, 4, 0x02), request(0x1008, 4, 0x01)];
    let err = mem.phys_read_raw_iter_with_time(&mut batch, Ticks(1)).unwrap_err();
    assert_eq!((err.kind, err.addr), (ErrorKind::OutOfBounds, Address(0x2000)));
    assert_eq!(batch[0].1, image[0x1000..0x1004].to_vec());
    assert_eq!(batch[1].1, vec![0xee; 4]);
    assert_eq!(batch[2].1, vec![0xee; 4]);
    assert_eq!(mem.backend_ref().read_passes(), 2);
}

#[test]
fn invalidated_page_zero_is_not_served() {
    let mut c = cache(2, Ticks::from_millis(100), 0x01);
    let now = Ticks(1 << 40);
    c.validate_page_with_time(Address(0), PageType(0x01), now);
    assert!(c.cached_page_mut_with_time(Address(0x0fff), now).valid);
    c.invalidate_page(Address(0), PageType(0x01));
    assert!(!c.cached_page_mut_with_time(Address(0), now).valid);
    assert!(!c.cached_page_mut_with_time(Address(0x0fff), now).valid);
    assert_eq!(c.try_page_with_time(Address(8), now), Err(0));
    let (_, tag, stamp) = c.page_and_info_from_index(0);
    assert_eq!((tag, stamp), (Address::invalid(), now));
    let mut mem = CachedMemoryAccess::with(MemoryImage::new(numbered_image(4)), cache(2, Ticks(u64::MAX), 0x01));
    let mut first = vec![request(0x0010, 8, 0x01)];
    mem.phys_read_raw_iter_with_time(&mut first, now).unwrap();
    mem.phys_read_raw_iter_with_time(&mut first, now).unwrap();
    assert_eq!(mem.backend_ref().read_passes(), 1);
    mem.phys_write_raw_iter(&vec![(PhysicalAddress::from_address(Address(0x0012)), vec![7u8])]).unwrap();
    mem.phys_read_raw_iter_with_time(&mut first, now).unwrap();
    assert_eq!(first[0].1[2], 7);
    assert_eq!(mem.backend_ref().read_passes(), 2);
}

#[test]
fn page_zero_is_read_fresh_after_a_write() {
    let image = numbered_image(4);
    let mut mem = CachedMemoryAccess::with(MemoryImage::new(image), cache(2, Ticks(u64::MAX), 0x01));
    let mut warm = vec![request(0x2000, 8, 0x01), request(0x0000, 8, 0x01)];
    mem.phys_read_raw_iter(&mut warm).unwrap();
    let write = vec![(PhysicalAddress::from_address(Address(0x2000)), vec![1u8, 2, 3, 4])];
    mem.phys_write_raw_iter(&write).unwrap();
    let write = vec![(PhysicalAddress::from_address(Address(0x0004)), vec![9u8, 9])];
    mem.phys_write_raw_iter(&write).unwrap();
    let mut back = vec![request(0x0004, 2, 0x01), request(0x2000, 4, 0x01)];
    mem.phys_read_raw_iter(&mut back).unwrap();
    assert_eq!(back[0].1, vec![9u8, 9]);
    assert_eq!(back[1].1, vec![1u8, 2, 3, 4]);
}

#[test]
fn backend_errors_come_through_the_cache() {
    let mut mem = CachedMemoryAccess::with(MemoryImage::new_read_only(numbered_image(2)), cache(2, Ticks(u64::MAX), 0x01));
    let mut beyond = vec![request(0x1ff8, 8, 0x01), request(0x1ffc, 8, 0x01)];
    let err = mem.phys_read_raw_iter(&mut beyond).unwrap_err();
    assert_eq!(err.kind, ErrorKind::OutOfBounds);
    assert_eq!(beyond[0].1, numbered_image(2)[0x1ff8..].to_vec());
    let write = vec![(PhysicalAddress::from_address(Address(0x10)), vec![1u8])];
    let err = mem.phys_write_raw_iter(&write).unwrap_err();
    assert_eq!(err.kind, ErrorKind::PhysicalWriteError);
    assert_eq!(mem.backend_ref().write_passes(), 1);
}

#[test]
fn image_serves_and_counts_batches() {
    let mut mem = MemoryImage::new(vec![1, 2, 3, 4, 5]);
    let mut batch = vec![request(1, 3, 0), request(5, 0, 0), request(0, 5, 0)];
    mem.phys_read_raw_iter(&mut batch).unwrap();
    assert_eq!(batch[0].1, vec![2, 3, 4]);
    assert_eq!(batch[1].1, Vec::<u8>::new());
    assert_eq!(batch[2].1, vec![1, 2, 3, 4, 5]);
    let mut beyond = vec![request(0, 1, 0), request(3, 3, 0)];
    let err = mem.phys_read_raw_iter(&mut beyond).unwrap_err();
    assert_eq!((err.kind, err.addr), (ErrorKind::OutOfBounds, Address(3)));
    assert_eq!(beyond[0].1, vec![1]);
    let far = mem.phys_read_raw_iter(&mut vec![request(u64::MAX, 2, 0)]).unwrap_err();
    assert_eq!(far.kind, ErrorKind::OutOfBounds);
    assert_eq!(mem.read_passes(), 3);
    let writes = vec![
        (PhysicalAddress::from_address(Address(0)), vec![9u8, 9, 9]),
        (PhysicalAddress::from_address(Address(2)), vec![7u8, 7]),
    ];
    mem.phys_write_raw_iter(&writes).unwrap();
    let partly = vec![
        (PhysicalAddress::from_address(Address(4)), vec![6u8]),
        (PhysicalAddress::from_address(Address(4)), vec![5u8, 5]),
    ];
    assert_eq!(mem.phys_write_raw_iter(&partly).unwrap_err().kind, ErrorKind::OutOfBounds);
    assert_eq!(mem.write_passes(), 2);
    assert_eq!(mem.len(), 5);
    assert_eq!(mem.into_bytes(), vec![9, 9, 7, 7, 6]);
}

#[test]
fn pages_a_cache_size_apart_never_hit() {
    let mut cache = cache(2, Ticks(u64::MAX), 0xff);
    let pages = [Address(0x3000), Address(0x3000 + 2 * 0x1000), Address(0x3000 + 4 * 0x1000)];
    for round in 0..5 {
        for page in pages.iter() {
            let entry = cache.cached_page_mut(Address(page.0 + round));
            assert!(!entry.valid);
            assert_eq!(entry.address, *page);
            cache.validate_page(*page, PageType(0x01));
        }
    }
    let entry = cache.cached_page_mut(Address(0x3000 + 4 * 0x1000 + 7));
    assert!(entry.valid);
}
