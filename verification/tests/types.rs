use flow_core::bytes::read_le;
use flow_core::{Address, Error, ErrorKind, Length, Page, PageType, PhysicalAddress, Ticks};

#[test]
fn alignment_rounds_down() {
    let page = Length(0x1000);
    assert_eq!(Address(0x1234).as_page_aligned(page), Address(0x1000));
    assert_eq!(Address(0x1234).as_page_offset(page), Length(0x234));
    assert_eq!(Address(0x2000).as_page_aligned(page), Address(0x2000));
    assert_eq!(Address(0x2000).as_page_offset(page), Length(0));
    assert_eq!(Address(u64::MAX).as_page_aligned(page), Address(0xffff_ffff_ffff_f000));
    assert_eq!(Address(0xfff).as_page_aligned(page), Address(0));
    assert_eq!(Address(100).as_page_aligned(Length(7)), Address(98));
    assert_eq!(Address(100).as_page_offset(Length(7)), Length(2));
    assert_eq!(Address(5).as_page_aligned(Length(1)), Address(5));
}

#[test]
fn address_arithmetic_saturates() {
    assert_eq!(Address(10).saturating_add(Length(5)), Address(15));
    assert_eq!(Address(u64::MAX - 1).saturating_add(Length(5)), Address(u64::MAX));
    assert_eq!(Address(10).saturating_sub(Length(4)), Address(6));
    assert_eq!(Address(10).saturating_sub(Length(11)), Address(0));
    assert_eq!(Address(10).length_from(Address(4)), Length(6));
    assert_eq!(Address(4).length_from(Address(10)), Length(0));
}

#[test]
fn sentinels() {
    assert!(Address::null().is_null());
    assert_eq!(Address::null(), Address(0));
    assert!(!Address::invalid().is_null());
    assert_eq!(Address::invalid().as_u64(), u64::MAX);
    assert_eq!(Address::from_u64(7), Address(7));
    assert_eq!(Address::from_u32(u32::MAX), Address(0xffff_ffff));
    assert_ne!(Address::invalid().as_page_offset(Length(0x1000)), Length(0));
}

#[test]
fn lengths() {
    assert_eq!(Length::zero(), Length(0));
    assert!(Length::zero().is_zero());
    assert!(!Length::from_b(1).is_zero());
    assert_eq!(Length::from_b(12).as_u64(), 12);
    assert_eq!(Length::from_kb(4), Length(4096));
    assert_eq!(Length::from_mb(2), Length(0x20_0000));
    assert_eq!(Length::from_kb(u64::MAX / 1024), Length((u64::MAX / 1024) * 1024));
    assert_eq!(Length::from_kb(u64::MAX / 1024 + 1), Length(u64::MAX));
    assert_eq!(Length::from_mb(u64::MAX), Length(u64::MAX));
}

#[test]
fn page_types() {
    let rw = PageType::from_bits(0x01).union(PageType(0x02));
    assert_eq!(rw.bits(), 0x03);
    assert!(rw.contains(PageType(0x01)));
    assert!(rw.contains(rw));
    assert!(rw.contains(PageType::none()));
    assert!(!rw.contains(PageType(0x04)));
    assert!(!rw.contains(PageType(0x05)));
    assert!(PageType::all().contains(rw));
    assert_eq!(PageType::all().bits(), 0x3f);
    assert!(!PageType::none().contains(PageType(0x20)));
}

#[test]
fn physical_addresses_and_errors() {
    let plain = PhysicalAddress::from_address(Address(9));
    assert_eq!(plain.page, Page { page_type: PageType(0), page_size: Length(0) });
    let full = PhysicalAddress::with_page(Address(9), PageType(3), Length(4096));
    assert_eq!(full, PhysicalAddress { address: Address(9), page: Page { page_type: PageType(3), page_size: Length(4096) } });
    assert_eq!(Error::new(ErrorKind::OutOfBounds, Address(1)), Error { kind: ErrorKind::OutOfBounds, addr: Address(1), level: 0 });
    assert_eq!(Error::at_level(ErrorKind::InvalidEntry, Address(1), 3).level, 3);
    assert_ne!(ErrorKind::BackendOpenError, ErrorKind::PhysicalReadError);
}

#[test]
fn little_endian_numbers() {
    assert_eq!(read_le(&Vec::new()), 0);
    assert_eq!(read_le(&vec![0x34, 0x12]), 0x1234);
    assert_eq!(read_le(&vec![0x78, 0x56, 0x34, 0x12]), 0x1234_5678);
    assert_eq!(read_le(&vec![1, 2, 3, 4, 5, 6, 7, 8]), 0x0807_0605_0403_0201);
    assert_eq!(read_le(&vec![0xff; 8]), u64::MAX);
    assert_eq!(read_le(&vec![0, 0, 1]), 0x1_0000);
}

#[test]
fn ticks_come_from_the_coarse_clock() {
    for millis in [0u64, 1, 100, 150, 1_000, 86_400_000] {
        assert_eq!(Ticks::from_millis(millis).0, coarsetime::Duration::from_millis(millis).as_ticks());
    }
    assert_ne!(Ticks::from_millis(100), Ticks(100));
    assert!(Ticks::from_millis(100).0 < Ticks::from_millis(150).0);
}

#[test]
fn ticks_grow_with_the_milliseconds() {
    let mut last = Ticks::from_millis(0);
    for millis in 1..3_000u64 {
        let next = Ticks::from_millis(millis);
        assert!(last.0 < next.0, "{} ms", millis);
        last = next;
    }
    let limit = 4_294_967_296_000u64;
    let samples = [0u64, 999, 1_000, 1_001, 86_400_000, limit - 1_001, limit - 1_000, limit - 1, limit, limit + 999, u64::MAX];
    for pair in samples.windows(2) {
        let (a, b) = (Ticks::from_millis(pair[0]), Ticks::from_millis(pair[1]));
        assert!(a.0 <= b.0);
        if pair[1] < limit {
            assert!(a.0 < b.0);
        }
    }
    assert_eq!(Ticks::from_millis(limit).0, u64::MAX);
    assert!(Ticks::from_millis(limit - 1).0 < u64::MAX);
}

#[test]
fn time_between_readings() {
    assert_eq!(Ticks(10).duration_since(Ticks(3)), Ticks(7));
    assert_eq!(Ticks(3).duration_since(Ticks(10)), Ticks(0));
    assert_eq!(Ticks(u64::MAX).duration_since(Ticks(0)), Ticks(u64::MAX));
    assert_eq!(Ticks(5).duration_since(Ticks(5)), Ticks(0));
    let first = Ticks::now();
    let second = Ticks::now();
    assert!(second.0 >= first.0);
    assert!(second.duration_since(first).0 < Ticks::from_millis(60_000).0);
}

#[test]
fn ticks_of_a_span_are_seconds_and_milliseconds() {
    assert_eq!(Ticks::from_millis(0), Ticks(0));
    assert_eq!(Ticks::from_millis(1), Ticks(1 << 22));
    assert_eq!(Ticks::from_millis(999), Ticks(999 << 22));
    assert_eq!(Ticks::from_millis(1_000), Ticks(1 << 32));
    assert_eq!(Ticks::from_millis(1_500), Ticks((1 << 32) + (500 << 22)));
    assert_eq!(Ticks::from_millis(86_400_000), Ticks(86_400 << 32));
    let limit = 4_294_967_296_000u64;
    assert_eq!(Ticks::from_millis(limit - 1), Ticks((0xffff_ffff << 32) + (999 << 22)));
    assert_eq!(Ticks::from_millis(limit + 5), Ticks(u64::MAX));
    assert_eq!(Ticks::from_millis(u64::MAX), Ticks(u64::MAX));
}
