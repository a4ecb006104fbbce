//! Addresses, lengths and page descriptors.
use vstd::prelude::*;

verus! {

/// An address in the target, physical or virtual.
#[derive(Clone, Copy, Debug, PartialEq, Eq, Structural, Hash)]
pub struct Address(pub u64);

/// A number of bytes.
#[derive(Clone, Copy, Debug, PartialEq, Eq, Structural, Hash)]
pub struct Length(pub u64);

/// The value of an address that marks a cache slot as holding nothing.
pub const INVALID_ADDRESS: u64 = 0xffff_ffff_ffff_ffff;

impl Address {
    /// The null address.
    pub fn null() -> (a: Address)
        ensures
            a == Address(0),
    {
        Address(0)
    }

    /// The all-ones address; no page starts there.
    pub fn invalid() -> (a: Address)
        ensures
            a == Address(INVALID_ADDRESS),
    {
        Address(INVALID_ADDRESS)
    }

    pub fn from_u64(value: u64) -> (a: Address)
        ensures
            a == Address(value),
    {
        Address(value)
    }

    pub fn from_u32(value: u32) -> (a: Address)
        ensures
            a.0 == value,
    {
        Address(value as u64)
    }

    pub fn as_u64(self) -> (v: u64)
        ensures
            v == self.0,
    {
        self.0
    }

    pub fn is_null(self) -> (b: bool)
        ensures
            b == (self.0 == 0),
    {
        self.0 == 0
    }

    /// The start of the page of `page_size` bytes that holds this address.
    pub open spec fn aligned(self, page_size: Length) -> Address {
        Address((self.0 - self.0 % page_size.0) as u64)
    }

    /// The distance of this address from the start of its page.
    pub open spec fn page_offset(self, page_size: Length) -> Length {
        Length(self.0 % page_size.0)
    }

    /// The address `len` bytes further on, or the highest address where
    /// that would lie beyond it.
    pub open spec fn plus(self, len: Length) -> Address {
        if self.0 + len.0 > u64::MAX {
            Address(u64::MAX)
        } else {
            Address((self.0 + len.0) as u64)
        }
    }

    /// The address `len` bytes before this one, or address zero where that
    /// would lie below it.
    pub open spec fn minus(self, len: Length) -> Address {
        if self.0 < len.0 {
            Address(0)
        } else {
            Address((self.0 - len.0) as u64)
        }
    }

    /// The number of bytes from `earlier` up to this address; zero where
    /// `earlier` lies above it.
    pub open spec fn span_from(self, earlier: Address) -> Length {
        if self.0 < earlier.0 {
            Length(0)
        } else {
            Length((self.0 - earlier.0) as u64)
        }
    }

    /// The start of the page of `page_size` bytes that holds this address.
    pub fn as_page_aligned(self, page_size: Length) -> (a: Address)
        requires
            page_size.0 > 0,
        ensures
            a == self.aligned(page_size),
            a.0 % page_size.0 == 0,
            a.0 <= self.0 < a.0 + page_size.0,
    {
        let rem: u64 = self.0 % page_size.0;
        proof {
            lemma_aligned(self.0 as int, page_size.0 as int);
        }
        Address(self.0 - rem)
    }

    /// The distance of this address from the start of its page.
    pub fn as_page_offset(self, page_size: Length) -> (l: Length)
        requires
            page_size.0 > 0,
        ensures
            l == self.page_offset(page_size),
            l.0 < page_size.0,
    {
        Length(self.0 % page_size.0)
    }

    /// The address `len` bytes further on, or the highest address.
    pub fn saturating_add(self, len: Length) -> (a: Address)
        ensures
            a == self.plus(len),
    {
        Address(self.0.saturating_add(len.0))
    }

    /// The address `len` bytes before this one, or address zero.
    pub fn saturating_sub(self, len: Length) -> (a: Address)
        ensures
            a == self.minus(len),
    {
        Address(self.0.saturating_sub(len.0))
    }

    /// The number of bytes from `earlier` up to this address, or zero.
    pub fn length_from(self, earlier: Address) -> (l: Length)
        ensures
            l == self.span_from(earlier),
    {
        Length(self.0.saturating_sub(earlier.0))
    }
}

/// The address at distance `offset` from `page`, around the end of the
/// address space where it lies beyond it.
pub open spec fn offset_address(page: u64, offset: u64) -> Address {
    if page + offset > u64::MAX {
        Address((page + offset - 0x1_0000_0000_0000_0000) as u64)
    } else {
        Address((page + offset) as u64)
    }
}

/// The start of the page, given an address in it and the distance of the
/// address from that start.
pub open spec fn page_base(addr: u64, offset: u64) -> u64 {
    if addr < offset {
        (addr - offset + 0x1_0000_0000_0000_0000) as u64
    } else {
        (addr - offset) as u64
    }
}

/// Rounding `a` down to a multiple of `m` gives a multiple of `m` within
/// `m` below `a`, and the page number is unchanged by it.
pub proof fn lemma_aligned(a: int, m: int)
    requires
        0 <= a,
        0 < m,
    ensures
        (a - a % m) % m == 0,
        0 <= a - a % m <= a < (a - a % m) + m,
        (a - a % m) / m == a / m,
        a - a % m == (a / m) * m,
{
    vstd::arithmetic::div_mod::lemma_fundamental_div_mod(a, m);
    vstd::arithmetic::div_mod::lemma_mod_bound(a, m);
    vstd::arithmetic::div_mod::lemma_div_pos_is_pos(a, m);
    let q = a / m;
    assert(a - a % m == m * q);
    assert(m * q == q * m) by (nonlinear_arith);
    vstd::arithmetic::div_mod::lemma_fundamental_div_mod_converse(q * m, m, q, 0);
}

impl Length {
    pub fn zero() -> (l: Length)
        ensures
            l == Length(0),
    {
        Length(0)
    }

    pub fn from_b(bytes: u64) -> (l: Length)
        ensures
            l == Length(bytes),
    {
        Length(bytes)
    }

    /// `kb` times 1024 bytes, or the greatest length where that is beyond it.
    pub fn from_kb(kb: u64) -> (l: Length)
        ensures
            l.0 == if kb * 1024 > u64::MAX { u64::MAX as int } else { kb * 1024 },
    {
        match kb.checked_mul(1024) {
            Some(v) => Length(v),
            None => Length(u64::MAX),
        }
    }

    /// `mb` times 1024 * 1024 bytes, or the greatest length where that is
    /// beyond it.
    pub fn from_mb(mb: u64) -> (l: Length)
        ensures
            l.0 == if mb * 1048576 > u64::MAX { u64::MAX as int } else { mb * 1048576 },
    {
        match mb.checked_mul(1048576) {
            Some(v) => Length(v),
            None => Length(u64::MAX),
        }
    }

    pub fn as_u64(self) -> (v: u64)
        ensures
            v == self.0,
    {
        self.0
    }

    pub fn is_zero(self) -> (b: bool)
        ensures
            b == (self.0 == 0),
    {
        self.0 == 0
    }
}

/// The page may be read.
pub const PAGE_READABLE: u8 = 0x01;
/// The mapping permits writes.
pub const PAGE_WRITABLE: u8 = 0x02;
/// Instructions may be fetched from the page.
pub const PAGE_EXECUTABLE: u8 = 0x04;
/// The mapping asks for the page not to be cached.
pub const PAGE_NOCACHE: u8 = 0x08;
/// The mapping forbids writes.
pub const PAGE_READONLY: u8 = 0x10;
/// The backend accepts writes to the page.
pub const PAGE_WRITEABLE: u8 = 0x20;

/// A set of page properties, one bit each.
#[derive(Clone, Copy, Debug, PartialEq, Eq, Structural, Hash)]
pub struct PageType(pub u8);

impl PageType {
    pub fn none() -> (t: PageType)
        ensures
            t == PageType(0),
    {
        PageType(0)
    }

    /// Every property at once.
    pub fn all() -> (t: PageType)
        ensures
            t == PageType(0x3f),
    {
        PageType(0x3f)
    }

    pub fn from_bits(bits: u8) -> (t: PageType)
        ensures
            t == PageType(bits),
    {
        PageType(bits)
    }

    pub fn bits(self) -> (b: u8)
        ensures
            b == self.0,
    {
        self.0
    }

    /// Every property of `other` is also one of `self`.
    pub open spec fn has(self, other: PageType) -> bool {
        self.0 & other.0 == other.0
    }

    /// Whether every property of `other` is also one of `self`.
    pub fn contains(self, other: PageType) -> (b: bool)
        ensures
            b == self.has(other),
    {
        (self.0 & other.0) == other.0
    }

    /// The properties of `self` together with those of `other`.
    pub fn union(self, other: PageType) -> (t: PageType)
        ensures
            t.0 == self.0 | other.0,
            t.has(self),
            t.has(other),
    {
        let a: u8 = self.0;
        let b: u8 = other.0;
        assert((a | b) & a == a && (a | b) & b == b) by (bit_vector);
        PageType(a | b)
    }
}

/// What is known of the page that holds a physical address.
#[derive(Clone, Copy, Debug, PartialEq, Eq, Structural, Hash)]
pub struct Page {
    pub page_type: PageType,
    pub page_size: Length,
}

/// A physical address together with the page it was found in.
#[derive(Clone, Copy, Debug, PartialEq, Eq, Structural, Hash)]
pub struct PhysicalAddress {
    pub address: Address,
    pub page: Page,
}

impl PhysicalAddress {
    /// A physical address of which nothing else is known.
    pub fn from_address(address: Address) -> (p: PhysicalAddress)
        ensures
            p.address == address,
            p.page == (Page { page_type: PageType(0), page_size: Length(0) }),
    {
        PhysicalAddress { address, page: Page { page_type: PageType(0), page_size: Length(0) } }
    }

    pub fn with_page(address: Address, page_type: PageType, page_size: Length) -> (p:
        PhysicalAddress)
        ensures
            p.address == address,
            p.page.page_type == page_type,
            p.page.page_size == page_size,
    {
        PhysicalAddress { address, page: Page { page_type, page_size } }
    }
}

} // verus!
