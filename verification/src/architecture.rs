//! The paging parameters of the supported instruction sets, and the page
//! walk that they drive.
use vstd::prelude::*;
use crate::bytes::{le_value, read_le, lemma_le_value_bound, lemma_pow256_values, lemma_pow256_monotonic};
use crate::error::{Error, ErrorKind};
use crate::mem::phys_mem::{AccessPhysicalMemory, PhysicalData, holds_bytes};
use crate::payload::{Translated, addresses, attach, attached, detach, outcomes};
use crate::types::{Address, Length, Page, PageType, PhysicalAddress, PAGE_EXECUTABLE, PAGE_NOCACHE,
    PAGE_READABLE, PAGE_READONLY, PAGE_WRITABLE, lemma_aligned, offset_address, page_base};

verus! {

/// An instruction set whose paging structures the walker understands.
#[derive(Clone, Copy, Debug, PartialEq, Eq, Structural, Hash)]
pub enum Architecture {
    /// x86-64 with four levels of 512 eight-byte entries; leaves of 4 KiB,
    /// 2 MiB (level 2) and 1 GiB (level 3).
    X64,
    /// 32-bit x86 with physical address extension: a top level of four
    /// entries above two levels of 512, all of eight bytes; leaves of
    /// 4 KiB and 2 MiB (level 2).
    X86Pae,
    /// 32-bit x86: two levels of 1024 four-byte entries; leaves of 4 KiB
    /// and 4 MiB (level 2). The 36-bit extension of large pages is not
    /// decoded: a large page with one of those bits set is an invalid entry.
    X86,
}

/// An entry maps something.
pub const ENTRY_PRESENT: u64 = 0x1;
/// The mapping permits writes.
pub const ENTRY_WRITABLE: u64 = 0x2;
/// The mapping asks for the page not to be cached.
pub const ENTRY_NOCACHE: u64 = 0x10;
/// Above the lowest level: the entry maps a large page, not a table.
pub const ENTRY_LARGE: u64 = 0x80;
/// Instructions may not be fetched from the page.
pub const ENTRY_NOEXEC: u64 = 0x8000_0000_0000_0000;
/// No table and no page starts above this address.
pub const ADDRESS_LIMIT: u64 = 0x000f_ffff_ffff_f000;

/// One result of a batch of translations: what the walk gave, the virtual
/// address it was asked for, and the tag that the caller sent along.
pub type Translation = (Result<PhysicalAddress, Error>, Address, usize);

/// What an entry of a paging structure says.
#[derive(Clone, Copy, Debug, PartialEq, Eq, Structural)]
pub enum Step {
    /// The walk ends without a translation.
    Fault(ErrorKind),
    /// The walk ends: the virtual address lies at this physical address.
    Leaf(PhysicalAddress),
    /// The walk goes on in the table at this physical address.
    Table(u64),
}

/// How far the walk of one address has come.
#[derive(Clone, Copy)]
enum WalkState {
    /// The next entry to read lies in the table at this address.
    Walking(u64),
    Done(Result<PhysicalAddress, Error>),
}

/// `found` is what the walk gives, or the report of a backend that could
/// not read on the way: a `PhysicalReadError` for the address, at the
/// level whose entry was to be read. For an address that is not canonical
/// nothing is read, and `found` is what the walk gives. This is what
/// every translator owes; when the report comes is said by the
/// translator's own step relation, for the walker by `walked`.
pub open spec fn agrees(found: Result<PhysicalAddress, Error>, walk: Result<PhysicalAddress, Error>, vaddr: Address) -> bool {
    found == walk || {
        &&& found is Err
        &&& found->Err_0.kind == ErrorKind::PhysicalReadError
        &&& found->Err_0.addr == vaddr
        &&& 1 <= found->Err_0.level <= 4
        &&& !(walk is Err && walk->Err_0.kind == ErrorKind::AddressNonCanonical)
    }
}

/// The translation of `other`, an address of the smallest page that holds
/// `vaddr`, where `vaddr` lies at `found`: as far from `found` as `other`
/// is from `vaddr`, in the same page.
pub open spec fn moved(found: PhysicalAddress, vaddr: Address, other: Address) -> PhysicalAddress {
    PhysicalAddress {
        address: offset_address(page_base(found.address.0, (vaddr.0 % 4096) as u64), (other.0 % 4096) as u64),
        page: found.page,
    }
}

/// Two addresses of one 4 KiB page agree in every bit from bit 12 up.
pub proof fn lemma_same_page_bits(v: u64, w: u64)
    requires
        v - v % 4096 == w - w % 4096,
    ensures
        v >> 12 == w >> 12,
{
    lemma_aligned(v as int, 4096);
    lemma_aligned(w as int, 4096);
    assert(v >> 12 == v / 4096) by (bit_vector);
    assert(w >> 12 == w / 4096) by (bit_vector);
}

proof fn lemma_same_index(v: u64, w: u64, s: u64, m: u64)
    requires
        v >> 12 == w >> 12,
        12 <= s < 64,
    ensures
        (v >> s) & m == (w >> s) & m,
        v >> 47 == w >> 47,
        v <= 0xffff_ffff <==> w <= 0xffff_ffff,
{
    assert((v >> s) & m == (w >> s) & m) by (bit_vector)
        requires
            v >> 12 == w >> 12,
            12 <= s < 64,
    ;
    assert(v >> 47 == w >> 47) by (bit_vector)
        requires
            v >> 12 == w >> 12,
    ;
    assert(v <= 0xffff_ffff <==> w <= 0xffff_ffff) by (bit_vector)
        requires
            v >> 12 == w >> 12,
    ;
}

proof fn lemma_leaf_moved(base: u64, low: u64, v: u64, w: u64)
    requires
        v >> 12 == w >> 12,
        low == 0xfff || low == 0x1f_ffff || low == 0x3f_ffff || low == 0x3fff_ffff,
    ensures
        ((base & !low) | (v & low)) >= v % 4096,
        ((base & !low) | (v & low)) % 4096 == v % 4096,
        ((base & !low) | (v & low)) - v % 4096 + w % 4096 == ((base & !low) | (w & low)),
{
    let a: u64 = (base & !low) | (v & low);
    let b: u64 = (base & !low) | (w & low);
    assert(v % 4096 == v & 0xfff) by (bit_vector);
    assert(w % 4096 == w & 0xfff) by (bit_vector);
    let x: u64 = v & 0xfff;
    let y: u64 = w & 0xfff;
    assert(a % 4096 == x) by (bit_vector)
        requires
            low == 0xfff || low == 0x1f_ffff || low == 0x3f_ffff || low == 0x3fff_ffff,
            a == (base & !low) | (v & low),
            x == v & 0xfff,
    ;
    assert(a >= x && a - x + y == b) by (bit_vector)
        requires
            v >> 12 == w >> 12,
            low == 0xfff || low == 0x1f_ffff || low == 0x3f_ffff || low == 0x3fff_ffff,
            a == (base & !low) | (v & low),
            b == (base & !low) | (w & low),
            x == v & 0xfff,
            y == w & 0xfff,
    ;
}

impl Architecture {
    /// The size of the smallest page.
    pub open spec fn spec_page_size(self) -> Length {
        Length(4096)
    }

    #[verifier::when_used_as_spec(spec_page_size)]
    pub fn page_size(self) -> (l: Length)
        ensures
            l == self.spec_page_size(),
    {
        Length(4096)
    }

    /// The number of bits of a pointer.
    pub open spec fn spec_bits(self) -> u8 {
        match self {
            Architecture::X64 => 64,
            _ => 32,
        }
    }

    #[verifier::when_used_as_spec(spec_bits)]
    pub fn bits(self) -> (b: u8)
        ensures
            b == self.spec_bits(),
    {
        match self {
            Architecture::X64 => 64,
            _ => 32,
        }
    }

    /// The number of levels of paging structures; the walk starts at this
    /// level and ends at level 1 at the latest.
    pub open spec fn spec_levels(self) -> u8 {
        match self {
            Architecture::X64 => 4,
            Architecture::X86Pae => 3,
            Architecture::X86 => 2,
        }
    }

    #[verifier::when_used_as_spec(spec_levels)]
    pub fn levels(self) -> (l: u8)
        ensures
            l == self.spec_levels(),
    {
        match self {
            Architecture::X64 => 4,
            Architecture::X86Pae => 3,
            Architecture::X86 => 2,
        }
    }

    /// The number of bytes of an entry.
    pub open spec fn spec_entry_size(self) -> usize {
        match self {
            Architecture::X86 => 4,
            _ => 8,
        }
    }

    #[verifier::when_used_as_spec(spec_entry_size)]
    pub fn entry_size(self) -> (s: usize)
        ensures
            s == self.spec_entry_size(),
    {
        match self {
            Architecture::X86 => 4,
            _ => 8,
        }
    }

    /// The position in a virtual address of the lowest bit of the index
    /// into the table of `level`.
    pub open spec fn spec_index_shift(self, level: u8) -> u64 {
        match self {
            Architecture::X86 => if level >= 2 { 22 } else { 12 },
            _ => if level >= 4 { 39 } else if level == 3 { 30 } else if level == 2 { 21 } else { 12 },
        }
    }

    #[verifier::when_used_as_spec(spec_index_shift)]
    pub fn index_shift(self, level: u8) -> (s: u64)
        ensures
            s == self.spec_index_shift(level),
            s < 64,
    {
        match self {
            Architecture::X86 => if level >= 2 { 22 } else { 12 },
            _ => if level >= 4 { 39 } else if level == 3 { 30 } else if level == 2 { 21 } else { 12 },
        }
    }

    /// The greatest index into the table of `level`.
    pub open spec fn spec_index_mask(self, level: u8) -> u64 {
        match self {
            Architecture::X64 => 0x1ff,
            Architecture::X86Pae => if level >= 3 { 0x3 } else { 0x1ff },
            Architecture::X86 => 0x3ff,
        }
    }

    #[verifier::when_used_as_spec(spec_index_mask)]
    pub fn index_mask(self, level: u8) -> (m: u64)
        ensures
            m == self.spec_index_mask(level),
            m <= 0x3ff,
    {
        match self {
            Architecture::X64 => 0x1ff,
            Architecture::X86Pae => if level >= 3 { 0x3 } else { 0x1ff },
            Architecture::X86 => 0x3ff,
        }
    }

    /// The bits of an entry that hold the address of a table or a page.
    pub open spec fn spec_address_mask(self) -> u64 {
        match self {
            Architecture::X86 => 0xffff_f000,
            _ => 0x000f_ffff_ffff_f000,
        }
    }

    #[verifier::when_used_as_spec(spec_address_mask)]
    pub fn address_mask(self) -> (m: u64)
        ensures
            m == self.spec_address_mask(),
            m <= ADDRESS_LIMIT,
    {
        match self {
            Architecture::X86 => 0xffff_f000,
            _ => 0x000f_ffff_ffff_f000,
        }
    }

    /// The bits of a directory table base that hold the address of the
    /// topmost table.
    pub open spec fn spec_root_mask(self) -> u64 {
        match self {
            Architecture::X64 => 0x000f_ffff_ffff_f000,
            Architecture::X86Pae => 0xffff_ffe0,
            Architecture::X86 => 0xffff_f000,
        }
    }

    #[verifier::when_used_as_spec(spec_root_mask)]
    pub fn root_mask(self) -> (m: u64)
        ensures
            m == self.spec_root_mask(),
            m <= ADDRESS_LIMIT,
    {
        match self {
            Architecture::X64 => 0x000f_ffff_ffff_f000,
            Architecture::X86Pae => 0xffff_ffe0,
            Architecture::X86 => 0xffff_f000,
        }
    }

    /// An entry of `level` with the large bit set maps a page.
    pub open spec fn spec_has_large_pages(self, level: u8) -> bool {
        match self {
            Architecture::X64 => level == 2 || level == 3,
            _ => level == 2,
        }
    }

    #[verifier::when_used_as_spec(spec_has_large_pages)]
    pub fn has_large_pages(self, level: u8) -> (b: bool)
        ensures
            b == self.spec_has_large_pages(level),
    {
        match self {
            Architecture::X64 => level == 2 || level == 3,
            _ => level == 2,
        }
    }

    /// The size of a page that an entry of `level` maps.
    pub open spec fn spec_page_size_at(self, level: u8) -> u64 {
        match self {
            Architecture::X86 => if level >= 2 { 0x40_0000 } else { 0x1000 },
            _ => if level >= 3 { 0x4000_0000 } else if level == 2 { 0x20_0000 } else { 0x1000 },
        }
    }

    #[verifier::when_used_as_spec(spec_page_size_at)]
    pub fn page_size_at(self, level: u8) -> (s: u64)
        ensures
            s == self.spec_page_size_at(level),
            0x1000 <= s <= 0x4000_0000,
    {
        match self {
            Architecture::X86 => if level >= 2 { 0x40_0000 } else { 0x1000 },
            _ => if level >= 3 { 0x4000_0000 } else if level == 2 { 0x20_0000 } else { 0x1000 },
        }
    }

    /// The architecture can form the virtual address: on x86-64 bits 47 to
    /// 63 are all equal, elsewhere the address fits 32 bits.
    pub open spec fn spec_is_canonical(self, vaddr: Address) -> bool {
        match self {
            Architecture::X64 => vaddr.0 >> 47 == 0 || vaddr.0 >> 47 == 0x1_ffff,
            _ => vaddr.0 <= 0xffff_ffff,
        }
    }

    #[verifier::when_used_as_spec(spec_is_canonical)]
    pub fn is_canonical(self, vaddr: Address) -> (b: bool)
        ensures
            b == self.spec_is_canonical(vaddr),
    {
        match self {
            Architecture::X64 => vaddr.0 >> 47 == 0 || vaddr.0 >> 47 == 0x1_ffff,
            _ => vaddr.0 <= 0xffff_ffff,
        }
    }

    /// The address of the topmost table of the address space of `dtb`.
    pub open spec fn spec_root_table(self, dtb: Address) -> u64 {
        dtb.0 & self.spec_root_mask()
    }

    #[verifier::when_used_as_spec(spec_root_table)]
    pub fn root_table(self, dtb: Address) -> (t: u64)
        ensures
            t == self.spec_root_table(dtb),
            t <= ADDRESS_LIMIT,
    {
        let d: u64 = dtb.0;
        let m: u64 = self.root_mask();
        assert(d & m <= m) by (bit_vector);
        d & m
    }

    /// The address of the entry for `vaddr` in the table of `level` at
    /// `table`.
    pub open spec fn spec_entry_address(self, table: u64, vaddr: Address, level: u8) -> u64 {
        (table + ((vaddr.0 >> self.spec_index_shift(level)) & self.spec_index_mask(level)) * self.spec_entry_size()) as u64
    }

    #[verifier::when_used_as_spec(spec_entry_address)]
    pub fn entry_address(self, table: u64, vaddr: Address, level: u8) -> (a: u64)
        requires
            table <= ADDRESS_LIMIT,
        ensures
            a == self.spec_entry_address(table, vaddr, level),
            a == table + ((vaddr.0 >> self.spec_index_shift(level)) & self.spec_index_mask(level)) * self.spec_entry_size(),
    {
        let v: u64 = vaddr.0;
        let s: u64 = self.index_shift(level);
        let m: u64 = self.index_mask(level);
        assert((v >> s) & m <= m) by (bit_vector);
        let index: u64 = (v >> s) & m;
        table + index * (self.entry_size() as u64)
    }

    /// The properties of the page that a leaf entry maps.
    pub open spec fn spec_leaf_type(self, entry: u64) -> PageType {
        PageType(
            PAGE_READABLE | (if entry & ENTRY_WRITABLE != 0 {
                PAGE_WRITABLE
            } else {
                PAGE_READONLY
            }) | (if entry & ENTRY_NOEXEC == 0 {
                PAGE_EXECUTABLE
            } else {
                0u8
            }) | (if entry & ENTRY_NOCACHE != 0 {
                PAGE_NOCACHE
            } else {
                0u8
            }),
        )
    }

    #[verifier::when_used_as_spec(spec_leaf_type)]
    pub fn leaf_type(self, entry: u64) -> (t: PageType)
        ensures
            t == self.spec_leaf_type(entry),
    {
        PageType(
            PAGE_READABLE | (if entry & ENTRY_WRITABLE != 0 {
                PAGE_WRITABLE
            } else {
                PAGE_READONLY
            }) | (if entry & ENTRY_NOEXEC == 0 {
                PAGE_EXECUTABLE
            } else {
                0u8
            }) | (if entry & ENTRY_NOCACHE != 0 {
                PAGE_NOCACHE
            } else {
                0u8
            }),
        )
    }

    /// The page of `size` bytes that `entry` maps, and in it the place of
    /// `vaddr`.
    pub open spec fn spec_leaf(self, entry: u64, vaddr: Address, size: u64) -> PhysicalAddress {
        PhysicalAddress {
            address: Address((entry & self.spec_address_mask() & !((size - 1) as u64)) | (vaddr.0 & ((size - 1) as u64))),
            page: Page { page_type: self.spec_leaf_type(entry), page_size: Length(size) },
        }
    }

    /// What `entry`, read from a table of `level` on the way to `vaddr`,
    /// says. An entry that is not present is a fault. Above level 1 an entry
    /// with the large bit maps a page where the level has large pages and
    /// no address bit below the page's size is set but bit 12, and is
    /// invalid otherwise; without the large bit it names the next table.
    /// At level 1 every present entry maps a page.
    pub open spec fn spec_decode_entry(self, entry: u64, vaddr: Address, level: u8) -> Step {
        if entry & ENTRY_PRESENT == 0 {
            Step::Fault(ErrorKind::PageNotPresent)
        } else if level <= 1 {
            Step::Leaf(self.spec_leaf(entry, vaddr, 0x1000))
        } else if entry & ENTRY_LARGE != 0 {
            let size = self.spec_page_size_at(level);
            if !self.spec_has_large_pages(level) {
                Step::Fault(ErrorKind::InvalidEntry)
            } else if entry & self.spec_address_mask() & ((size - 1) as u64) & !0x1000u64 != 0 {
                Step::Fault(ErrorKind::InvalidEntry)
            } else {
                Step::Leaf(self.spec_leaf(entry, vaddr, size))
            }
        } else {
            Step::Table(entry & self.spec_address_mask())
        }
    }

    #[verifier::when_used_as_spec(spec_decode_entry)]
    pub fn decode_entry(self, entry: u64, vaddr: Address, level: u8) -> (s: Step)
        ensures
            s == self.spec_decode_entry(entry, vaddr, level),
            s matches Step::Table(t) ==> t <= ADDRESS_LIMIT,
    {
        let mask: u64 = self.address_mask();
        let v: u64 = vaddr.0;
        if entry & ENTRY_PRESENT == 0 {
            Step::Fault(ErrorKind::PageNotPresent)
        } else if level <= 1 {
            let low: u64 = 0x1000 - 1;
            Step::Leaf(
                PhysicalAddress {
                    address: Address((entry & mask & !low) | (v & low)),
                    page: Page { page_type: self.leaf_type(entry), page_size: Length(0x1000) },
                },
            )
        } else if entry & ENTRY_LARGE != 0 {
            let size: u64 = self.page_size_at(level);
            let low: u64 = size - 1;
            if !self.has_large_pages(level) {
                Step::Fault(ErrorKind::InvalidEntry)
            } else if entry & mask & low & !0x1000u64 != 0 {
                Step::Fault(ErrorKind::InvalidEntry)
            } else {
                Step::Leaf(
                    PhysicalAddress {
                        address: Address((entry & mask & !low) | (v & low)),
                        page: Page { page_type: self.leaf_type(entry), page_size: Length(size) },
                    },
                )
            }
        } else {
            assert(entry & mask <= mask) by (bit_vector);
            Step::Table(entry & mask)
        }
    }

    /// The entry at `addr`: the little-endian number in the bytes there,
    /// where they lie inside `mem`.
    pub open spec fn entry_at(self, mem: Seq<u8>, addr: u64) -> Option<u64> {
        if addr + self.spec_entry_size() <= mem.len() {
            Some(le_value(mem.subrange(addr as int, addr + self.spec_entry_size())) as u64)
        } else {
            None
        }
    }

    /// The walk for `vaddr` from the table of `level` at `table` downwards.
    /// An entry that lies outside `mem` cannot be read.
    pub open spec fn walk_from(self, mem: Seq<u8>, table: u64, vaddr: Address, level: u8) -> Result<PhysicalAddress, Error>
        decreases level,
    {
        if level == 0 {
            Err(Error { kind: ErrorKind::InvalidEntry, addr: vaddr, level: 0 })
        } else {
            match self.entry_at(mem, self.spec_entry_address(table, vaddr, level)) {
                None => Err(Error { kind: ErrorKind::PhysicalReadError, addr: vaddr, level }),
                Some(entry) => match self.spec_decode_entry(entry, vaddr, level) {
                    Step::Fault(kind) => Err(Error { kind, addr: vaddr, level }),
                    Step::Leaf(paddr) => Ok(paddr),
                    Step::Table(next) => self.walk_from(mem, next, vaddr, (level - 1) as u8),
                },
            }
        }
    }

    /// The translation of `vaddr` in the address space of `dtb`, as the
    /// paging structures in `mem` give it.
    pub open spec fn walk(self, mem: Seq<u8>, dtb: Address, vaddr: Address) -> Result<PhysicalAddress, Error> {
        if !self.spec_is_canonical(vaddr) {
            Err(Error { kind: ErrorKind::AddressNonCanonical, addr: vaddr, level: 0 })
        } else {
            self.walk_from(mem, self.spec_root_table(dtb), vaddr, self.spec_levels())
        }
    }

    /// A walk that fails reports the address it was asked for, and one of
    /// four kinds of failure.
    pub proof fn lemma_walk_from_error(self, mem: Seq<u8>, table: u64, vaddr: Address, level: u8)
        ensures
            self.walk_from(mem, table, vaddr, level) matches Err(e) ==> e.addr == vaddr && (e.kind == ErrorKind::PageNotPresent
                || e.kind == ErrorKind::InvalidEntry || e.kind == ErrorKind::PhysicalReadError),
        decreases level,
    {
        if level > 0 {
            match self.entry_at(mem, self.spec_entry_address(table, vaddr, level)) {
                None => {},
                Some(entry) => {
                    match self.spec_decode_entry(entry, vaddr, level) {
                        Step::Table(next) => {
                            self.lemma_walk_from_error(mem, next, vaddr, (level - 1) as u8);
                        },
                        _ => {},
                    }
                },
            }
        }
    }

    /// A translation that fails reports the address it was asked for, and
    /// one of four kinds of failure.
    pub proof fn lemma_walk_error(self, mem: Seq<u8>, dtb: Address, vaddr: Address)
        ensures
            self.walk(mem, dtb, vaddr) matches Err(e) ==> e.addr == vaddr && (e.kind == ErrorKind::AddressNonCanonical || e.kind
                == ErrorKind::PageNotPresent || e.kind == ErrorKind::InvalidEntry || e.kind == ErrorKind::PhysicalReadError),
    {
        self.lemma_walk_from_error(mem, self.spec_root_table(dtb), vaddr, self.spec_levels());
    }

    /// From one table on, the walks for two addresses of one 4 KiB page end
    /// in the same page, each address at its own place in it.
    pub proof fn lemma_walk_from_same_page(self, mem: Seq<u8>, table: u64, vaddr: Address, other: Address, level: u8)
        requires
            vaddr.0 >> 12 == other.0 >> 12,
        ensures
            self.walk_from(mem, table, vaddr, level) matches Ok(found) ==> self.walk_from(mem, table, other, level)
                == Ok::<PhysicalAddress, Error>(moved(found, vaddr, other)) && found.address.0 % 4096 == vaddr.0 % 4096,
        decreases level,
    {
        if level > 0 {
            lemma_same_index(vaddr.0, other.0, self.spec_index_shift(level), self.spec_index_mask(level));
            assert(self.spec_entry_address(table, vaddr, level) == self.spec_entry_address(table, other, level));
            match self.entry_at(mem, self.spec_entry_address(table, vaddr, level)) {
                None => {},
                Some(entry) => {
                    match self.spec_decode_entry(entry, vaddr, level) {
                        Step::Fault(_) => {},
                        Step::Leaf(found) => {
                            let size = if level <= 1 {
                                0x1000u64
                            } else {
                                self.spec_page_size_at(level)
                            };
                            lemma_leaf_moved(entry & self.spec_address_mask(), (size - 1) as u64, vaddr.0, other.0);
                            assert(self.spec_decode_entry(entry, other, level) == Step::Leaf(moved(found, vaddr, other)));
                        },
                        Step::Table(next) => {
                            assert(self.spec_decode_entry(entry, other, level) == Step::Table(next));
                            self.lemma_walk_from_same_page(mem, next, vaddr, other, (level - 1) as u8);
                        },
                    }
                },
            }
        }
    }

    /// The walks for two addresses of one smallest page end in the same
    /// page, each address at its own place in it.
    pub proof fn lemma_walk_same_page(self, mem: Seq<u8>, dtb: Address, vaddr: Address, other: Address)
        requires
            vaddr.aligned(self.spec_page_size()) == other.aligned(self.spec_page_size()),
        ensures
            self.walk(mem, dtb, vaddr) matches Ok(found) ==> self.walk(mem, dtb, other) == Ok::<PhysicalAddress, Error>(
                moved(found, vaddr, other),
            ) && found.address.0 % 4096 == vaddr.0 % 4096,
    {
        lemma_same_page_bits(vaddr.0, other.0);
        lemma_same_index(vaddr.0, other.0, 12, 0);
        self.lemma_walk_from_same_page(mem, self.spec_root_table(dtb), vaddr, other, self.spec_levels());
    }

    /// Of two addresses of one smallest page either both are mapped or
    /// neither is, and where they are, they lie as far apart physically as
    /// they do virtually.
    pub proof fn lemma_walk_within_page(self, mem: Seq<u8>, dtb: Address, start: Address, vaddr: Address)
        requires
            start.0 <= vaddr.0,
            start.0 % 4096 + (vaddr.0 - start.0) < 4096,
        ensures
            self.walk(mem, dtb, start) is Ok <==> self.walk(mem, dtb, vaddr) is Ok,
            self.walk(mem, dtb, start) matches Ok(found) ==> self.walk(mem, dtb, vaddr) matches Ok(there) && there.address.0
                == found.address.0 + (vaddr.0 - start.0) && there.page == found.page,
    {
        let d = vaddr.0 - start.0;
        vstd::arithmetic::div_mod::lemma_fundamental_div_mod(start.0 as int, 4096);
        vstd::arithmetic::div_mod::lemma_fundamental_div_mod_converse(vaddr.0 as int, 4096, start.0 as int / 4096, start.0 % 4096 + d);
        assert(start.aligned(self.spec_page_size()) == vaddr.aligned(self.spec_page_size()));
        self.lemma_walk_same_page(mem, dtb, start, vaddr);
        self.lemma_walk_same_page(mem, dtb, vaddr, start);
        match self.walk(mem, dtb, start) {
            Ok(found) => {
                let a = found.address.0 as int;
                vstd::arithmetic::div_mod::lemma_fundamental_div_mod(a, 4096);
                assert(a - a % 4096 == 4096 * (a / 4096));
                assert(4096 * (a / 4096) + 4096 <= 0x1_0000_0000_0000_0000) by {
                    assert(a / 4096 <= 0xf_ffff_ffff_ffff) by (nonlinear_arith)
                        requires
                            a == 4096 * (a / 4096) + a % 4096,
                            0 <= a % 4096,
                            a <= 0xffff_ffff_ffff_ffff,
                    ;
                }
            },
            Err(_) => {},
        }
    }

    /// The table of `level` in which the walk for `vaddr` reads an entry:
    /// the topmost table at the topmost level, below it the table that the
    /// entry of the level above names. There is none where the address is
    /// not canonical and where the walk ends above `level`.
    pub open spec fn table_at(self, mem: Seq<u8>, dtb: Address, vaddr: Address, level: u8) -> Option<u64>
        decreases self.spec_levels() - level,
    {
        if level >= self.spec_levels() {
            if level == self.spec_levels() && self.spec_is_canonical(vaddr) {
                Some(self.spec_root_table(dtb))
            } else {
                None
            }
        } else {
            match self.table_at(mem, dtb, vaddr, (level + 1) as u8) {
                None => None,
                Some(table) => match self.entry_at(mem, self.spec_entry_address(table, vaddr, (level + 1) as u8)) {
                    None => None,
                    Some(entry) => match self.spec_decode_entry(entry, vaddr, (level + 1) as u8) {
                        Step::Table(next) => Some(next),
                        _ => None,
                    },
                },
            }
        }
    }

    /// What the walker gives for `vaddr` where the backend failed to read
    /// the entries of level `failed`, or never failed (`failed` is 0): a
    /// `PhysicalReadError` at that level for an address whose walk came
    /// to it, and else what the walk gives.
    pub open spec fn result_of(self, mem: Seq<u8>, dtb: Address, vaddr: Address, failed: u8) -> Result<PhysicalAddress, Error> {
        if failed > 0 && self.table_at(mem, dtb, vaddr, failed) is Some {
            Err(Error { kind: ErrorKind::PhysicalReadError, addr: vaddr, level: failed })
        } else {
            self.walk(mem, dtb, vaddr)
        }
    }

    /// The walk of one of `addrs` comes to `level`.
    pub open spec fn reaches(self, mem: Seq<u8>, dtb: Address, addrs: Seq<Address>, level: u8) -> bool {
        exists|j: int| 0 <= j < addrs.len() && #[trigger] self.table_at(mem, dtb, addrs[j], level) is Some
    }

    /// `request` is what the walker asks of the backend at `level` for
    /// `vaddr`: the entry in the table that the walk came to, into a buffer
    /// of zeros, or no bytes at address zero where the walk ended above.
    pub open spec fn asks_entry(self, mem: Seq<u8>, dtb: Address, vaddr: Address, level: u8, request: PhysicalData) -> bool {
        let page = Page { page_type: PageType(PAGE_READABLE), page_size: Length(0x1000) };
        match self.table_at(mem, dtb, vaddr, level) {
            Some(table) => request.0 == (PhysicalAddress { address: Address(self.spec_entry_address(table, vaddr, level)), page })
                && request.1@ == Seq::new(self.spec_entry_size() as nat, |p: int| 0u8),
            None => request.0 == (PhysicalAddress { address: Address(0), page }) && request.1.len() == 0,
        }
    }

    /// `batch` is what the walker asks of the backend at `level`: one
    /// request for each of `addrs`, in their order.
    pub open spec fn asks_entries(self, mem: Seq<u8>, dtb: Address, addrs: Seq<Address>, level: u8, batch: Seq<PhysicalData>) -> bool {
        &&& batch.len() == addrs.len()
        &&& forall|j: int| 0 <= j < addrs.len() ==> self.asks_entry(mem, dtb, addrs[j], level, #[trigger] batch[j])
    }

    /// What the walker does at `level` while the backend has not failed:
    /// where the walk of an address comes to the level, one read of the
    /// backend for the entries that `asks_entries` names, which succeeded
    /// just where `read` holds; else nothing, and `read` holds.
    pub open spec fn level_pass<T: AccessPhysicalMemory>(
        self,
        pre: T,
        mem: Seq<u8>,
        dtb: Address,
        addrs: Seq<Address>,
        level: u8,
        post: T,
        read: bool,
    ) -> bool {
        if self.reaches(mem, dtb, addrs, level) {
            exists|asked: Seq<PhysicalData>, after: Seq<PhysicalData>, r: Result<(), Error>|
                self.asks_entries(mem, dtb, addrs, level, asked) && #[trigger] pre.read_step(asked, post, after, r) && (r is Ok <==> read)
        } else {
            post == pre && read
        }
    }

    /// `states` are the states that the backend went through, level by
    /// level from the topmost, while the walker translated `addrs`: one
    /// pass as `level_pass` says at each level down to the level `failed`,
    /// at which the backend failed, and nothing below it. Where `failed`
    /// is 0 the backend never failed.
    pub open spec fn passes<T: AccessPhysicalMemory>(self, states: Seq<T>, mem: Seq<u8>, dtb: Address, addrs: Seq<Address>, failed: u8) -> bool {
        &&& states.len() == self.spec_levels() + 1
        &&& failed <= self.spec_levels()
        &&& forall|k: int| 0 <= k <= self.spec_levels() ==> (#[trigger] states[k]).view() == mem && states[k].inv()
        &&& forall|k: int|
            0 <= k < self.spec_levels() ==> {
                let level = (self.spec_levels() - k) as u8;
                if level >= failed {
                    self.level_pass(#[trigger] states[k], mem, dtb, addrs, level, states[k + 1], level > failed)
                } else {
                    states[k + 1] == states[k]
                }
            }
    }

    /// What a batch translation by the walker does: the backend goes from
    /// `pre` to `post` through the passes that `passes` describes, and
    /// `found` holds for each of `addrs`, in their order, the result that
    /// `result_of` gives. A result differs from what the walk gives only
    /// where a read of the backend failed.
    pub open spec fn walked<T: AccessPhysicalMemory>(
        self,
        pre: T,
        dtb: Address,
        addrs: Seq<Address>,
        post: T,
        found: Seq<Result<PhysicalAddress, Error>>,
    ) -> bool {
        exists|states: Seq<T>, failed: u8| #[trigger]
            self.passes(states, pre.view(), dtb, addrs, failed) && states[0] == pre && states[self.spec_levels() as int] == post
                && found.len() == addrs.len() && forall|i: int|
                0 <= i < addrs.len() ==> #[trigger] found[i] == self.result_of(pre.view(), dtb, addrs[i], failed)
    }

    /// How the state of one address stands to the walk at `level`, where
    /// the backend failed at level `failed` or not at all.
    spec fn in_step(self, mem: Seq<u8>, dtb: Address, vaddr: Address, state: WalkState, level: u8, failed: u8) -> bool {
        match state {
            WalkState::Walking(table) => failed == 0 && self.table_at(mem, dtb, vaddr, level) == Some(table),
            WalkState::Done(found) => found == self.result_of(mem, dtb, vaddr, failed) && (failed == 0 ==> self.table_at(mem, dtb, vaddr, level)
                is None),
        }
    }

    /// Where the walk of `vaddr` stands when `state` was reached with
    /// `level` levels still to go.
    spec fn on_track(self, mem: Seq<u8>, dtb: Address, vaddr: Address, state: WalkState, level: u8) -> bool {
        match state {
            WalkState::Walking(table) => table <= ADDRESS_LIMIT && self.walk(mem, dtb, vaddr) == self.walk_from(
                mem,
                table,
                vaddr,
                level,
            ),
            WalkState::Done(found) => agrees(found, self.walk(mem, dtb, vaddr), vaddr),
        }
    }

    /// One step of a walk: from the bytes that the backend read for the
    /// entry, or from its failure, to the next state.
    fn advance(self, table: u64, vaddr: Address, level: u8, read: bool, bytes: &Vec<u8>, Ghost(mem): Ghost<Seq<u8>>) -> (state: WalkState)
        requires
            1 <= level <= 4,
            table <= ADDRESS_LIMIT,
            bytes.len() == self.spec_entry_size(),
            read ==> self.spec_entry_address(table, vaddr, level) + bytes.len() <= mem.len() && bytes@ == mem.subrange(
                self.spec_entry_address(table, vaddr, level) as int,
                self.spec_entry_address(table, vaddr, level) + bytes.len(),
            ),
        ensures
            match state {
                WalkState::Walking(next) => next <= ADDRESS_LIMIT && self.walk_from(mem, table, vaddr, level)
                    == self.walk_from(mem, next, vaddr, (level - 1) as u8),
                WalkState::Done(found) => agrees(found, self.walk_from(mem, table, vaddr, level), vaddr),
            },
            !read ==> state == WalkState::Done(Err(Error { kind: ErrorKind::PhysicalReadError, addr: vaddr, level })),
            read ==> self.entry_at(mem, self.spec_entry_address(table, vaddr, level)) is Some && match self.spec_decode_entry(
                self.entry_at(mem, self.spec_entry_address(table, vaddr, level))->Some_0,
                vaddr,
                level,
            ) {
                Step::Table(next) => state == WalkState::Walking(next),
                Step::Leaf(paddr) => state == WalkState::Done(Ok(paddr)),
                Step::Fault(kind) => state == WalkState::Done(Err(Error { kind, addr: vaddr, level })),
            },
    {
        if !read {
            proof {
                self.lemma_walk_from_error(mem, table, vaddr, level);
            }
            return WalkState::Done(Err(Error::at_level(ErrorKind::PhysicalReadError, vaddr, level)));
        }
        proof {
            lemma_le_value_bound(bytes@);
            lemma_pow256_values();
            lemma_pow256_monotonic(bytes@.len(), 8);
        }
        let entry: u64 = read_le(bytes);
        match self.decode_entry(entry, vaddr, level) {
            Step::Fault(kind) => WalkState::Done(Err(Error::at_level(kind, vaddr, level))),
            Step::Leaf(paddr) => WalkState::Done(Ok(paddr)),
            Step::Table(next) => WalkState::Walking(next),
        }
    }

    /// The request that reads the entry which `state` needs next: none of
    /// its bytes where the walk is done.
    spec fn wanted(self, request: PhysicalData, vaddr: Address, state: WalkState, level: u8) -> bool {
        match state {
            WalkState::Walking(table) => request.0.address.0 == self.spec_entry_address(table, vaddr, level)
                && request.1.len() == self.spec_entry_size(),
            WalkState::Done(_) => request.1.len() == 0,
        }
    }

    /// No walk comes below the lowest level: an entry of level 1 names no
    /// table.
    pub proof fn lemma_no_table_below(self, mem: Seq<u8>, dtb: Address, vaddr: Address)
        ensures
            self.table_at(mem, dtb, vaddr, 0) is None,
    {
    }

    /// Translates a batch of virtual addresses of the address space of
    /// `dtb`, which come with a tag each. The entries that the addresses
    /// need at one level are read in one pass of the backend, and no
    /// level is read for which no walk is under way. One result is
    /// appended to `out` for each address, in the order of `addrs`: what
    /// the walk gives, or a `PhysicalReadError` for the walks that were
    /// under way at the level whose pass the backend failed. `walked`
    /// says so exactly.
    pub fn virt_to_phys_tagged<T: AccessPhysicalMemory>(self, mem: &mut T, dtb: Address, addrs: &[(Address, usize)], out: &mut Vec<Translation>)
        requires
            old(mem).inv(),
        ensures
            final(mem).inv(),
            final(mem).view() == old(mem).view(),
            forall|arch: Architecture| old(mem).faithful(arch) ==> #[trigger] final(mem).faithful(arch),
            (forall|i: int| 0 <= i < addrs.len() ==> !self.spec_is_canonical((#[trigger] addrs[i]).0)) ==> *final(mem) == *old(mem),
            final(out).len() == old(out).len() + addrs.len(),
            final(out)@.take(old(out).len() as int) == old(out)@,
            forall|k: int| old(out).len() <= k < final(out).len() ==> {
                let o = #[trigger] final(out)[k];
                let i = k - old(out).len();
                &&& o.1 == addrs[i].0
                &&& o.2 == addrs[i].1
                &&& agrees(o.0, self.walk(old(mem).view(), dtb, addrs[i].0), addrs[i].0)
                &&& !self.spec_is_canonical(addrs[i].0) ==> o.0 == self.walk(old(mem).view(), dtb, addrs[i].0)
            },
            self.walked(*old(mem), dtb, addresses(addrs@), *final(mem), outcomes(final(out)@.skip(old(out).len() as int))),
    {
        let n: usize = addrs.len();
        let ghost image = mem.view();
        let ghost places = addresses(addrs@);
        let mut states: Vec<WalkState> = Vec::with_capacity(n);
        let root: u64 = self.root_table(dtb);
        let mut i: usize = 0;
        while i < n
            invariant
                i <= n,
                n == addrs.len(),
                states.len() == i,
                root == self.spec_root_table(dtb),
                root <= ADDRESS_LIMIT,
                forall|j: int| 0 <= j < i ==> self.on_track(image, dtb, addrs[j].0, #[trigger] states[j], self.spec_levels()),
                forall|j: int| 0 <= j < i ==> self.in_step(image, dtb, addrs[j].0, #[trigger] states[j], self.spec_levels(), 0),
                forall|j: int| 0 <= j < i ==> ((#[trigger] states[j]) is Done <==> !self.spec_is_canonical(addrs[j].0)),
            decreases n - i,
        {
            let vaddr = addrs[i].0;
            if self.is_canonical(vaddr) {
                states.push(WalkState::Walking(root));
            } else {
                states.push(WalkState::Done(Err(Error::new(ErrorKind::AddressNonCanonical, vaddr))));
            }
            i += 1;
        }
        let mut level: u8 = self.levels();
        let ghost mut trace: Seq<T> = seq![*mem];
        let ghost mut failed: u8 = 0;
        while level > 0
            invariant
                level <= self.spec_levels(),
                n == addrs.len(),
                states.len() == n,
                mem.inv(),
                mem.view() == image,
                forall|arch: Architecture| old(mem).faithful(arch) ==> #[trigger] mem.faithful(arch),
                forall|j: int| 0 <= j < n ==> self.on_track(image, dtb, addrs[j].0, #[trigger] states[j], level),
                (forall|i: int| 0 <= i < addrs.len() ==> !self.spec_is_canonical((#[trigger] addrs[i]).0)) ==> *mem == *old(mem)
                    && forall|j: int| 0 <= j < n ==> (#[trigger] states[j]) is Done,
                places == addresses(addrs@),
                trace.len() == self.spec_levels() - level + 1,
                trace[0] == *old(mem),
                trace[trace.len() - 1] == *mem,
                failed == 0 || level < failed <= self.spec_levels(),
                forall|k: int| 0 <= k < trace.len() ==> (#[trigger] trace[k]).view() == image && trace[k].inv(),
                forall|k: int|
                    0 <= k < trace.len() - 1 ==> {
                        let l = (self.spec_levels() - k) as u8;
                        if l >= failed {
                            self.level_pass(#[trigger] trace[k], image, dtb, places, l, trace[k + 1], l > failed)
                        } else {
                            trace[k + 1] == trace[k]
                        }
                    },
                forall|j: int| 0 <= j < n ==> self.in_step(image, dtb, addrs[j].0, #[trigger] states[j], level, failed),
            decreases level,
        {
            let mut batch: Vec<PhysicalData> = Vec::with_capacity(n);
            let mut walking: usize = 0;
            let mut i: usize = 0;
            while i < n
                invariant
                    i <= n,
                    n == addrs.len(),
                    states.len() == n,
                    batch.len() == i,
                    walking <= i,
                    1 <= level <= 4,
                    forall|j: int| 0 <= j < n ==> self.on_track(image, dtb, addrs[j].0, #[trigger] states[j], level),
                    forall|j: int| 0 <= j < n ==> self.in_step(image, dtb, addrs[j].0, #[trigger] states[j], level, failed),
                    forall|j: int| 0 <= j < i ==> self.wanted(#[trigger] batch[j], addrs[j].0, states[j], level),
                    failed == 0 ==> forall|j: int| 0 <= j < i ==> self.asks_entry(image, dtb, addrs[j].0, level, #[trigger] batch[j]),
                    walking == 0 ==> forall|j: int| 0 <= j < i ==> (#[trigger] states[j]) is Done,
                    walking > 0 ==> exists|j: int| 0 <= j < i && (#[trigger] states[j]) is Walking,
                decreases n - i,
            {
                match states[i] {
                    WalkState::Walking(table) => {
                        let at = Address(self.entry_address(table, addrs[i].0, level));
                        let zeros: Vec<u8> = vec![0u8; self.entry_size()];
                        proof {
                            assert(zeros@ =~= Seq::new(self.spec_entry_size() as nat, |p: int| 0u8));
                        }
                        batch.push((PhysicalAddress::with_page(at, PageType(PAGE_READABLE), Length(0x1000)), zeros));
                        walking += 1;
                    },
                    WalkState::Done(_) => {
                        batch.push((PhysicalAddress::with_page(Address(0), PageType(PAGE_READABLE), Length(0x1000)), Vec::new()));
                    },
                }
                i += 1;
            }
            let ghost was = *mem;
            if walking > 0 {
                let ghost asked = batch@;
                proof {
                    let j = choose|j: int| 0 <= j < n && (#[trigger] states[j]) is Walking;
                    assert(self.in_step(image, dtb, addrs[j].0, states[j], level, failed));
                    assert(self.table_at(image, dtb, places[j], level) is Some);
                    assert(self.reaches(image, dtb, places, level));
                    assert(self.asks_entries(image, dtb, places, level, asked));
                }
                let r = mem.phys_read_raw_iter(&mut batch);
                let read = r.is_ok();
                proof {
                    assert(was.read_step(asked, *mem, batch@, r));
                    assert(self.level_pass(was, image, dtb, places, level, *mem, read));
                    if !read {
                        failed = level;
                    }
                }
                let mut i: usize = 0;
                while i < n
                    invariant
                        i <= n,
                        n == addrs.len(),
                        states.len() == n,
                        batch.len() == n,
                        1 <= level <= self.spec_levels(),
                        failed == if read { 0 } else { level },
                        read ==> forall|j: int| 0 <= j < n ==> holds_bytes(image, #[trigger] batch[j]),
                        forall|j: int| i <= j < n ==> self.on_track(image, dtb, addrs[j].0, #[trigger] states[j], level),
                        forall|j: int| i <= j < n ==> self.in_step(image, dtb, addrs[j].0, #[trigger] states[j], level, 0),
                        forall|j: int| i <= j < n ==> self.wanted(#[trigger] batch[j], addrs[j].0, states[j], level),
                        forall|j: int| 0 <= j < i ==> self.on_track(image, dtb, addrs[j].0, #[trigger] states[j], (level - 1) as u8),
                        forall|j: int| 0 <= j < i ==> self.in_step(image, dtb, addrs[j].0, #[trigger] states[j], (level - 1) as u8, failed),
                    decreases n - i,
                {
                    assert(self.in_step(image, dtb, addrs[i as int].0, states[i as int], level, 0));
                    match states[i] {
                        WalkState::Walking(table) => {
                            assert(self.wanted(batch[i as int], addrs[i as int].0, states[i as int], level));
                            assert(read ==> holds_bytes(image, batch[i as int]));
                            let next = self.advance(table, addrs[i].0, level, read, &batch[i].1, Ghost(image));
                            states[i] = next;
                            assert(self.in_step(image, dtb, addrs[i as int].0, next, (level - 1) as u8, failed));
                        },
                        WalkState::Done(_) => {
                            assert(self.in_step(image, dtb, addrs[i as int].0, states[i as int], (level - 1) as u8, failed));
                        },
                    }
                    i += 1;
                }
            } else {
                proof {
                    assert forall|j: int| 0 <= j < n implies self.in_step(image, dtb, addrs[j].0, #[trigger] states[j], (level - 1) as u8, failed) by {
                        assert(self.in_step(image, dtb, addrs[j].0, states[j], level, failed));
                    }
                    if failed == 0 {
                        assert(!self.reaches(image, dtb, places, level)) by {
                            assert forall|j: int| 0 <= j < n implies !(#[trigger] self.table_at(image, dtb, places[j], level) is Some) by {
                                assert(self.in_step(image, dtb, addrs[j].0, states[j], level, failed));
                            }
                        }
                        assert(self.level_pass(was, image, dtb, places, level, *mem, true));
                    }
                }
            }
            proof {
                let longer = trace.push(*mem);
                assert forall|k: int| 0 <= k < longer.len() - 1 implies {
                    let l = (self.spec_levels() - k) as u8;
                    if l >= failed {
                        self.level_pass(#[trigger] longer[k], image, dtb, places, l, longer[k + 1], l > failed)
                    } else {
                        longer[k + 1] == longer[k]
                    }
                } by {
                    if k < trace.len() - 1 {
                        assert(longer[k] == trace[k]);
                        assert(longer[k + 1] == trace[k + 1]);
                    } else {
                        assert(longer[k] == was);
                        assert(longer[k + 1] == *mem);
                    }
                }
                trace = longer;
            }
            level -= 1;
        }
        let ghost before = out@;
        let mut i: usize = 0;
        while i < n
            invariant
                i <= n,
                n == addrs.len(),
                states.len() == n,
                out.len() == before.len() + i,
                out@.take(before.len() as int) == before,
                forall|j: int| 0 <= j < n ==> self.on_track(image, dtb, addrs[j].0, #[trigger] states[j], 0),
                forall|j: int| 0 <= j < n ==> self.in_step(image, dtb, addrs[j].0, #[trigger] states[j], 0, failed),
                forall|k: int| before.len() <= k < out.len() ==> {
                    let o = #[trigger] out[k];
                    let j = k - before.len();
                    &&& o.1 == addrs[j].0
                    &&& o.2 == addrs[j].1
                    &&& agrees(o.0, self.walk(image, dtb, addrs[j].0), addrs[j].0)
                    &&& o.0 == self.result_of(image, dtb, addrs[j].0, failed)
                },
            decreases n - i,
        {
            let found = match states[i] {
                WalkState::Walking(_) => Err(Error::new(ErrorKind::InvalidEntry, addrs[i].0)),
                WalkState::Done(found) => found,
            };
            let ghost prev = out@;
            out.push((found, addrs[i].0, addrs[i].1));
            proof {
                assert(out@.take(before.len() as int) =~= prev.take(before.len() as int));
                assert forall|k: int| before.len() <= k < out.len() implies {
                    let o = #[trigger] out[k];
                    let j = k - before.len();
                    &&& o.1 == addrs[j].0
                    &&& o.2 == addrs[j].1
                    &&& agrees(o.0, self.walk(image, dtb, addrs[j].0), addrs[j].0)
                    &&& o.0 == self.result_of(image, dtb, addrs[j].0, failed)
                } by {
                    if k < before.len() + i {
                        assert(out[k] == prev[k]);
                    } else {
                        assert(self.on_track(image, dtb, addrs[i as int].0, states[i as int], 0));
                        assert(self.in_step(image, dtb, addrs[i as int].0, states[i as int], 0, failed));
                        self.lemma_no_table_below(image, dtb, addrs[i as int].0);
                    }
                }
            }
            i += 1;
        }
        proof {
            let found = outcomes(out@.skip(before.len() as int));
            assert(self.passes(trace, image, dtb, places, failed));
            assert forall|i: int| 0 <= i < places.len() implies #[trigger] found[i] == self.result_of(image, dtb, places[i], failed) by {
                assert(found[i] == out[before.len() + i].0);
            }
        }
    }

    /// Translates a batch of virtual addresses of the address space of
    /// `dtb` that carry a payload each. One result is appended to `out`
    /// for each address, in the order of `addrs` and with its payload: what
    /// the walk gives, or a `PhysicalReadError` where the backend failed on
    /// the way.
    pub fn virt_to_phys_iter<T: AccessPhysicalMemory, B>(self, mem: &mut T, dtb: Address, addrs: Vec<(Address, B)>, out: &mut Vec<Translated<B>>)
        requires
            old(mem).inv(),
        ensures
            final(mem).inv(),
            final(mem).view() == old(mem).view(),
            forall|arch: Architecture| old(mem).faithful(arch) ==> #[trigger] final(mem).faithful(arch),
            (forall|i: int| 0 <= i < addrs.len() ==> !self.spec_is_canonical((#[trigger] addrs[i]).0)) ==> *final(mem) == *old(mem),
            final(out).len() == old(out).len() + addrs.len(),
            final(out)@.take(old(out).len() as int) == old(out)@,
            forall|k: int| old(out).len() <= k < final(out).len() ==> {
                let o = #[trigger] final(out)[k];
                let i = k - old(out).len();
                &&& o.1 == addrs[i].0
                &&& o.2 == addrs[i].1
                &&& agrees(o.0, self.walk(old(mem).view(), dtb, addrs[i].0), addrs[i].0)
                &&& !self.spec_is_canonical(addrs[i].0) ==> o.0 == self.walk(old(mem).view(), dtb, addrs[i].0)
            },
            self.walked(*old(mem), dtb, addresses(addrs@), *final(mem), outcomes(final(out)@.skip(old(out).len() as int))),
    {
        let ghost all = addrs@;
        let ghost before = out@;
        let (places, mut payloads) = detach(addrs);
        let ghost table = payloads@;
        let mut results: Vec<Translation> = Vec::new();
        self.virt_to_phys_tagged(mem, dtb, places.as_slice(), &mut results);
        let ghost found = results@;
        proof {
            assert forall|k: int| 0 <= k < found.len() implies (#[trigger] found[k]).2 == k by {
                assert(places[k] == (all[k].0, k as usize));
            }
        }
        attach(results, &mut payloads, out);
        proof {
            assert(out@.take(before.len() as int) =~= before);
            assert forall|k: int| before.len() <= k < out.len() implies {
                let o = #[trigger] out[k];
                let i = k - before.len();
                &&& o.1 == all[i].0
                &&& o.2 == all[i].1
                &&& agrees(o.0, self.walk(old(mem).view(), dtb, all[i].0), all[i].0)
            } by {
                let i = k - before.len();
                assert(out[k] == attached(found, table)[i]);
                assert(found[i].2 == i);
                assert(places[i] == (all[i].0, i as usize));
            }
            assert(addresses(places@) =~= addresses(all));
            assert(found.skip(0) =~= found);
            assert(outcomes(out@.skip(before.len() as int)) =~= outcomes(found)) by {
                assert forall|i: int| 0 <= i < all.len() implies out[before.len() + i].0 == found[i].0 by {
                    assert(out[before.len() + i] == attached(found, table)[i]);
                }
            }
        }
    }

    /// Translates one virtual address of the address space of `dtb`.
    pub fn virt_to_phys<T: AccessPhysicalMemory>(self, mem: &mut T, dtb: Address, vaddr: Address) -> (found: Result<PhysicalAddress, Error>)
        requires
            old(mem).inv(),
        ensures
            final(mem).inv(),
            final(mem).view() == old(mem).view(),
            forall|arch: Architecture| old(mem).faithful(arch) ==> #[trigger] final(mem).faithful(arch),
            agrees(found, self.walk(old(mem).view(), dtb, vaddr), vaddr),
            self.walked(*old(mem), dtb, seq![vaddr], *final(mem), seq![found]),
    {
        let mut addrs: Vec<(Address, usize)> = Vec::new();
        addrs.push((vaddr, 0));
        let mut out: Vec<Translation> = Vec::new();
        self.virt_to_phys_tagged(mem, dtb, addrs.as_slice(), &mut out);
        proof {
            assert(addresses(addrs@) =~= seq![vaddr]);
            assert(outcomes(out@.skip(0)) =~= seq![out[0].0]);
        }
        out[0].0
    }
}

} // verus!
