//! Reading and writing by virtual address with the address space named in
//! each call.
use vstd::prelude::*;
use crate::architecture::{Architecture, Translation, agrees};
use crate::error::{Error, ErrorKind};
use crate::mem::virt_from_phys::{mapped_bytes, mapped_targets, read_steps, read_virtual, write_steps, write_virtual};
use crate::mem::virt_mem::{VirtualReadData, VirtualWriteData, aimed, all_empty, all_in_range, all_mapped, any_mapped, beyond, extents,
    first_beyond, read_raw_outcome, unmapped_at,
    requests_of, write_effect, write_frame, write_outcome};
use crate::types::{Address, Length, PhysicalAddress};
use crate::vat::VirtualAddressTranslator;

verus! {

/// A translator seen as virtual memory: each call names the architecture
/// and the directory table base of the address space it means.
pub struct VatImpl<T>(pub T);

impl<T: VirtualAddressTranslator> VatImpl<T> {
    /// Virtual memory on top of the translator `mem`.
    pub fn new(mem: T) -> (vat: Self)
        ensures
            vat.0 == mem,
    {
        VatImpl(mem)
    }

    /// Reads `len` bytes at `addr` of the address space of `dtb` into a
    /// new buffer of zeros. Pages that are not mapped are skipped: their
    /// bytes stay zero. The read fails with `PartialTranslation` where it
    /// asks for bytes and no page is mapped, and with `InvalidArgument`
    /// where it reaches beyond the address space or is longer than a
    /// buffer can be. A `PhysicalReadError` or `OutOfBounds` comes only
    /// from a translation that gave it or from a read of the backend that
    /// failed.
    pub fn virt_read(&mut self, arch: Architecture, dtb: Address, addr: Address, len: Length) -> (r: Result<Vec<u8>, Error>)
        requires
            old(self).0.inv(),
        ensures
            final(self).0.inv(),
            final(self).0.view() == old(self).0.view(),
            old(self).0.faithful(arch) ==> final(self).0.faithful(arch),
            r matches Ok(bytes) ==> bytes.len() == len.0,
            old(self).0.faithful(arch) ==> read_raw_outcome(
                mapped_bytes(arch, old(self).0.view(), dtb),
                addr,
                len.0 as int,
                match r {
                    Ok(bytes) => Ok(bytes@),
                    Err(e) => Err(e),
                },
            ),
            len.0 == 0 ==> r is Ok && *final(self) == *old(self),
            addr.0 + len.0 <= 0x1_0000_0000_0000_0000 && 0 < len.0 <= usize::MAX ==> read_steps(
                old(self).0,
                arch,
                dtb,
                seq![(addr, len.0 as usize)],
                final(self).0,
                match r {
                    Ok(_) => Ok::<(), Error>(()),
                    Err(e) => Err::<(), Error>(e),
                },
            ),
            addr.0 + len.0 > 0x1_0000_0000_0000_0000 || len.0 > usize::MAX ==> r is Err && r->Err_0 == beyond(addr) && *final(self)
                == *old(self),
    {
        if len.0 > usize::MAX as u64 {
            return Err(Error::new(ErrorKind::InvalidArgument, addr));
        }
        let ghost view = mapped_bytes(arch, self.0.view(), dtb);
        let buf: Vec<u8> = vec![0u8; len.0 as usize];
        let ghost zeros = buf@;
        let mut batch: Vec<VirtualReadData> = Vec::new();
        batch.push((addr, buf));
        let ghost before = requests_of(batch@);
        proof {
            assert(zeros =~= Seq::new(len.0 as nat, |p: int| 0u8));
            assert(before =~= seq![(addr, zeros)]);
            assert(extents(before)[0] == (addr, len.0 as usize));
            assert(extents(before) =~= seq![(addr, len.0 as usize)]);
        }
        let r = read_virtual(&mut self.0, arch, dtb, &mut batch);
        let ghost after = requests_of(batch@);
        let ghost filled = batch@;
        let (_, buf) = batch.pop().unwrap();
        proof {
            assert(after.len() == 1);
            assert(after[0] == (filled[0].0, filled[0].1@));
            assert(before[0] == (addr, zeros));
            if any_mapped(view, extents(before)[0].0.0 as int, extents(before)[0].1 as int) {
                assert(any_mapped(view, addr.0 as int, len.0 as int));
            }
        }
        match r {
            Ok(_) => Ok(buf),
            Err(e) => Err(e),
        }
    }

    /// Writes `data` at `addr` of the address space of `dtb` and gives the
    /// number of bytes written. Data that would reach beyond the address
    /// space is refused with `InvalidArgument` before anything else is
    /// done. Then `addr` is translated, whatever the length of `data`:
    /// where it does not translate, the error of that translation comes
    /// back and nothing is written. Nothing is written either where
    /// another address of `data` is not mapped. A `PhysicalReadError`
    /// comes only from a translation that gave it.
    pub fn virt_write(&mut self, arch: Architecture, dtb: Address, addr: Address, data: &Vec<u8>) -> (r: Result<Length, Error>)
        requires
            old(self).0.inv(),
        ensures
            final(self).0.inv(),
            final(self).0.view().len() == old(self).0.view().len(),
            r matches Ok(written) ==> written.0 == data.len(),
            addr.0 + data.len() > 0x1_0000_0000_0000_0000 ==> r is Err && r->Err_0 == beyond(addr) && *final(self) == *old(self),
            old(self).0.faithful(arch) && addr.0 + data.len() <= 0x1_0000_0000_0000_0000 && arch.walk(old(self).0.view(), dtb, addr) is Err
                ==> r is Err && final(self).0.view() == old(self).0.view() && agrees(
                Err(r->Err_0),
                arch.walk(old(self).0.view(), dtb, addr),
                addr,
            ),
            old(self).0.faithful(arch) && data.len() == 0 ==> final(self).0.view() == old(self).0.view() && (r is Err ==> agrees(
                Err(r->Err_0),
                arch.walk(old(self).0.view(), dtb, addr),
                addr,
            )),
            old(self).0.faithful(arch) && data.len() > 0 ==> write_outcome(
                mapped_bytes(arch, old(self).0.view(), dtb),
                seq![(addr, data@)],
                match r {
                    Ok(_) => Ok(()),
                    Err(e) => Err(e),
                },
            ),
            old(self).0.faithful(arch) && r is Ok ==> arch.walk(old(self).0.view(), dtb, addr) is Ok && write_effect(
                mapped_targets(arch, old(self).0.view(), dtb),
                seq![(addr, data@)],
                old(self).0.view(),
                final(self).0.view(),
            ),
            r matches Err(e) && e.kind != ErrorKind::OutOfBounds && e.kind != ErrorKind::PhysicalWriteError ==> final(self).0.view()
                == old(self).0.view(),
            old(self).0.faithful(arch) ==> write_frame(
                mapped_targets(arch, old(self).0.view(), dtb),
                seq![(addr, data@)],
                old(self).0.view(),
                final(self).0.view(),
            ),
            old(self).0.faithful(arch) && !all_mapped(mapped_bytes(arch, old(self).0.view(), dtb), addr.0 as int, data.len() as int)
                ==> r is Err && final(self).0.view() == old(self).0.view(),
            old(self).0.faithful(arch) ==> (r matches Err(e) ==> e.kind == ErrorKind::InvalidArgument || e.kind == ErrorKind::OutOfBounds
                || e.kind == ErrorKind::PhysicalReadError || e.kind == ErrorKind::PhysicalWriteError || arch.walk(
                old(self).0.view(),
                dtb,
                e.addr,
            ) == Err::<PhysicalAddress, Error>(e)),
            addr.0 + data.len() <= 0x1_0000_0000_0000_0000 ==> exists|mid: T, first: Seq<Translation>| #[trigger]
                old(self).0.translate_step(arch, dtb, seq![(addr, 0usize)], mid, first) && first.len() == 1 && match first[0].0 {
                    Err(e) => r == Err::<Length, Error>(e) && final(self).0 == mid,
                    Ok(_) => if data.len() == 0 {
                        r == Ok::<Length, Error>(Length(0)) && final(self).0 == mid
                    } else {
                        write_steps(
                            mid,
                            arch,
                            dtb,
                            seq![(addr, data@)],
                            final(self).0,
                            match r {
                                Ok(_) => Ok::<(), Error>(()),
                                Err(e) => Err::<(), Error>(e),
                            },
                        )
                    },
                },
    {
        let ghost image = self.0.view();
        let ghost view = mapped_bytes(arch, image, dtb);
        let ghost faithful = self.0.faithful(arch);
        if data.len() > 0 && (data.len() - 1) as u64 > u64::MAX - addr.0 {
            proof {
                assert(extents(seq![(addr, data@)]) =~= seq![(addr, data.len())]);
                assert(first_beyond(extents(seq![(addr, data@)]), 0));
            }
            return Err(Error::new(ErrorKind::InvalidArgument, addr));
        }
        let first = self.0.virt_to_phys(arch, dtb, addr);
        let ghost mid = self.0;
        match first {
            Ok(_) => {},
            Err(e) => {
                proof {
                    if faithful {
                        arch.lemma_walk_error(image, dtb, addr);
                        if data.len() > 0 {
                            let requests = seq![(addr, data@)];
                            assert(extents(requests) =~= seq![(addr, data.len())]);
                            assert(all_in_range(extents(requests)));
                            assert(e.addr == addr);
                            if arch.walk(image, dtb, addr) is Err {
                                assert(!view.dom().contains(addr.0 as int));
                                assert(unmapped_at(view, requests, 0, 0));
                                assert(e.addr.0 == requests[0].0.0 + 0);
                            }
                        }
                        assert forall|a: int| 0 <= a < image.len() && !aimed(mapped_targets(arch, image, dtb), seq![(addr, data@)], a) implies #[trigger] self.0.view()[a]
                            == image[a] by {}
                    }
                }
                return Err(e);
            },
        }
        let mut batch: Vec<VirtualWriteData> = Vec::new();
        batch.push((addr, data.clone()));
        proof {
            assert(requests_of(batch@) =~= seq![(addr, data@)]);
            assert(extents(requests_of(batch@))[0].1 == data.len());
            assert(extents(requests_of(batch@)) =~= seq![(addr, data.len())]);
        }
        match write_virtual(&mut self.0, arch, dtb, &batch) {
            Ok(_) => Ok(Length(data.len() as u64)),
            Err(e) => {
                proof {
                    if faithful && data.len() == 0 {
                        assert(all_empty(extents(requests_of(batch@))));
                    }
                }
                Err(e)
            },
        }
    }
}

} // verus!
