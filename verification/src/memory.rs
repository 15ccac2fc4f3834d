//! Memory images: the regions of a loaded executable, with their bytes and
//! protection.

use vstd::prelude::*;

verus! {

/// What may be done with the bytes of a region: a subset of read, write and
/// execute.
#[derive(Copy, Clone, Debug, PartialEq, Eq, Structural)]
pub struct Protection {
    pub read: bool,
    pub write: bool,
    pub execute: bool,
}

/// A stretch of memory that starts at `addr` and holds `data`.
#[derive(Clone, Debug, PartialEq, Eq)]
pub struct MemoryRegion {
    pub addr: u32,
    pub data: Vec<u8>,
    pub protection: Protection,
    pub name: String,
}

impl MemoryRegion {
    /// The first address after the region.
    pub open spec fn spec_end(self) -> int {
        self.addr + self.data@.len()
    }

    /// The end of the region is an address too.
    pub open spec fn wf(self) -> bool {
        self.spec_end() <= u32::MAX
    }

    /// Whether the region holds the address `a`.
    pub open spec fn holds(self, a: int) -> bool {
        self.addr <= a < self.spec_end()
    }

    pub fn end(&self) -> (r: u32)
        requires
            self.wf(),
        ensures
            r == self.spec_end(),
    {
        self.addr + self.data.len() as u32
    }
}

/// Why a region could not be added to an image.
#[derive(Copy, Clone, Debug, PartialEq, Eq, Structural)]
pub enum RegionError {
    /// The region's end is above the highest address.
    OutOfRange,
    /// The region would intersect one that the image holds, or stand out of
    /// address order beside it.
    Overlap,
}

/// Regions ascend by address and none reaches into the next one.
pub open spec fn regions_wf(regions: Seq<MemoryRegion>) -> bool {
    &&& forall|i: int| 0 <= i < regions.len() ==> (#[trigger] regions[i]).wf()
    &&& forall|i: int, j: int|
        0 <= i < j < regions.len() ==> (#[trigger] regions[i]).spec_end() <= (
        #[trigger] regions[j]).addr
}

/// The number of bytes in the first `n` regions.
pub open spec fn bytes_before(regions: Seq<MemoryRegion>, n: int) -> int
    decreases n,
{
    if n <= 0 {
        0
    } else {
        bytes_before(regions, n - 1) + regions[n - 1].data@.len()
    }
}

/// The bytes of the first `n` regions fit below the end of the last of them.
pub proof fn lemma_bytes_before_bound(regions: Seq<MemoryRegion>, n: int)
    requires
        regions_wf(regions),
        0 <= n <= regions.len(),
    ensures
        0 <= bytes_before(regions, n) <= u32::MAX,
        n > 0 ==> bytes_before(regions, n) <= regions[n - 1].spec_end(),
    decreases n,
{
    if n > 0 {
        lemma_bytes_before_bound(regions, n - 1);
        assert(regions[n - 1].wf());
        if n > 1 {
            assert(regions[n - 2].spec_end() <= regions[n - 1].addr);
        }
    }
}

/// An ordered collection of regions that do not overlap.
#[derive(Clone, Debug, PartialEq, Eq)]
pub struct MemoryImage {
    regions: Vec<MemoryRegion>,
}

impl View for MemoryImage {
    type V = Seq<MemoryRegion>;

    closed spec fn view(&self) -> Seq<MemoryRegion> {
        self.regions@
    }
}

impl MemoryImage {
    pub open spec fn wf(self) -> bool {
        regions_wf(self@)
    }

    /// Where a region that starts at `addr` goes: after the regions that
    /// start at or below `addr`.
    pub open spec fn slot(self, addr: u32) -> int
        decreases self@.len(),
    {
        Self::slot_in(self@, addr)
    }

    pub open spec fn slot_in(regions: Seq<MemoryRegion>, addr: u32) -> int
        decreases regions.len(),
    {
        if regions.len() == 0 {
            0
        } else if regions.last().addr <= addr {
            regions.len() as int
        } else {
            Self::slot_in(regions.drop_last(), addr)
        }
    }

    /// Whether a region of `len` bytes at `addr` fits between its neighbours.
    pub open spec fn admits(self, addr: u32, len: int) -> bool {
        let k = self.slot(addr);
        &&& k > 0 ==> self@[k - 1].spec_end() <= addr
        &&& k < self@.len() ==> addr + len <= self@[k].addr
    }

    pub fn new() -> (r: MemoryImage)
        ensures
            r.wf(),
            r@ =~= Seq::<MemoryRegion>::empty(),
    {
        MemoryImage { regions: Vec::new() }
    }

    proof fn lemma_slot(regions: Seq<MemoryRegion>, addr: u32)
        requires
            regions_wf(regions),
        ensures
            0 <= Self::slot_in(regions, addr) <= regions.len(),
            forall|i: int| 0 <= i < Self::slot_in(regions, addr) ==> (#[trigger] regions[i]).addr <= addr,
            forall|i: int|
                Self::slot_in(regions, addr) <= i < regions.len() ==> (#[trigger] regions[i]).addr
                    > addr,
        decreases regions.len(),
    {
        if regions.len() == 0 {
        } else if regions.last().addr <= addr {
            assert forall|i: int| 0 <= i < regions.len() implies (#[trigger] regions[i]).addr <= addr by {
                if i < regions.len() - 1 {
                    assert(regions[i].spec_end() <= regions[regions.len() - 1].addr);
                }
            }
        } else {
            let d = regions.drop_last();
            assert(regions_wf(d)) by {
                assert forall|i: int| 0 <= i < d.len() implies (#[trigger] d[i]).wf() by {
                    assert(d[i] == regions[i]);
                }
                assert forall|i: int, j: int| 0 <= i < j < d.len() implies (#[trigger] d[i]).spec_end() <= (
                #[trigger] d[j]).addr by {
                    assert(d[i] == regions[i]);
                    assert(d[j] == regions[j]);
                }
            }
            Self::lemma_slot(d, addr);
            let k = Self::slot_in(d, addr);
            assert forall|i: int| 0 <= i < k implies (#[trigger] regions[i]).addr <= addr by {
                assert(d[i] == regions[i]);
            }
            assert forall|i: int| k <= i < regions.len() implies (#[trigger] regions[i]).addr > addr by {
                if i < d.len() {
                    assert(d[i] == regions[i]);
                }
            }
        }
    }

    /// Adds a region. It is refused, and the image left as it was, where its
    /// end is no address or where it does not fit between its neighbours.
    pub fn add_region(&mut self, addr: u32, protection: Protection, data: Vec<u8>, name: String) -> (r:
        Result<(), RegionError>)
        requires
            old(self).wf(),
        ensures
            final(self).wf(),
            match r {
                Ok(()) => {
                    &&& addr + data@.len() <= u32::MAX
                    &&& old(self).admits(addr, data@.len() as int)
                    &&& final(self)@ =~= old(self)@.insert(
                        old(self).slot(addr),
                        MemoryRegion { addr, data, protection, name },
                    )
                },
                Err(e) => {
                    &&& final(self)@ == old(self)@
                    &&& e == RegionError::OutOfRange <==> addr + data@.len() > u32::MAX
                    &&& e == RegionError::Overlap <==> addr + data@.len() <= u32::MAX && !old(
                        self,
                    ).admits(addr, data@.len() as int)
                },
            },
    {
        if data.len() > (u32::MAX - addr) as usize {
            return Err(RegionError::OutOfRange);
        }
        let end: u32 = addr + data.len() as u32;
        let n = self.regions.len();
        let mut k: usize = n;
        proof {
            Self::lemma_slot(self@, addr);
        }
        while k > 0 && self.regions[k - 1].addr > addr
            invariant
                0 <= k <= n,
                n == self.regions@.len(),
                self.regions@ == old(self).regions@,
                regions_wf(self.regions@),
                forall|i: int| k <= i < n ==> (#[trigger] self.regions@[i]).addr > addr,
            decreases k,
        {
            k -= 1;
        }
        proof {
            let s = Self::slot_in(self@, addr);
            if s < k {
                assert(self@[k - 1].spec_end() <= u32::MAX);
                assert(self@[s].addr > addr);
                if s < k - 1 {
                    assert(self@[s].spec_end() <= self@[k - 1].addr);
                }
            }
            if k < s {
                assert(self@[k as int].addr <= addr);
            }
            assert(k == s);
        }
        if k > 0 && self.regions[k - 1].end() > addr {
            return Err(RegionError::Overlap);
        }
        if k < n && end > self.regions[k].addr {
            return Err(RegionError::Overlap);
        }
        let region = MemoryRegion { addr, data, protection, name };
        self.regions.insert(k, region);
        proof {
            let old_r = old(self)@;
            let new_r = self@;
            assert forall|i: int| 0 <= i < new_r.len() implies (#[trigger] new_r[i]).wf() by {
                if i < k {
                    assert(new_r[i] == old_r[i]);
                } else if i > k {
                    assert(new_r[i] == old_r[i - 1]);
                }
            }
            assert forall|i: int, j: int| 0 <= i < j < new_r.len() implies (#[trigger] new_r[i]).spec_end()
                <= (#[trigger] new_r[j]).addr by {
                let a = if i < k { old_r[i] } else if i == k { region } else { old_r[i - 1] };
                let b = if j < k { old_r[j] } else if j == k { region } else { old_r[j - 1] };
                assert(new_r[i] == a);
                assert(new_r[j] == b);
                if i < k && j > k {
                    assert(old_r[i].spec_end() <= old_r[j - 1].addr);
                } else if i < k && j == k {
                    if i < k - 1 {
                        assert(old_r[i].spec_end() <= old_r[k - 1].addr);
                        assert(old_r[k - 1].wf());
                    }
                } else if i == k {
                    if j - 1 > k {
                        assert(old_r[k as int].spec_end() <= old_r[j - 1].addr);
                        assert(old_r[k as int].wf());
                    }
                } else if i < k && j < k {
                    assert(old_r[i].spec_end() <= old_r[j].addr);
                } else {
                    assert(old_r[i - 1].spec_end() <= old_r[j - 1].addr);
                }
            }
        }
        Ok(())
    }

    /// The regions in ascending address order.
    pub fn regions(&self) -> (r: &Vec<MemoryRegion>)
        ensures
            r@ == self@,
    {
        &self.regions
    }

    /// The number of bytes in all regions.
    pub fn size(&self) -> (r: u64)
        requires
            self.wf(),
        ensures
            r == bytes_before(self@, self@.len() as int),
    {
        let n = self.regions.len();
        let mut total: u64 = 0;
        let mut i: usize = 0;
        while i < n
            invariant
                0 <= i <= n,
                n == self@.len(),
                self.wf(),
                total == bytes_before(self@, i as int),
                i > 0 ==> total <= self@[i - 1].spec_end(),
                total <= u32::MAX,
            decreases n - i,
        {
            proof {
                assert(self@[i as int].wf());
                if i > 0 {
                    assert(self@[i - 1].spec_end() <= self@[i as int].addr);
                }
            }
            total = total + self.regions[i].data.len() as u64;
            i += 1;
        }
        total
    }

    /// The index of the executable region that holds `addr`, if there is one.
    pub fn executable_region_at(&self, addr: u32) -> (r: Option<usize>)
        requires
            self.wf(),
        ensures
            match r {
                Some(i) => i < self@.len() && self@[i as int].holds(addr as int)
                    && self@[i as int].protection.execute,
                None => forall|i: int|
                    0 <= i < self@.len() ==> !((#[trigger] self@[i]).holds(addr as int)
                        && self@[i].protection.execute),
            },
    {
        let n = self.regions.len();
        let mut i: usize = 0;
        while i < n
            invariant
                0 <= i <= n,
                n == self@.len(),
                self.wf(),
                forall|j: int|
                    0 <= j < i ==> !((#[trigger] self@[j]).holds(addr as int)
                        && self@[j].protection.execute),
            decreases n - i,
        {
            let region = &self.regions[i];
            proof {
                assert(self@[i as int].wf());
            }
            if region.protection.execute && region.addr <= addr && addr < region.end() {
                return Some(i);
            }
            i += 1;
        }
        None
    }
}

} // verus!
