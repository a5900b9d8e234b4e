use vstd::prelude::*;
use crate::frames::{usable_frames, BootInfoFrameAllocator};

verus! {

/// The one fixed virtual page this subsystem ever maps, chosen at build
/// time; only a single device region can be mapped through this path.
pub const EHCI_MMIO_VADDR: u64 = 0xFE00_0000;

/// Page-table entry flag: the mapping is present.
pub const PAGE_PRESENT: u64 = 0x1;

/// Page-table entry flag: the mapping is writable.
pub const PAGE_WRITABLE: u64 = 0x2;

/// Page-table entry flag: accesses bypass the CPU cache, as device
/// registers require.
pub const PAGE_NO_CACHE: u64 = 0x10;

/// The flags every MMIO mapping installed here carries.
pub const MMIO_PAGE_FLAGS: u64 = PAGE_PRESENT | PAGE_WRITABLE | PAGE_NO_CACHE;

/// Why a page-table installation failed.
#[derive(Clone, Copy, PartialEq, Eq, Structural, Debug)]
pub enum MappingError {
    /// The frame supply ran out while building the translation.
    FrameAllocationFailed,
    /// The destination virtual page already holds a mapping.
    PageAlreadyMapped,
}

/// Capability to install one page-table entry, the seam between the mapper
/// logic and the machine's page tables.  The production backend edits the
/// live tables; an in-memory table implements the same interface for tests.
pub trait PageMapper: Sized {
    /// The installed translations: virtual page start to physical frame
    /// start and flags.
    spec fn mappings(self) -> Map<u64, (u64, u64)>;

    fn map_page(
        &mut self,
        page: u64,
        frame: u64,
        flags: u64,
        allocator: &mut BootInfoFrameAllocator,
    ) -> (r: Result<(), MappingError>)
        requires
            page % 4096 == 0,
            frame % 4096 == 0,
            old(allocator).wf(),
            old(allocator).next < usize::MAX - 4,
        ensures
            final(allocator).wf(),
            final(allocator).regions@ == old(allocator).regions@,
            old(allocator).next <= final(allocator).next <= old(allocator).next + 4,
            r is Ok ==> final(self).mappings() == old(self).mappings().insert(
                page,
                (frame, flags),
            ),
            r is Ok ==> !old(self).mappings().dom().contains(page),
            r is Err ==> final(self).mappings() == old(self).mappings(),
            (r == Result::<(), MappingError>::Err(MappingError::PageAlreadyMapped)) <==> old(
                self,
            ).mappings().dom().contains(page),
    ;
}

/// Binds the physical frame containing `phys_addr` to the fixed virtual
/// page, present, writable and cache-disabled, allocating intermediate
/// page-table frames as needed.
///
/// Success reports the fixed virtual address.  Failure — an exhausted frame
/// supply or an already-occupied destination page — is fatal for device
/// bring-up; there is no retry path.  A second mapping without a release of
/// the first fails deterministically with `PageAlreadyMapped`.
pub fn map_mmio_region<M: PageMapper>(
    phys_addr: u64,
    mapper: &mut M,
    frame_allocator: &mut BootInfoFrameAllocator,
) -> (r: Result<u64, MappingError>)
    requires
        old(frame_allocator).wf(),
        old(frame_allocator).next < usize::MAX - 4,
    ensures
        final(frame_allocator).wf(),
        final(frame_allocator).regions@ == old(frame_allocator).regions@,
        r matches Ok(v) ==> v == EHCI_MMIO_VADDR,
        r is Ok ==> final(mapper).mappings() == old(mapper).mappings().insert(
            EHCI_MMIO_VADDR,
            (((phys_addr / 4096) * 4096) as u64, MMIO_PAGE_FLAGS),
        ),
        r is Ok ==> !old(mapper).mappings().dom().contains(EHCI_MMIO_VADDR),
        r is Err ==> final(mapper).mappings() == old(mapper).mappings(),
        (r == Result::<u64, MappingError>::Err(MappingError::PageAlreadyMapped)) <==> old(
            mapper,
        ).mappings().dom().contains(EHCI_MMIO_VADDR),
{
    let phys_frame = (phys_addr / 4096) * 4096;
    proof {
        vstd::arithmetic::div_mod::lemma_fundamental_div_mod(phys_addr as int, 4096);
        assert((phys_addr / 4096) * 4096 <= phys_addr);
        vstd::arithmetic::div_mod::lemma_mod_multiples_basic(phys_addr as int / 4096, 4096);
    }
    match mapper.map_page(EHCI_MMIO_VADDR, phys_frame, MMIO_PAGE_FLAGS, frame_allocator) {
        Ok(()) => Ok(EHCI_MMIO_VADDR),
        Err(e) => Err(e),
    }
}

/// One mapping at most: once a mapping is installed at the fixed page, a
/// second `map_mmio_region` through any mapper honouring the `PageMapper`
/// contract fails deterministically with `PageAlreadyMapped` and leaves the
/// installed translation untouched.
pub proof fn lemma_second_mapping_fails<M: PageMapper>(
    m: M,
    r: Result<u64, MappingError>,
    m2: M,
)
    requires
        m.mappings().dom().contains(EHCI_MMIO_VADDR),
        // the contract of a later `map_mmio_region` call on `m`:
        (r == Result::<u64, MappingError>::Err(MappingError::PageAlreadyMapped)) <==> m.mappings().dom().contains(EHCI_MMIO_VADDR),
        r is Err ==> m2.mappings() == m.mappings(),
    ensures
        r == Result::<u64, MappingError>::Err(MappingError::PageAlreadyMapped),
        m2.mappings() == m.mappings(),
{
}

/// Translates a virtual address inside the linear physical-memory window
/// back to the physical address it maps: the window maps all of physical
/// memory at a fixed offset, and addresses below the offset lie outside it.
pub fn virt_to_phys(virt_addr: u64, physical_memory_offset: u64) -> (r: Option<u64>)
    ensures
        virt_addr >= physical_memory_offset ==> r == Some(
            (virt_addr - physical_memory_offset) as u64,
        ),
        virt_addr < physical_memory_offset ==> r is None,
{
    if virt_addr >= physical_memory_offset {
        Some(virt_addr - physical_memory_offset)
    } else {
        None
    }
}

/// An in-memory page table for tests: a list of installed entries, each new
/// translation paid for with one frame from the allocator.
pub struct InMemoryMapper {
    pub entries: Vec<(u64, u64, u64)>,
}

/// The map an entry list denotes: later entries shadow earlier ones.
pub open spec fn entries_map(s: Seq<(u64, u64, u64)>) -> Map<u64, (u64, u64)>
    decreases s.len(),
{
    if s.len() == 0 {
        Map::empty()
    } else {
        entries_map(s.drop_last()).insert(s.last().0, (s.last().1, s.last().2))
    }
}

proof fn lemma_entries_map_dom(s: Seq<(u64, u64, u64)>, page: u64)
    ensures
        entries_map(s).dom().contains(page) <==> exists|k: int|
            0 <= k < s.len() && (#[trigger] s[k]).0 == page,
    decreases s.len(),
{
    if s.len() > 0 {
        lemma_entries_map_dom(s.drop_last(), page);
        if s.last().0 == page {
            assert(s[s.len() - 1].0 == page);
        } else if entries_map(s).dom().contains(page) {
            let k = choose|k: int| 0 <= k < s.drop_last().len() && (#[trigger] s.drop_last()[k]).0
                == page;
            assert(s[k].0 == page);
        } else {
            assert forall|k: int| 0 <= k < s.len() && (#[trigger] s[k]).0 == page implies false by {
                if k < s.len() - 1 {
                    assert(s.drop_last()[k].0 == page);
                }
            }
        }
    }
}

impl InMemoryMapper {
    /// An empty table.
    pub fn new() -> (r: InMemoryMapper)
        ensures
            r.mappings() == Map::<u64, (u64, u64)>::empty(),
    {
        InMemoryMapper { entries: Vec::new() }
    }
}

impl PageMapper for InMemoryMapper {
    open spec fn mappings(self) -> Map<u64, (u64, u64)> {
        entries_map(self.entries@)
    }

    fn map_page(
        &mut self,
        page: u64,
        frame: u64,
        flags: u64,
        allocator: &mut BootInfoFrameAllocator,
    ) -> (r: Result<(), MappingError>) {
        let mut i: usize = 0;
        while i < self.entries.len()
            invariant
                self == old(self),
                *allocator == *old(allocator),
                old(allocator).wf(),
                i <= self.entries@.len(),
                forall|k: int| 0 <= k < i ==> (#[trigger] self.entries@[k]).0 != page,
            decreases self.entries@.len() - i,
        {
            if self.entries[i].0 == page {
                proof {
                    lemma_entries_map_dom(self.entries@, page);
                }
                return Err(MappingError::PageAlreadyMapped);
            }
            i = i + 1;
        }
        proof {
            lemma_entries_map_dom(self.entries@, page);
        }
        // one frame pays for the intermediate table of the new translation
        match allocator.allocate_frame() {
            Some(_) => {
                self.entries.push((page, frame, flags));
                proof {
                    assert(self.entries@.drop_last() =~= old(self).entries@);
                }
                Ok(())
            },
            None => Err(MappingError::FrameAllocationFailed),
        }
    }
}

} // verus!
