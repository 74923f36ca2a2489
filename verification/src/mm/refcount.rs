//! Reference counts of shared physical pages (copy-on-write).
//!
//! A page without an entry has one reference. Sharing a page for the first
//! time creates an entry with two references; dropping the last reference
//! removes the entry and frees the page.
use vstd::prelude::*;

use std::collections::BTreeMap;

use crate::mm::pmm::PhysicalMemoryManager;
use crate::mm::PhysAddr;

verus! {

broadcast use {vstd::std_specs::btree::group_btree_axioms, vstd::laws_cmp::group_laws_cmp};

/// Reference counts by physical page address.
pub struct PageRefcount {
    counts: BTreeMap<PhysAddr, usize>,
}

/// The reference count a page has under the given entries.
pub open spec fn count_of(m: Map<PhysAddr, usize>, page: PhysAddr) -> nat {
    if m.contains_key(page) { m[page] as nat } else { 1 }
}

impl PageRefcount {
    /// The tracked pages and their counts.
    pub closed spec fn view(&self) -> Map<PhysAddr, usize> {
        self.counts@
    }

    /// Every tracked page has at least one reference.
    pub closed spec fn wf(&self) -> bool {
        &&& self.counts@.dom().finite()
        &&& forall|p: PhysAddr| #[trigger] self.counts@.contains_key(p) ==> self.counts@[p] >= 1
    }

    /// No page is tracked.
    pub fn new() -> (r: Self)
        ensures
            r.wf(),
            r@ == Map::<PhysAddr, usize>::empty(),
    {
        PageRefcount { counts: BTreeMap::new() }
    }

    /// Add a reference to `page` and return its new count: an untracked page
    /// starts being tracked with two references.
    pub fn inc_refcount(&mut self, page: PhysAddr) -> (r: usize)
        requires
            old(self).wf(),
            page % 4096 == 0,
            count_of(old(self)@, page) < usize::MAX,
        ensures
            final(self).wf(),
            r == count_of(old(self)@, page) + 1,
            final(self)@ == old(self)@.insert(page, r),
    {
        match self.counts.get(&page) {
            Some(c) => {
                let n = *c + 1;
                self.counts.insert(page, n);
                n
            },
            None => {
                self.counts.insert(page, 2);
                2
            },
        }
    }

    /// Drop a reference to a tracked `page` and return its new count. At
    /// zero the page stops being tracked and its frame is freed in `pmm`.
    pub fn dec_refcount(&mut self, page: PhysAddr, pmm: &mut PhysicalMemoryManager) -> (r: usize)
        requires
            old(self).wf(),
            old(pmm).wf(),
            page % 4096 == 0,
            old(self)@.contains_key(page),
        ensures
            final(self).wf(),
            final(pmm).wf(),
            r == old(self)@[page] - 1,
            r > 0 ==> final(self)@ == old(self)@.insert(page, r) && *final(pmm) == *old(pmm),
            r == 0 ==> {
                &&& final(self)@ == old(self)@.remove(page)
                &&& final(pmm).total() == old(pmm).total()
                &&& final(pmm).next_scan() == old(pmm).next_scan()
                &&& ({
                    let f = page as int / 4096;
                    if f < old(pmm).total() && !old(pmm).is_free(f) {
                        &&& final(pmm).is_free(f)
                        &&& forall|g: int| g != f ==> #[trigger] final(pmm).is_free(g) == old(pmm).is_free(g)
                        &&& final(pmm).free() == old(pmm).free() + 1
                    } else {
                        &&& forall|g: int| #[trigger] final(pmm).is_free(g) == old(pmm).is_free(g)
                        &&& final(pmm).free() == old(pmm).free()
                    }
                })
            },
    {
        let c = match self.counts.get(&page) {
            Some(c) => *c,
            None => {
                proof {
                    assert(false);
                }
                0
            },
        };
        let n = c - 1;
        if n == 0 {
            self.counts.remove(&page);
            pmm.free_frame(page);
        } else {
            self.counts.insert(page, n);
        }
        n
    }

    /// The reference count of `page` (1 when untracked).
    pub fn get_refcount(&self, page: PhysAddr) -> (r: usize)
        requires
            self.wf(),
            page % 4096 == 0,
        ensures
            r == count_of(self@, page),
    {
        match self.counts.get(&page) {
            Some(c) => *c,
            None => 1,
        }
    }

    /// Whether `page` has more than one reference.
    pub fn is_shared(&self, page: PhysAddr) -> (r: bool)
        requires
            self.wf(),
            page % 4096 == 0,
        ensures
            r == (count_of(self@, page) > 1),
    {
        self.get_refcount(page) > 1
    }

    /// Stop tracking `page` without freeing it.
    pub fn remove_tracking(&mut self, page: PhysAddr)
        requires
            old(self).wf(),
            page % 4096 == 0,
        ensures
            final(self).wf(),
            final(self)@ == old(self)@.remove(page),
    {
        self.counts.remove(&page);
    }

    /// Number of tracked pages.
    pub fn tracked_pages(&self) -> (r: usize)
        requires
            self.wf(),
        ensures
            r == self@.len(),
    {
        self.counts.len()
    }
}

/// Sharing a page and then dropping the added reference leaves its count as
/// it was (an untracked page stays tracked, with the one reference it had).
pub proof fn lemma_inc_then_dec(m: Map<PhysAddr, usize>, page: PhysAddr)
    requires
        count_of(m, page) < usize::MAX,
    ensures
        ({
            let c = count_of(m, page);
            let up = m.insert(page, (c + 1) as usize);
            let down = up.insert(page, (up[page] - 1) as usize);
            &&& up[page] - 1 > 0 || c == 0
            &&& count_of(down, page) == c
        }),
{
}

} // verus!
