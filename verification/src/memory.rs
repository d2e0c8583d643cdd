//! The per-process address space, modelled as a set of disjoint framed areas.
//!
//! A framed area is a contiguous range of virtual pages backed by fresh
//! physical memory with explicit permission bits. The page-table and frame
//! allocator live outside this core; what the scheduler reads and mutates is
//! which pages are mapped and with what permissions, which is exactly what
//! this model holds.

use vstd::prelude::*;

verus! {

/// Bytes in one virtual page.
pub const PAGE_SIZE: usize = 4096;

/// A contiguous framed region of virtual pages `[start_vpn, end_vpn)`
/// carrying one set of permission bits.
pub struct MapArea {
    pub start_vpn: usize,
    pub end_vpn: usize,
    pub perm: usize,
}

/// One process's address space: the framed areas it has mapped.
pub struct MemorySet {
    pub areas: Vec<MapArea>,
}

/// Page `vpn` lies inside area `a`.
pub open spec fn area_contains(a: MapArea, vpn: int) -> bool {
    a.start_vpn <= vpn < a.end_vpn
}

/// Page `vpn` is mapped by some area of `areas`.
pub open spec fn page_mapped(areas: Seq<MapArea>, vpn: int) -> bool {
    exists|i: int| 0 <= i < areas.len() && area_contains(#[trigger] areas[i], vpn)
}

/// Every page of `[lo, hi)` is mapped.
pub open spec fn range_all_mapped(areas: Seq<MapArea>, lo: int, hi: int) -> bool {
    forall|vpn: int| lo <= vpn < hi ==> page_mapped(areas, vpn)
}

/// No page of `[lo, hi)` is mapped.
pub open spec fn range_all_unmapped(areas: Seq<MapArea>, lo: int, hi: int) -> bool {
    forall|vpn: int| lo <= vpn < hi ==> !page_mapped(areas, vpn)
}

/// Areas are non-empty and pairwise disjoint.
pub open spec fn areas_wf(areas: Seq<MapArea>) -> bool {
    &&& forall|i: int| 0 <= i < areas.len()
            ==> (#[trigger] areas[i]).start_vpn < areas[i].end_vpn
    &&& forall|i: int, j: int|
            0 <= i < areas.len() && 0 <= j < areas.len() && i != j
            ==> (#[trigger] areas[i]).end_vpn <= (#[trigger] areas[j]).start_vpn
                || areas[j].end_vpn <= areas[i].start_vpn
}

impl MemorySet {
    /// Areas are non-empty and pairwise disjoint.
    pub open spec fn wf(self) -> bool {
        areas_wf(self.areas@)
    }

    /// An address space with nothing mapped.
    pub fn new() -> (r: MemorySet)
        ensures
            r.wf(),
            r.areas@.len() == 0,
    {
        MemorySet { areas: Vec::new() }
    }

    /// Validity-and-permission query for one virtual page: the mapped entry's
    /// permission bits, or `None` when the page is unmapped.
    pub fn translate(&self, vpn: usize) -> (r: Option<usize>)
        ensures
            r is Some <==> page_mapped(self.areas@, vpn as int),
            r is Some ==> exists|i: int|
                0 <= i < self.areas@.len()
                && area_contains(#[trigger] self.areas@[i], vpn as int)
                && r == Some(self.areas@[i].perm),
    {
        let n = self.areas.len();
        let mut i: usize = 0;
        while i < n
            invariant
                n == self.areas@.len(),
                i <= n,
                forall|k: int| 0 <= k < i ==> !area_contains(#[trigger] self.areas@[k], vpn as int),
            decreases n - i,
        {
            let a = &self.areas[i];
            if a.start_vpn <= vpn && vpn < a.end_vpn {
                return Some(a.perm);
            }
            i = i + 1;
        }
        None
    }

    /// Whether some page of `[lo_vpn, hi_vpn)` is already mapped: the scan
    /// both region operations run before mutating anything.
    pub fn any_page_mapped(&self, lo_vpn: usize, hi_vpn: usize) -> (r: bool)
        ensures
            r <==> !range_all_unmapped(self.areas@, lo_vpn as int, hi_vpn as int),
    {
        let mut vpn: usize = lo_vpn;
        while vpn < hi_vpn
            invariant
                lo_vpn <= vpn,
                vpn <= hi_vpn || vpn == lo_vpn,
                range_all_unmapped(self.areas@, lo_vpn as int, vpn as int),
            decreases hi_vpn - vpn,
        {
            if self.translate(vpn).is_some() {
                return true;
            }
            vpn = vpn + 1;
        }
        false
    }

    /// Whether some page of `[lo_vpn, hi_vpn)` is unmapped.
    pub fn any_page_unmapped(&self, lo_vpn: usize, hi_vpn: usize) -> (r: bool)
        ensures
            r <==> !range_all_mapped(self.areas@, lo_vpn as int, hi_vpn as int),
    {
        let mut vpn: usize = lo_vpn;
        while vpn < hi_vpn
            invariant
                lo_vpn <= vpn,
                vpn <= hi_vpn || vpn == lo_vpn,
                range_all_mapped(self.areas@, lo_vpn as int, vpn as int),
            decreases hi_vpn - vpn,
        {
            if self.translate(vpn).is_none() {
                return true;
            }
            vpn = vpn + 1;
        }
        false
    }

    /// Allocate-and-map: insert a freshly backed area over pages that the
    /// caller has checked to be free.
    pub fn insert_framed_area(&mut self, start_vpn: usize, end_vpn: usize, perm: usize)
        requires
            old(self).wf(),
            start_vpn < end_vpn,
            range_all_unmapped(old(self).areas@, start_vpn as int, end_vpn as int),
        ensures
            final(self).wf(),
            final(self).areas@ == old(self).areas@.push(
                MapArea { start_vpn, end_vpn, perm },
            ),
    {
        proof {
            let a = MapArea { start_vpn, end_vpn, perm };
            let post = self.areas@.push(a);
            assert forall|i: int, j: int|
                0 <= i < post.len() && 0 <= j < post.len() && i != j
                implies (#[trigger] post[i]).end_vpn <= (#[trigger] post[j]).start_vpn
                    || post[j].end_vpn <= post[i].start_vpn
            by {
                if i == post.len() - 1 || j == post.len() - 1 {
                    let k = if i == post.len() - 1 { j } else { i };
                    let other = post[k];
                    if !(other.end_vpn <= a.start_vpn || a.end_vpn <= other.start_vpn) {
                        // the old area would cover some page of the new range
                        let v = if other.start_vpn <= a.start_vpn {
                            a.start_vpn as int
                        } else {
                            other.start_vpn as int
                        };
                        assert(area_contains(self.areas@[k], v));
                        assert(page_mapped(self.areas@, v));
                    }
                }
            }
        }
        self.areas.push(MapArea { start_vpn, end_vpn, perm });
    }

    /// Unmap-and-free: remove the area keyed by its starting page, if one
    /// exists; absence leaves the address space untouched.
    pub fn remove_area_with_start_vpn(&mut self, start_vpn: usize) -> (r: bool)
        ensures
            r <==> exists|i: int|
                0 <= i < old(self).areas@.len()
                && (#[trigger] old(self).areas@[i]).start_vpn == start_vpn,
            r ==> exists|i: int|
                0 <= i < old(self).areas@.len()
                && (#[trigger] old(self).areas@[i]).start_vpn == start_vpn
                && final(self).areas@ == old(self).areas@.remove(i),
            !r ==> final(self).areas@ == old(self).areas@,
            old(self).wf() ==> final(self).wf(),
    {
        let n = self.areas.len();
        let mut i: usize = 0;
        while i < n
            invariant
                self == old(self),
                n == self.areas@.len(),
                i <= n,
                forall|k: int| 0 <= k < i ==> (#[trigger] self.areas@[k]).start_vpn != start_vpn,
            decreases n - i,
        {
            if self.areas[i].start_vpn == start_vpn {
                let ghost pre = self.areas@;
                self.areas.remove(i);
                proof {
                    let rest = pre.remove(i as int);
                    assert(self.areas@ == rest);
                    if old(self).wf() {
                        assert forall|p: int, q: int|
                            0 <= p < rest.len() && 0 <= q < rest.len() && p != q
                            implies
                            (#[trigger] rest[p]).end_vpn <= (#[trigger] rest[q]).start_vpn
                            || rest[q].end_vpn <= rest[p].start_vpn
                        by {
                            let p0 = if p < i { p } else { p + 1 };
                            let q0 = if q < i { q } else { q + 1 };
                            assert(rest[p] == pre[p0]);
                            assert(rest[q] == pre[q0]);
                        }
                    }
                }
                return true;
            }
            i = i + 1;
        }
        false
    }
}

/// Law: a valid region map followed by the mirrored unmap returns the
/// address space to exactly its prior state. After mapping pages
/// `[start_vpn, end_vpn)` into a space where they were all unmapped, the
/// whole range is mapped, the only area keyed by `start_vpn` is the fresh
/// one, and removing it leaves the prior areas unchanged.
pub proof fn lemma_map_unmap_round_trip(
    areas: Seq<MapArea>,
    start_vpn: usize,
    end_vpn: usize,
    perm: usize,
    i: int,
)
    requires
        areas_wf(areas),
        start_vpn < end_vpn,
        range_all_unmapped(areas, start_vpn as int, end_vpn as int),
        0 <= i < areas.push(MapArea { start_vpn, end_vpn, perm }).len(),
        areas.push(MapArea { start_vpn, end_vpn, perm })[i].start_vpn == start_vpn,
    ensures
        areas.push(MapArea { start_vpn, end_vpn, perm }).remove(i) == areas,
        range_all_mapped(
            areas.push(MapArea { start_vpn, end_vpn, perm }),
            start_vpn as int,
            end_vpn as int,
        ),
{
    let a = MapArea { start_vpn, end_vpn, perm };
    let post = areas.push(a);
    if i < areas.len() {
        assert(area_contains(areas[i], start_vpn as int));
        assert(page_mapped(areas, start_vpn as int));
        assert(false);
    }
    assert(post.remove(i) =~= areas);
    assert forall|v: int| start_vpn <= v < end_vpn implies page_mapped(post, v) by {
        assert(area_contains(post[areas.len() as int], v));
    }
}

/// Physical address of a virtual address, given the physical page its page
/// lands on: the page-offset bits carry over unchanged.
pub fn va_to_pa(ppn: usize, va: usize) -> (r: usize)
    requires
        ppn * 4096 + 4096 <= usize::MAX,
    ensures
        r == ppn * 4096 + va % 4096,
{
    ppn * PAGE_SIZE + va % PAGE_SIZE
}

} // verus!
