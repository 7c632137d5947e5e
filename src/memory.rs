//! A task's user address space: the loaded program, the mmap regions and the
//! heap's program break.
use vstd::prelude::*;

verus! {

/// Size of a virtual page in bytes.
pub const PAGE_SIZE: usize = 4096;

/// One mmap region `[start, end)` with its permission bits.
#[derive(Clone, Copy, Debug, PartialEq, Eq, Structural)]
pub struct MapArea {
    pub start: usize,
    pub end: usize,
    pub perm: usize,
}

/// The mutable part of a task's address space.
pub struct MemorySet {
    /// The loaded program occupies `[program_start, program_end)`.
    pub program_start: usize,
    pub program_end: usize,
    /// Active mmap regions, in the order they were mapped.
    pub areas: Vec<MapArea>,
    /// Lowest address of the heap.
    pub heap_bottom: usize,
    /// Current program break: the heap is `[heap_bottom, brk)`.
    pub brk: usize,
}

/// The ranges `[s1, e1)` and `[s2, e2)` share at least one address.
pub open spec fn overlaps(s1: int, e1: int, s2: int, e2: int) -> bool {
    s1 < e1 && s2 < e2 && s1 < e2 && s2 < e1
}

/// `len` rounded up to a whole number of pages.
pub open spec fn page_round_up(len: int) -> int {
    if len % (PAGE_SIZE as int) == 0 {
        len
    } else {
        len + (PAGE_SIZE - len % (PAGE_SIZE as int))
    }
}

/// Permission bits hold nothing but the read (1), write (2) and execute (4)
/// flags.
pub open spec fn valid_perm(port: int) -> bool {
    0 <= port <= 7
}

/// The total length of the regions of `areas` that meet `[s, e)`.
pub open spec fn met_len(areas: Seq<MapArea>, s: int, e: int) -> int
    decreases areas.len(),
{
    if areas.len() == 0 {
        0
    } else {
        let a = areas.last();
        met_len(areas.drop_last(), s, e) + if overlaps(a.start as int, a.end as int, s, e) {
            a.end - a.start
        } else {
            0
        }
    }
}

/// The regions of `areas` that do not meet `[s, e)`, in their order.
pub open spec fn areas_outside(areas: Seq<MapArea>, s: int, e: int) -> Seq<MapArea>
    decreases areas.len(),
{
    if areas.len() == 0 {
        Seq::<MapArea>::empty()
    } else {
        let a = areas.last();
        let rest = areas_outside(areas.drop_last(), s, e);
        if overlaps(a.start as int, a.end as int, s, e) {
            rest
        } else {
            rest.push(a)
        }
    }
}


/// What `mmap(start, len, port)` does, taking `m0` to `m1` with result `r`.
pub open spec fn mmap_done(m0: MemorySet, m1: MemorySet, start: usize, len: usize, port: usize, r: isize) -> bool {
    if m0.mmap_valid(start as int, len as int, port as int) {
        &&& r == page_round_up(len as int)
        &&& m1.areas@ == m0.areas@.push(
            MapArea { start, end: (start + page_round_up(len as int)) as usize, perm: port },
        )
        &&& m1 == (MemorySet { areas: m1.areas, ..m0 })
    } else {
        r == -1 && m1 == m0
    }
}

/// What `munmap(start, len)` does, taking `m0` to `m1` with result `r`.
pub open spec fn munmap_done(m0: MemorySet, m1: MemorySet, start: usize, len: usize, r: isize) -> bool {
    if m0.munmap_valid(start as int, len as int) {
        &&& r == 0
        &&& m1.areas@ == areas_outside(m0.areas@, start as int, start + page_round_up(len as int))
        &&& m1 == (MemorySet { areas: m1.areas, ..m0 })
    } else {
        r == -1 && m1 == m0
    }
}

/// What `sbrk(delta)` does, taking `m0` to `m1` with result `r`.
pub open spec fn sbrk_done(m0: MemorySet, m1: MemorySet, delta: i32, r: Option<usize>) -> bool {
    if m0.sbrk_valid(delta as int) {
        &&& r == Some(m0.brk)
        &&& m1.brk == m0.brk_after(delta as int)
        &&& m1 == (MemorySet { brk: m1.brk, ..m0 })
    } else {
        r is None && m1 == m0
    }
}

impl MemorySet {
    /// No program byte, mmap region or heap byte lies in `[s, e)`.
    pub open spec fn range_free(&self, s: int, e: int) -> bool {
        &&& forall|i: int|
            0 <= i < self.areas@.len() ==> !overlaps(
                #[trigger] self.areas@[i].start as int,
                self.areas@[i].end as int,
                s,
                e,
            )
        &&& !overlaps(self.heap_bottom as int, self.brk as int, s, e)
        &&& !overlaps(self.program_start as int, self.program_end as int, s, e)
    }

    /// The program lies below the heap; regions are non-empty, page aligned
    /// and pairwise disjoint, and neither the program nor the heap overlaps
    /// any of them.
    pub open spec fn wf(&self) -> bool {
        &&& self.program_start <= self.program_end <= self.heap_bottom <= self.brk <= isize::MAX
        &&& forall|i: int|
            0 <= i < self.areas@.len() ==> {
                let a = #[trigger] self.areas@[i];
                &&& a.start < a.end
                &&& a.start % PAGE_SIZE == 0
                &&& a.end % PAGE_SIZE == 0
                &&& valid_perm(a.perm as int)
                &&& !overlaps(self.heap_bottom as int, self.brk as int, a.start as int, a.end as int)
                &&& !overlaps(self.program_start as int, self.program_end as int, a.start as int, a.end as int)
            }
        &&& forall|i: int, j: int|
            0 <= i < self.areas@.len() && 0 <= j < self.areas@.len() && i != j ==> !overlaps(
                #[trigger] self.areas@[i].start as int,
                self.areas@[i].end as int,
                #[trigger] self.areas@[j].start as int,
                self.areas@[j].end as int,
            )
    }

    /// `mmap(start, len, port)` is accepted on this address space.
    pub open spec fn mmap_valid(&self, start: int, len: int, port: int) -> bool {
        &&& start % (PAGE_SIZE as int) == 0
        &&& len > 0
        &&& valid_perm(port)
        &&& start + page_round_up(len) <= isize::MAX
        &&& self.range_free(start, start + page_round_up(len))
    }

    /// `munmap(start, len)` is accepted: the range, rounded up to whole
    /// pages, is exactly the union of some regions. Every region that meets
    /// it lies inside it, and since regions are disjoint, their lengths add
    /// up to the range's length exactly when they cover it.
    pub open spec fn munmap_valid(&self, start: int, len: int) -> bool {
        let e = start + page_round_up(len);
        &&& len > 0
        &&& e <= usize::MAX
        &&& forall|i: int|
            0 <= i < self.areas@.len() && overlaps(
                (#[trigger] self.areas@[i]).start as int,
                self.areas@[i].end as int,
                start,
                e,
            ) ==> start <= self.areas@[i].start && self.areas@[i].end <= e
        &&& met_len(self.areas@, start, e) == e - start
    }

    /// The program break after `sbrk(delta)`.
    pub open spec fn brk_after(&self, delta: int) -> int {
        self.brk + delta
    }

    /// `sbrk(delta)` is accepted: the new break stays at or above the heap's
    /// bottom, stays below `isize::MAX`, and the grown heap overlaps no region.
    pub open spec fn sbrk_valid(&self, delta: int) -> bool {
        &&& self.heap_bottom <= self.brk_after(delta) <= isize::MAX
        &&& forall|i: int|
            0 <= i < self.areas@.len() ==> !overlaps(
                #[trigger] self.areas@[i].start as int,
                self.areas@[i].end as int,
                self.heap_bottom as int,
                self.brk_after(delta),
            )
    }

    /// An address space holding the program `[program_start, program_end)`,
    /// no region, and an empty heap at `heap_bottom`.
    pub fn new(program_start: usize, program_end: usize, heap_bottom: usize) -> (r: MemorySet)
        requires
            program_start <= program_end <= heap_bottom <= isize::MAX,
        ensures
            r.wf(),
            r.program_start == program_start,
            r.program_end == program_end,
            r.areas@ == Seq::<MapArea>::empty(),
            r.heap_bottom == heap_bottom,
            r.brk == heap_bottom,
    {
        MemorySet { program_start, program_end, areas: Vec::new(), heap_bottom, brk: heap_bottom }
    }

    /// A copy of this address space, region for region.
    pub fn duplicate(&self) -> (r: MemorySet)
        ensures
            r.areas@ == self.areas@,
            r.program_start == self.program_start,
            r.program_end == self.program_end,
            r.heap_bottom == self.heap_bottom,
            r.brk == self.brk,
    {
        let mut areas: Vec<MapArea> = Vec::new();
        let mut i: usize = 0;
        while i < self.areas.len()
            invariant
                i <= self.areas@.len(),
                areas@ == self.areas@.subrange(0, i as int),
            decreases self.areas@.len() - i,
        {
            areas.push(self.areas[i]);
            i = i + 1;
            assert(areas@ =~= self.areas@.subrange(0, i as int));
        }
        assert(areas@ =~= self.areas@);
        MemorySet {
            program_start: self.program_start,
            program_end: self.program_end,
            areas,
            heap_bottom: self.heap_bottom,
            brk: self.brk,
        }
    }

    /// Whether `[s, e)` is free of regions and heap.
    fn is_range_free(&self, s: usize, e: usize) -> (r: bool)
        ensures
            r == self.range_free(s as int, e as int),
    {
        if s < e && self.heap_bottom < self.brk && self.heap_bottom < e && s < self.brk {
            return false;
        }
        if s < e && self.program_start < self.program_end && self.program_start < e && s < self.program_end {
            return false;
        }
        let mut i: usize = 0;
        while i < self.areas.len()
            invariant
                i <= self.areas@.len(),
                !overlaps(self.heap_bottom as int, self.brk as int, s as int, e as int),
                !overlaps(self.program_start as int, self.program_end as int, s as int, e as int),
                forall|k: int|
                    0 <= k < i ==> !overlaps(
                        #[trigger] self.areas@[k].start as int,
                        self.areas@[k].end as int,
                        s as int,
                        e as int,
                    ),
            decreases self.areas@.len() - i,
        {
            let a = self.areas[i];
            if a.start < a.end && s < e && a.start < e && s < a.end {
                return false;
            }
            i = i + 1;
        }
        true
    }

    /// Maps `[start, start + len)`, rounded up to whole pages, with the
    /// permission bits `port`. Returns the mapped length, that is `len`
    /// rounded up to whole pages, or -1 and leaves
    /// the address space unchanged when the request is not valid.
    pub fn mmap(&mut self, start: usize, len: usize, port: usize) -> (r: isize)
        requires
            old(self).wf(),
        ensures
            final(self).wf(),
            mmap_done(*old(self), *final(self), start, len, port, r),
    {
        if start % PAGE_SIZE != 0 || len == 0 || port > 7 {
            return -1;
        }
        let rem = len % PAGE_SIZE;
        let extra: usize = if rem == 0 { 0 } else { PAGE_SIZE - rem };
        if len > isize::MAX as usize - extra {
            return -1;
        }
        let size = len + extra;
        if start > isize::MAX as usize - size {
            return -1;
        }
        let end = start + size;
        if !self.is_range_free(start, end) {
            return -1;
        }
        let ghost before = self.areas@;
        let area = MapArea { start, end, perm: port };
        assert(end % PAGE_SIZE == 0) by {
            assert((start + len + extra) % 4096 == 0) by (nonlinear_arith)
                requires
                    start % 4096 == 0,
                    rem == len % 4096,
                    extra == if rem == 0 { 0 } else { 4096 - rem },
                    0 <= rem < 4096,
            {
            }
        }
        self.areas.push(area);
        assert(self.areas@.last() == area);
        assert forall|i: int, j: int|
            0 <= i < self.areas@.len() && 0 <= j < self.areas@.len() && i != j implies !overlaps(
            #[trigger] self.areas@[i].start as int,
            self.areas@[i].end as int,
            #[trigger] self.areas@[j].start as int,
            self.areas@[j].end as int,
        ) by {
            if i < before.len() && j < before.len() {
                assert(self.areas@[i] == before[i]);
                assert(self.areas@[j] == before[j]);
            } else if i < before.len() {
                assert(self.areas@[i] == before[i]);
            } else if j < before.len() {
                assert(self.areas@[j] == before[j]);
            }
        }
        size as isize
    }
    /// Removes the regions that make up `[start, start + len)`, rounded up
    /// to whole pages, and returns 0. The range must be exactly a union of
    /// whole regions: one that holds an unmapped page, or only part of a
    /// region, is refused with -1 and nothing changes.
    pub fn munmap(&mut self, start: usize, len: usize) -> (r: isize)
        requires
            old(self).wf(),
        ensures
            final(self).wf(),
            munmap_done(*old(self), *final(self), start, len, r),
    {
        let rem = len % PAGE_SIZE;
        let extra: usize = if rem == 0 { 0 } else { PAGE_SIZE - rem };
        if len == 0 || len > usize::MAX - extra || start > usize::MAX - (len + extra) {
            return -1;
        }
        let end = start + len + extra;
        let target = end - start;
        let mut covered: usize = 0;
        let mut i: usize = 0;
        while i < self.areas.len()
            invariant
                *self == *old(self),
                old(self).wf(),
                i <= self.areas@.len(),
                end == start + page_round_up(len as int),
                target == end - start,
                covered == met_len(self.areas@.subrange(0, i as int), start as int, end as int),
                covered <= target,
                forall|k: int|
                    0 <= k < i && overlaps(
                        (#[trigger] self.areas@[k]).start as int,
                        self.areas@[k].end as int,
                        start as int,
                        end as int,
                    ) ==> start <= self.areas@[k].start && self.areas@[k].end <= end,
            decreases self.areas@.len() - i,
        {
            let a = self.areas[i];
            assert(self.areas@.subrange(0, i + 1).drop_last() =~= self.areas@.subrange(0, i as int));
            if a.start < a.end && start < end && a.start < end && start < a.end {
                if a.start < start || a.end > end {
                    return -1;
                }
                let n = a.end - a.start;
                if n > target - covered {
                    proof {
                        lemma_met_len_grows(self.areas@, start as int, end as int, i + 1);
                    }
                    return -1;
                }
                covered = covered + n;
            }
            i = i + 1;
        }
        assert(self.areas@.subrange(0, self.areas@.len() as int) =~= self.areas@);
        if covered != target {
            return -1;
        }
        let ghost a0 = self.areas@;
        let ghost mut j: int = 0;
        let mut i: usize = 0;
        while i < self.areas.len()
            invariant
                self.wf(),
                *old(self) == (MemorySet { areas: old(self).areas, ..*self }),
                a0 == old(self).areas@,
                0 <= j <= a0.len(),
                i == areas_outside(a0.subrange(0, j), start as int, end as int).len(),
                self.areas@ == areas_outside(a0.subrange(0, j), start as int, end as int) + a0.subrange(j, a0.len() as int),
            decreases self.areas@.len() - i,
        {
            let ghost out = areas_outside(a0.subrange(0, j), start as int, end as int);
            assert(a0.subrange(0, j + 1).drop_last() =~= a0.subrange(0, j));
            assert(self.areas@[i as int] == a0[j]);
            let a = self.areas[i];
            if a.start < a.end && start < end && a.start < end && start < a.end {
                let ghost before = *self;
                self.areas.remove(i);
                proof {
                    lemma_remove_keeps_wf(before, *self, i as int);
                    assert(self.areas@ =~= out + a0.subrange(j + 1, a0.len() as int));
                }
            } else {
                i = i + 1;
                proof {
                    assert(self.areas@ =~= out.push(a0[j]) + a0.subrange(j + 1, a0.len() as int));
                }
            }
            proof {
                j = j + 1;
            }
        }
        assert(a0.subrange(0, a0.len() as int) =~= a0);
        assert(self.areas@ =~= areas_outside(a0, start as int, end as int));
        0
    }

    /// Moves the program break by `delta` bytes. Returns the break before the
    /// change, or `None` and leaves the address space unchanged when the new
    /// break would fall below the heap's bottom, leave the address range, or
    /// make the heap overlap an mmap region.
    pub fn change_program_brk(&mut self, delta: i32) -> (r: Option<usize>)
        requires
            old(self).wf(),
        ensures
            final(self).wf(),
            sbrk_done(*old(self), *final(self), delta, r),
    {
        let old_brk = self.brk;
        let new_brk: usize;
        if delta < 0 {
            let down = (-(delta as i64)) as usize;
            if down > self.brk - self.heap_bottom {
                return None;
            }
            new_brk = self.brk - down;
        } else {
            let up = delta as usize;
            if up > isize::MAX as usize - self.brk {
                return None;
            }
            new_brk = self.brk + up;
        }
        let mut i: usize = 0;
        while i < self.areas.len()
            invariant
                i <= self.areas@.len(),
                new_brk == self.brk_after(delta as int),
                *self == *old(self),
                old(self).wf(),
                forall|k: int|
                    0 <= k < i ==> !overlaps(
                        #[trigger] self.areas@[k].start as int,
                        self.areas@[k].end as int,
                        self.heap_bottom as int,
                        new_brk as int,
                    ),
            decreases self.areas@.len() - i,
        {
            let a = self.areas[i];
            if a.start < a.end && self.heap_bottom < new_brk && a.start < new_brk && self.heap_bottom < a.end {
                return None;
            }
            i = i + 1;
        }
        self.brk = new_brk;
        assert forall|k: int| 0 <= k < self.areas@.len() implies !overlaps(
            self.heap_bottom as int,
            self.brk as int,
            #[trigger] self.areas@[k].start as int,
            self.areas@[k].end as int,
        ) by {
            assert(self.areas@[k] == old(self).areas@[k]);
        }
        Some(old_brk)
    }
}

/// Growing the heap by `delta` bytes and then shrinking it by as much brings
/// the program break back to where it was: the second call always succeeds
/// and returns the break that the first one set.
pub proof fn lemma_sbrk_round_trip(
    m0: MemorySet,
    m1: MemorySet,
    m2: MemorySet,
    delta: i32,
    r1: Option<usize>,
    r2: Option<usize>,
)
    requires
        m0.wf(),
        0 < delta,
        sbrk_done(m0, m1, delta, r1),
        r1 is Some,
        sbrk_done(m1, m2, (-delta) as i32, r2),
    ensures
        r2 == Some(m1.brk),
        m2.brk == m0.brk,
        m2.areas@ == m0.areas@,
        m2.heap_bottom == m0.heap_bottom,
{
    assert forall|i: int| 0 <= i < m1.areas@.len() implies !overlaps(
        #[trigger] m1.areas@[i].start as int,
        m1.areas@[i].end as int,
        m1.heap_bottom as int,
        m1.brk_after(-delta),
    ) by {
        assert(m1.areas@[i] == m0.areas@[i]);
    }
    assert(m1.sbrk_valid(((-delta) as i32) as int));
}

/// A range that was just mapped cannot be mapped again: the second request
/// is refused, and a refused request leaves the address space as it was.
pub proof fn lemma_mmap_repeat_refused(
    m0: MemorySet,
    m1: MemorySet,
    start: usize,
    len: usize,
    port: usize,
    r: isize,
    m2: MemorySet,
    r2: isize,
)
    requires
        mmap_done(m0, m1, start, len, port, r),
        r != -1,
        mmap_done(m1, m2, start, len, port, r2),
    ensures
        !m1.mmap_valid(start as int, len as int, port as int),
        r2 == -1,
        m2 == m1,
{
    let k = m1.areas@.len() - 1;
    assert(m1.areas@[k].start == start);
    assert(!overlaps(m1.areas@[k].start as int, m1.areas@[k].end as int, start as int, start + page_round_up(len as int)) ==> false);
}

/// A prefix of `areas` meets `[s, e)` with no more length than the whole.
pub proof fn lemma_met_len_grows(areas: Seq<MapArea>, s: int, e: int, i: int)
    requires
        0 <= i <= areas.len(),
    ensures
        met_len(areas.subrange(0, i), s, e) <= met_len(areas, s, e),
    decreases areas.len() - i,
{
    if i < areas.len() {
        lemma_met_len_grows(areas, s, e, i + 1);
        assert(areas.subrange(0, i + 1).drop_last() =~= areas.subrange(0, i));
    } else {
        assert(areas.subrange(0, i) =~= areas);
    }
}

/// Removing one region keeps an address space well formed.
proof fn lemma_remove_keeps_wf(m: MemorySet, m2: MemorySet, i: int)
    requires
        m.wf(),
        0 <= i < m.areas@.len(),
        m == (MemorySet { areas: m.areas, ..m2 }),
        m2.areas@ == m.areas@.remove(i),
    ensures
        m2.wf(),
{
    assert forall|a: int, b: int|
        0 <= a < m2.areas@.len() && 0 <= b < m2.areas@.len() && a != b implies !overlaps(
        #[trigger] m2.areas@[a].start as int,
        m2.areas@[a].end as int,
        #[trigger] m2.areas@[b].start as int,
        m2.areas@[b].end as int,
    ) by {
        let a0 = if a < i { a } else { a + 1 };
        let b0 = if b < i { b } else { b + 1 };
        assert(m2.areas@[a] == m.areas@[a0]);
        assert(m2.areas@[b] == m.areas@[b0]);
    }
    assert forall|a: int| 0 <= a < m2.areas@.len() implies {
        let x = #[trigger] m2.areas@[a];
        &&& x.start < x.end
        &&& x.start % PAGE_SIZE == 0
        &&& x.end % PAGE_SIZE == 0
        &&& valid_perm(x.perm as int)
        &&& !overlaps(m2.heap_bottom as int, m2.brk as int, x.start as int, x.end as int)
        &&& !overlaps(m2.program_start as int, m2.program_end as int, x.start as int, x.end as int)
    } by {
        let a0 = if a < i { a } else { a + 1 };
        assert(m2.areas@[a] == m.areas@[a0]);
    }
}

} // verus!
