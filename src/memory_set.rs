//! Address spaces: ordered sets of non-overlapping mapped regions.
use vstd::prelude::*;
use crate::config::{PAGE_SIZE, MAX_VPN, TRAMPOLINE_PPN};
use crate::frame::{FrameArena, phys_addr};
use crate::addr::vpn_of;
use crate::config::{MAXVA, PROGRAM_LIMIT_VPN, TRAMPOLINE, TRAP_CONTEXT_BASE, USER_STACK_TOP, USER_STACK_SIZE};
use crate::perm::MapPermission;

verus! {

/// What a region is used for.
#[derive(Clone, Copy, Debug, PartialEq, Eq, Structural)]
pub enum AreaKind {
    /// A segment of the program image.
    Program,
    /// The shared trampoline page.
    Trampoline,
    /// The page holding the task's trap context.
    TrapContext,
    /// The user stack.
    UserStack,
    /// The heap, grown and shrunk by the program break.
    Heap,
    /// A region mapped on the task's explicit request.
    Mmap,
}

/// One loadable segment of a program image: its pages and their rights.
#[derive(Clone, Copy, Debug, PartialEq, Eq, Structural)]
pub struct Segment {
    pub start_vpn: usize,
    pub end_vpn: usize,
    pub perm: MapPermission,
}

/// A program image as the loader hands it over: its segments in ascending
/// page order, and the address of its first instruction.
pub struct ProgramImage {
    pub segments: Vec<Segment>,
    pub entry: usize,
}

/// Pages that the segments `segs` cover.
pub open spec fn image_pages(segs: Seq<Segment>) -> nat
    decreases segs.len(),
{
    if segs.len() == 0 {
        0
    } else {
        image_pages(segs.drop_last()) + (segs.last().end_vpn - segs.last().start_vpn) as nat
    }
}

/// Frames that building an address space from segments `segs` takes: their
/// pages, the trap-context page and the user stack.
pub open spec fn space_pages(segs: Seq<Segment>) -> nat {
    image_pages(segs) + 1 + (USER_STACK_SIZE / PAGE_SIZE) as nat
}

/// Heap bottom of an address space built from segments `segs`: one guard page
/// above the last segment.
pub open spec fn heap_bottom_of(segs: Seq<Segment>) -> int {
    if segs.len() == 0 {
        PAGE_SIZE as int
    } else {
        (segs.last().end_vpn + 1) * PAGE_SIZE
    }
}

impl ProgramImage {
    /// Whether the segments are non-empty, ascending, disjoint, and below
    /// `PROGRAM_LIMIT_VPN`, and page 0 stays unmapped.
    pub open spec fn wf(&self) -> bool {
        &&& forall|i: int|
            0 <= i < self.segments@.len() ==> 1 <= (#[trigger] self.segments@[i]).start_vpn
                < self.segments@[i].end_vpn <= PROGRAM_LIMIT_VPN
        &&& forall|i: int, j: int|
            0 <= i < j < self.segments@.len() ==> (#[trigger] self.segments@[i]).end_vpn
                <= (#[trigger] self.segments@[j]).start_vpn
    }

    /// Frames that building an address space from this image takes.
    pub fn pages_needed(&self) -> (r: usize)
        requires
            self.wf(),
        ensures
            r == space_pages(self.segments@),
    {
        let segs = &self.segments;
        let mut total: usize = 0;
        let mut i: usize = 0;
        while i < segs.len()
            invariant
                self.wf(),
                segs == &self.segments,
                i <= segs@.len(),
                total == image_pages(segs@.subrange(0, i as int)),
                i == 0 ==> total == 0,
                i > 0 ==> total <= segs@[i - 1].end_vpn,
            decreases segs@.len() - i,
        {
            assert(segs@.subrange(0, i + 1).drop_last() =~= segs@.subrange(0, i as int));
            total = total + (segs[i].end_vpn - segs[i].start_vpn);
            i = i + 1;
        }
        assert(segs@.subrange(0, i as int) =~= segs@);
        total + 1 + USER_STACK_SIZE / PAGE_SIZE
    }
}

/// One contiguous region `[start_vpn, end_vpn)` of pages of an address space.
pub struct MapArea {
    pub start_vpn: usize,
    pub end_vpn: usize,
    pub perm: MapPermission,
    pub kind: AreaKind,
    /// The frame behind each page, in page order.
    pub frames: Vec<usize>,
}

/// A region as a value.
pub struct AreaView {
    pub start: nat,
    pub end: nat,
    pub perm: MapPermission,
    pub kind: AreaKind,
    pub frames: Seq<usize>,
}

impl View for MapArea {
    type V = AreaView;

    open spec fn view(&self) -> AreaView {
        AreaView {
            start: self.start_vpn as nat,
            end: self.end_vpn as nat,
            perm: self.perm,
            kind: self.kind,
            frames: self.frames@,
        }
    }
}

/// Whether region `a` shares a page with `[s, e)`.
pub open spec fn overlaps(a: AreaView, s: int, e: int) -> bool {
    a.start < a.end && s < e && a.start < e && s < a.end
}

/// Whether any region of `areas` shares a page with `[s, e)`.
pub open spec fn conflicts(areas: Seq<AreaView>, s: int, e: int) -> bool {
    exists|i: int| 0 <= i < areas.len() && overlaps(#[trigger] areas[i], s, e)
}

/// Whether `a` is a well-formed region: inside user space, one frame per page,
/// each frame a frame of a memory of `nframes` frames.
pub open spec fn area_wf(a: AreaView, nframes: nat) -> bool {
    &&& a.start <= a.end <= MAX_VPN
    &&& a.frames.len() == a.end - a.start
    &&& forall|k: int| 0 <= k < a.frames.len() ==> #[trigger] a.frames[k] < nframes
    &&& a.kind != AreaKind::Trampoline ==> forall|k: int|
        0 <= k < a.frames.len() ==> TRAMPOLINE_PPN < #[trigger] a.frames[k]
}

/// Whether all regions are well-formed and no two share a page.
pub open spec fn areas_wf(areas: Seq<AreaView>, nframes: nat) -> bool {
    &&& forall|i: int| 0 <= i < areas.len() ==> area_wf(#[trigger] areas[i], nframes)
    &&& forall|i: int, j: int|
        0 <= i < areas.len() && 0 <= j < areas.len() && i != j ==> !overlaps(
            #[trigger] areas[i],
            #[trigger] areas[j].start as int,
            areas[j].end as int,
        )
}

/// Whether region `a` is the explicit mapping of exactly `[s, e)`.
pub open spec fn is_mmap_of(a: AreaView, s: int, e: int) -> bool {
    a.kind == AreaKind::Mmap && a.start == s && a.end == e
}

/// Whether `i` is the first region of `areas` that is the explicit mapping of
/// exactly `[s, e)`.
pub open spec fn first_mmap_of(areas: Seq<AreaView>, s: int, e: int, i: int) -> bool {
    &&& 0 <= i < areas.len()
    &&& is_mmap_of(areas[i], s, e)
    &&& forall|j: int| 0 <= j < i ==> !is_mmap_of(#[trigger] areas[j], s, e)
}

/// Whether region `a` holds page `vpn`.
pub open spec fn holds_page(a: AreaView, vpn: int) -> bool {
    a.start <= vpn < a.end
}

/// Whether page `vpn` of `areas` is backed by frame `ppn`.
pub open spec fn maps_to(areas: Seq<AreaView>, vpn: int, ppn: usize) -> bool {
    exists|i: int|
        0 <= i < areas.len() && holds_page(#[trigger] areas[i], vpn) && areas[i].frames[vpn
            - areas[i].start] == ppn
}

/// Whether page `vpn` is mapped in `areas`.
pub open spec fn is_mapped(areas: Seq<AreaView>, vpn: int) -> bool {
    exists|i: int| 0 <= i < areas.len() && holds_page(#[trigger] areas[i], vpn)
}

/// Whether some region of `areas` is the explicit mapping of exactly `[s, e)`.
pub open spec fn has_mmap_of(areas: Seq<AreaView>, s: int, e: int) -> bool {
    exists|i: int| 0 <= i < areas.len() && is_mmap_of(#[trigger] areas[i], s, e)
}

/// Whether user byte `va` of `areas` holds `b` in memory `mem`.
pub open spec fn user_byte_is(areas: Seq<AreaView>, mem: Seq<u8>, va: int, b: u8) -> bool {
    exists|ppn: usize|
        maps_to(areas, vpn_of(va), ppn) && #[trigger] mem[phys_addr(ppn as int, va % (
        PAGE_SIZE as int))] == b
}

/// Whether page `vpn` lies in a region of `areas` that user code may write.
pub open spec fn is_user_writable(areas: Seq<AreaView>, vpn: int) -> bool {
    exists|i: int|
        0 <= i < areas.len() && holds_page(#[trigger] areas[i], vpn) && areas[i].perm.u
            && areas[i].perm.w
}

/// Whether every byte of `[va, va + len)` lies in a page of `areas` that user
/// code may write.
pub open spec fn range_writable(areas: Seq<AreaView>, va: int, len: int) -> bool {
    forall|i: int| 0 <= i < len ==> is_user_writable(areas, #[trigger] vpn_of(va + i))
}

/// Frames that the regions of `areas` own: all but the trampoline's.
pub open spec fn owned_pages(areas: Seq<AreaView>) -> nat
    decreases areas.len(),
{
    if areas.len() == 0 {
        0
    } else {
        owned_pages(areas.drop_last()) + if areas.last().kind != AreaKind::Trampoline {
            (areas.last().end - areas.last().start) as nat
        } else {
            0
        }
    }
}

/// Whether `a` and `b` cover the same pages with the same rights and use.
pub open spec fn same_layout(a: AreaView, b: AreaView) -> bool {
    a.start == b.start && a.end == b.end && a.perm == b.perm && a.kind == b.kind
}

/// Whether a trap-context region of `areas` holds the trap-context page.
pub open spec fn has_trap_page(areas: Seq<AreaView>) -> bool {
    exists|i: int|
        0 <= i < areas.len() && (#[trigger] areas[i]).kind == AreaKind::TrapContext && holds_page(
            areas[i],
            (TRAP_CONTEXT_BASE / PAGE_SIZE) as int,
        )
}

/// Whether `a` is the shared trampoline region.
pub open spec fn is_trampoline(a: AreaView) -> bool {
    &&& a.kind == AreaKind::Trampoline
    &&& a.start == TRAMPOLINE / PAGE_SIZE
    &&& a.end == TRAMPOLINE / PAGE_SIZE + 1
    &&& a.frames == seq![TRAMPOLINE_PPN]
}

/// Whether `areas` maps the trampoline page to the trampoline frame.
pub open spec fn has_trampoline(areas: Seq<AreaView>) -> bool {
    exists|i: int| 0 <= i < areas.len() && is_trampoline(#[trigger] areas[i])
}

/// Index of the heap region.
pub open spec fn heap_index(areas: Seq<AreaView>) -> int {
    choose|i: int| 0 <= i < areas.len() && (#[trigger] areas[i]).kind == AreaKind::Heap
}

/// Whether `areas` holds exactly one heap region.
pub open spec fn has_one_heap(areas: Seq<AreaView>) -> bool {
    &&& exists|i: int| 0 <= i < areas.len() && (#[trigger] areas[i]).kind == AreaKind::Heap
    &&& forall|i: int, j: int|
        0 <= i < areas.len() && 0 <= j < areas.len() && (#[trigger] areas[i]).kind
            == AreaKind::Heap && (#[trigger] areas[j]).kind == AreaKind::Heap ==> i == j
}

impl MapArea {
    /// A region of the given pages, each backed by a fresh zeroed frame.
    pub fn new_framed(
        arena: &mut FrameArena,
        start_vpn: usize,
        end_vpn: usize,
        perm: MapPermission,
        kind: AreaKind,
    ) -> (r: MapArea)
        requires
            old(arena).wf(),
            start_vpn <= end_vpn <= MAX_VPN,
            old(arena).free@.len() >= end_vpn - start_vpn,
        ensures
            final(arena).wf(),
            final(arena).nframes == old(arena).nframes,
            final(arena).free@ == old(arena).free@.subrange(
                0,
                old(arena).free@.len() - (end_vpn - start_vpn),
            ),
            area_wf(r@, final(arena).nframes as nat),
            r.start_vpn == start_vpn,
            r.end_vpn == end_vpn,
            r.perm == perm,
            r.kind == kind,
            forall|k: int| 0 <= k < r.frames@.len() ==> TRAMPOLINE_PPN < #[trigger] r.frames@[k],
            forall|k: int|
                0 <= k < r.frames@.len() ==> #[trigger] r.frames@[k] == old(arena).free@[old(
                    arena,
                ).free@.len() - 1 - k],
    {
        let n: usize = end_vpn - start_vpn;
        let mut frames: Vec<usize> = Vec::new();
        let mut i: usize = 0;
        let ghost f0 = arena.free@;
        while i < n
            invariant
                arena.wf(),
                arena.nframes == old(arena).nframes,
                i <= n,
                n == end_vpn - start_vpn,
                f0 == old(arena).free@,
                f0.len() >= n,
                arena.free@ == f0.subrange(0, f0.len() - i),
                frames@.len() == i,
                forall|k: int|
                    0 <= k < frames@.len() ==> TRAMPOLINE_PPN < #[trigger] frames@[k]
                        < arena.nframes,
                forall|k: int| 0 <= k < frames@.len() ==> #[trigger] frames@[k] == f0[f0.len() - 1 - k],
            decreases n - i,
        {
            let p = arena.alloc_frame();
            frames.push(p);
            i = i + 1;
            assert(arena.free@ =~= f0.subrange(0, f0.len() - i));
        }
        MapArea { start_vpn, end_vpn, perm, kind, frames }
    }

    /// A committed anonymous mapping of the given pages with the given rights.
    pub fn new_for_mmap(
        arena: &mut FrameArena,
        start_vpn: usize,
        end_vpn: usize,
        perm: MapPermission,
    ) -> (r: MapArea)
        requires
            old(arena).wf(),
            start_vpn <= end_vpn <= MAX_VPN,
            old(arena).free@.len() >= end_vpn - start_vpn,
        ensures
            final(arena).wf(),
            final(arena).nframes == old(arena).nframes,
            final(arena).free@ == old(arena).free@.subrange(
                0,
                old(arena).free@.len() - (end_vpn - start_vpn),
            ),
            area_wf(r@, final(arena).nframes as nat),
            r.start_vpn == start_vpn,
            r.end_vpn == end_vpn,
            r.perm == perm,
            r.kind == AreaKind::Mmap,
            forall|k: int| 0 <= k < r.frames@.len() ==> TRAMPOLINE_PPN < #[trigger] r.frames@[k],
            forall|k: int|
                0 <= k < r.frames@.len() ==> #[trigger] r.frames@[k] == old(arena).free@[old(
                    arena,
                ).free@.len() - 1 - k],
    {
        MapArea::new_framed(arena, start_vpn, end_vpn, perm, AreaKind::Mmap)
    }
}


/// An address space: its regions, in order of creation, and the token that
/// names it to the translation hardware.
pub struct MemorySet {
    pub areas: Vec<MapArea>,
    pub token: usize,
}

impl MemorySet {
    /// The regions as values.
    pub open spec fn view(&self) -> Seq<AreaView> {
        self.areas@.map_values(|a: MapArea| a@)
    }

    /// Whether the regions are well-formed over a memory of `nframes` frames
    /// and pairwise disjoint.
    pub open spec fn wf(&self, nframes: nat) -> bool {
        areas_wf(self.view(), nframes)
    }

    /// Whether every region has one frame per page.
    pub open spec fn sized(&self) -> bool {
        forall|i: int|
            0 <= i < self.view().len() ==> (#[trigger] self.view()[i]).frames.len()
                == self.view()[i].end - self.view()[i].start
    }

    /// An address space with no region.
    pub fn new_bare(token: usize) -> (r: MemorySet)
        ensures
            r.view() == Seq::<AreaView>::empty(),
            r.token == token,
    {
        let r = MemorySet { areas: Vec::new(), token };
        assert(r.view() =~= Seq::<AreaView>::empty());
        r
    }

    /// The token naming this address space.
    pub fn token(&self) -> (r: usize)
        ensures
            r == self.token,
    {
        self.token
    }

    /// Whether any region shares a page with `[start_vpn, end_vpn)`.
    pub fn map_area_conflict(&self, start_vpn: usize, end_vpn: usize) -> (r: bool)
        ensures
            r == conflicts(self.view(), start_vpn as int, end_vpn as int),
    {
        let mut i: usize = 0;
        while i < self.areas.len()
            invariant
                i <= self.areas@.len(),
                forall|j: int|
                    0 <= j < i ==> !overlaps(#[trigger] self.view()[j], start_vpn as int, end_vpn as int),
            decreases self.areas@.len() - i,
        {
            let a = &self.areas[i];
            if a.start_vpn < a.end_vpn && start_vpn < end_vpn && a.start_vpn < end_vpn
                && start_vpn < a.end_vpn {
                assert(overlaps(self.view()[i as int], start_vpn as int, end_vpn as int));
                return true;
            }
            i = i + 1;
        }
        false
    }

    /// Records `area`, which shares no page with any region.
    pub fn push(&mut self, arena: &FrameArena, area: MapArea)
        requires
            old(self).wf(arena.nframes as nat),
            area_wf(area@, arena.nframes as nat),
            !conflicts(old(self).view(), area.start_vpn as int, area.end_vpn as int),
        ensures
            final(self).wf(arena.nframes as nat),
            final(self).view() == old(self).view().push(area@),
            final(self).token == old(self).token,
    {
        let ghost a = area@;
        self.areas.push(area);
        assert(self.view() =~= old(self).view().push(a));
        assert forall|i: int, j: int|
            0 <= i < self.view().len() && 0 <= j < self.view().len() && i != j implies !overlaps(
            #[trigger] self.view()[i],
            #[trigger] self.view()[j].start as int,
            self.view()[j].end as int,
        ) by {
            if i == self.view().len() - 1 {
                assert(!overlaps(old(self).view()[j], a.start as int, a.end as int));
            } else if j == self.view().len() - 1 {
                assert(!overlaps(old(self).view()[i], a.start as int, a.end as int));
            }
        }
    }

    /// Maps `[start_vpn, end_vpn)` with fresh zeroed frames as a region of
    /// the given kind; the pages must be free.
    pub fn insert_framed_area(
        &mut self,
        arena: &mut FrameArena,
        start_vpn: usize,
        end_vpn: usize,
        perm: MapPermission,
        kind: AreaKind,
    )
        requires
            old(arena).wf(),
            old(self).wf(old(arena).nframes as nat),
            start_vpn <= end_vpn <= MAX_VPN,
            old(arena).free@.len() >= end_vpn - start_vpn,
            !conflicts(old(self).view(), start_vpn as int, end_vpn as int),
        ensures
            final(arena).wf(),
            final(arena).nframes == old(arena).nframes,
            final(arena).free@ == old(arena).free@.subrange(
                0,
                old(arena).free@.len() - (end_vpn - start_vpn),
            ),
            final(self).wf(final(arena).nframes as nat),
            final(self).token == old(self).token,
            final(self).view() == old(self).view().push(
                AreaView {
                    start: start_vpn as nat,
                    end: end_vpn as nat,
                    perm,
                    kind,
                    frames: final(self).view().last().frames,
                },
            ),
    {
        let area = MapArea::new_framed(arena, start_vpn, end_vpn, perm, kind);
        self.push(arena, area);
    }

    /// Position of the heap region.
    fn find_heap(&self) -> (r: usize)
        requires
            has_one_heap(self.view()),
        ensures
            r == heap_index(self.view()),
            r < self.areas@.len(),
    {
        let ghost h = heap_index(self.view());
        let mut i: usize = 0;
        while i < self.areas.len()
            invariant
                0 <= h < self.view().len(),
                self.view()[h].kind == AreaKind::Heap,
                has_one_heap(self.view()),
                i <= h,
            decreases self.areas@.len() - i,
        {
            if self.areas[i].kind == AreaKind::Heap {
                assert(self.view()[i as int].kind == AreaKind::Heap);
                return i;
            }
            assert(self.view()[i as int].kind != AreaKind::Heap);
            i = i + 1;
        }
        0
    }

    /// Position of the first explicit mapping of exactly `[start_vpn, end_vpn)`.
    fn find_mmap(&self, start_vpn: usize, end_vpn: usize) -> (r: Option<usize>)
        ensures
            r is None ==> !has_mmap_of(self.view(), start_vpn as int, end_vpn as int),
            r is Some ==> first_mmap_of(self.view(), start_vpn as int, end_vpn as int, r->Some_0 as int),
    {
        let mut i: usize = 0;
        while i < self.areas.len()
            invariant
                i <= self.areas@.len(),
                forall|j: int|
                    0 <= j < i ==> !is_mmap_of(#[trigger] self.view()[j], start_vpn as int, end_vpn as int),
            decreases self.areas@.len() - i,
        {
            let a = &self.areas[i];
            assert(self.view()[i as int] == a@);
            if a.kind == AreaKind::Mmap && a.start_vpn == start_vpn && a.end_vpn == end_vpn {
                return Some(i);
            }
            i = i + 1;
        }
        None
    }

    /// Removes the explicit mapping of exactly `[start_vpn, end_vpn)` and frees
    /// its frames; `false`, with nothing changed, when there is none.
    pub fn unpush(&mut self, arena: &mut FrameArena, start_vpn: usize, end_vpn: usize) -> (r: bool)
        requires
            old(arena).wf(),
            old(self).wf(old(arena).nframes as nat),
        ensures
            final(arena).wf(),
            final(arena).nframes == old(arena).nframes,
            final(arena).bytes@ == old(arena).bytes@,
            final(self).wf(final(arena).nframes as nat),
            final(self).token == old(self).token,
            r == has_mmap_of(old(self).view(), start_vpn as int, end_vpn as int),
            r ==> exists|i: int|
                first_mmap_of(old(self).view(), start_vpn as int, end_vpn as int, i)
                    && final(self).view() == old(self).view().remove(i)
                    && final(arena).free@ == old(arena).free@ + old(self).view()[i].frames,
            !r ==> final(self).view() == old(self).view() && final(arena).free@ == old(
                arena,
            ).free@,
    {
        let ghost v0 = self.view();
        let found = self.find_mmap(start_vpn, end_vpn);
        if found.is_none() {
            return false;
        }
        let i = found.unwrap();
        assert(first_mmap_of(v0, start_vpn as int, end_vpn as int, i as int));
        let area = self.areas.remove(i);
        assert(self.view() =~= v0.remove(i as int));
        let ghost f0 = arena.free@;
        let mut k: usize = 0;
        while k < area.frames.len()
            invariant
                arena.wf(),
                arena.nframes == old(arena).nframes,
                arena.bytes@ == old(arena).bytes@,
                area@ == v0[i as int],
                area_wf(area@, arena.nframes as nat),
                area.kind == AreaKind::Mmap,
                k <= area.frames@.len(),
                arena.free@ == f0 + area.frames@.subrange(0, k as int),
            decreases area.frames@.len() - k,
        {
            arena.dealloc_frame(area.frames[k]);
            k = k + 1;
            assert(arena.free@ =~= f0 + area.frames@.subrange(0, k as int));
        }
        assert(area.frames@.subrange(0, k as int) =~= area.frames@);
        assert forall|a: int, b: int|
            0 <= a < self.view().len() && 0 <= b < self.view().len() && a != b implies !overlaps(
            #[trigger] self.view()[a],
            #[trigger] self.view()[b].start as int,
            self.view()[b].end as int,
        ) by {
            let a0 = if a < i { a } else { a + 1 };
            let b0 = if b < i { b } else { b + 1 };
            assert(self.view()[a] == v0[a0]);
            assert(self.view()[b] == v0[b0]);
        }
        true
    }

    /// The frame behind page `vpn`; `None` when no region holds it.
    pub fn translate(&self, vpn: usize) -> (r: Option<usize>)
        requires
            self.sized(),
        ensures
            r is Some ==> maps_to(self.view(), vpn as int, r->Some_0),
            r is None ==> !is_mapped(self.view(), vpn as int),
    {
        let mut i: usize = 0;
        while i < self.areas.len()
            invariant
                i <= self.areas@.len(),
                self.sized(),
                forall|j: int| 0 <= j < i ==> !holds_page(#[trigger] self.view()[j], vpn as int),
            decreases self.areas@.len() - i,
        {
            let a = &self.areas[i];
            assert(self.view()[i as int] == a@);
            if a.start_vpn <= vpn && vpn < a.end_vpn {
                assert(self.view()[i as int].frames.len() == a.end_vpn - a.start_vpn);
                let p = a.frames[vpn - a.start_vpn];
                assert(holds_page(self.view()[i as int], vpn as int));
                return Some(p);
            }
            i = i + 1;
        }
        None
    }

    /// Grows the heap region up to page `new_end_vpn` with fresh zeroed
    /// frames; `false`, with nothing changed, when another region holds one
    /// of the new pages or too few frames are free.
    pub fn append_to(&mut self, arena: &mut FrameArena, new_end_vpn: usize) -> (r: bool)
        requires
            old(arena).wf(),
            old(self).wf(old(arena).nframes as nat),
            has_one_heap(old(self).view()),
            old(self).view()[heap_index(old(self).view())].end <= new_end_vpn <= MAX_VPN,
        ensures
            final(arena).wf(),
            final(arena).nframes == old(arena).nframes,
            final(self).wf(final(arena).nframes as nat),
            final(self).token == old(self).token,
            has_one_heap(final(self).view()),
            heap_index(final(self).view()) == heap_index(old(self).view()),
            r == (!conflicts(
                old(self).view(),
                old(self).view()[heap_index(old(self).view())].end as int,
                new_end_vpn as int,
            ) && old(arena).free@.len() >= new_end_vpn - old(self).view()[heap_index(
                old(self).view(),
            )].end),
            r ==> final(self).view() == old(self).view().update(
                heap_index(old(self).view()),
                AreaView {
                    end: new_end_vpn as nat,
                    frames: final(self).view()[heap_index(old(self).view())].frames,
                    ..old(self).view()[heap_index(old(self).view())]
                },
            ),
            r ==> final(arena).free@.len() == old(arena).free@.len() - (new_end_vpn
                - old(self).view()[heap_index(old(self).view())].end),
            !r ==> final(self).view() == old(self).view() && final(arena).free@ == old(
                arena,
            ).free@ && final(arena).bytes@ == old(arena).bytes@,
    {
        let ghost v0 = self.view();
        let h = self.find_heap();
        let old_end = self.areas[h].end_vpn;
        assert(v0[h as int] == self.areas@[h as int]@);
        if self.map_area_conflict(old_end, new_end_vpn) || arena.available() < new_end_vpn
            - old_end {
            return false;
        }
        let mut area = self.areas.remove(h);
        let mut e: usize = old_end;
        while e < new_end_vpn
            invariant
                arena.wf(),
                arena.nframes == old(arena).nframes,
                h < v0.len(),
                old_end == v0[h as int].end,
                old_end <= e <= new_end_vpn,
                area@.start == v0[h as int].start,
                area.perm == v0[h as int].perm,
                area.kind == AreaKind::Heap,
                area.end_vpn == old_end,
                area.frames@.len() == e - area.start_vpn,
                forall|k: int|
                    0 <= k < area.frames@.len() ==> TRAMPOLINE_PPN < #[trigger] area.frames@[k]
                        < arena.nframes,
                arena.free@.len() == old(arena).free@.len() - (e - old_end),
                old(arena).free@.len() >= new_end_vpn - old_end,
            decreases new_end_vpn - e,
        {
            let p = arena.alloc_frame();
            area.frames.push(p);
            e = e + 1;
        }
        area.end_vpn = new_end_vpn;
        let ghost na = area@;
        self.areas.insert(h, area);
        assert(self.view() =~= v0.update(h as int, na));
        assert forall|a: int, b: int|
            0 <= a < self.view().len() && 0 <= b < self.view().len() && a != b implies !overlaps(
            #[trigger] self.view()[a],
            #[trigger] self.view()[b].start as int,
            self.view()[b].end as int,
        ) by {
            if a == h {
                assert(!overlaps(v0[b], v0[a].start as int, v0[a].end as int));
                assert(!overlaps(v0[b], old_end as int, new_end_vpn as int));
            } else if b == h {
                assert(!overlaps(v0[a], v0[b].start as int, v0[b].end as int));
                assert(!overlaps(v0[a], old_end as int, new_end_vpn as int));
            }
        }
        assert(self.view()[h as int].kind == AreaKind::Heap);
        true
    }

    /// Shrinks the heap region down to page `new_end_vpn` and frees the frames
    /// of the pages it gives up.
    pub fn shrink_to(&mut self, arena: &mut FrameArena, new_end_vpn: usize)
        requires
            old(arena).wf(),
            old(self).wf(old(arena).nframes as nat),
            has_one_heap(old(self).view()),
            old(self).view()[heap_index(old(self).view())].start <= new_end_vpn
                <= old(self).view()[heap_index(old(self).view())].end,
        ensures
            final(arena).wf(),
            final(arena).nframes == old(arena).nframes,
            final(arena).bytes@ == old(arena).bytes@,
            final(self).wf(final(arena).nframes as nat),
            final(self).token == old(self).token,
            has_one_heap(final(self).view()),
            heap_index(final(self).view()) == heap_index(old(self).view()),
            final(self).view() == old(self).view().update(
                heap_index(old(self).view()),
                AreaView {
                    end: new_end_vpn as nat,
                    frames: old(self).view()[heap_index(old(self).view())].frames.subrange(
                        0,
                        new_end_vpn - old(self).view()[heap_index(old(self).view())].start,
                    ),
                    ..old(self).view()[heap_index(old(self).view())]
                },
            ),
            final(arena).free@.len() == old(arena).free@.len() + (old(self).view()[heap_index(
                old(self).view(),
            )].end - new_end_vpn),
    {
        let ghost v0 = self.view();
        let h = self.find_heap();
        assert(v0[h as int] == self.areas@[h as int]@);
        let mut area = self.areas.remove(h);
        let ghost f0 = area.frames@;
        while area.end_vpn > new_end_vpn
            invariant
                arena.wf(),
                arena.nframes == old(arena).nframes,
                arena.bytes@ == old(arena).bytes@,
                h < v0.len(),
                area@.start == v0[h as int].start,
                area.perm == v0[h as int].perm,
                area.kind == AreaKind::Heap,
                new_end_vpn <= area.end_vpn <= v0[h as int].end,
                v0[h as int].start <= new_end_vpn,
                f0 == v0[h as int].frames,
                f0.len() == v0[h as int].end - v0[h as int].start,
                forall|k: int| 0 <= k < f0.len() ==> TRAMPOLINE_PPN < #[trigger] f0[k] < arena.nframes,
                area.frames@ == f0.subrange(0, area.end_vpn - area.start_vpn),
                arena.free@.len() == old(arena).free@.len() + (v0[h as int].end - area.end_vpn),
            decreases area.end_vpn,
        {
            let p = area.frames.pop().unwrap();
            arena.dealloc_frame(p);
            area.end_vpn = area.end_vpn - 1;
            assert(area.frames@ =~= f0.subrange(0, area.end_vpn - area.start_vpn));
        }
        let ghost na = area@;
        self.areas.insert(h, area);
        assert(self.view() =~= v0.update(h as int, na));
        assert(na.frames =~= v0[h as int].frames.subrange(0, new_end_vpn - v0[h as int].start));
        assert forall|a: int, b: int|
            0 <= a < self.view().len() && 0 <= b < self.view().len() && a != b implies !overlaps(
            #[trigger] self.view()[a],
            #[trigger] self.view()[b].start as int,
            self.view()[b].end as int,
        ) by {
            if a == h {
                assert(!overlaps(v0[b], v0[a].start as int, v0[a].end as int));
            } else if b == h {
                assert(!overlaps(v0[a], v0[b].start as int, v0[b].end as int));
            }
        }
        assert(self.view()[h as int].kind == AreaKind::Heap);
    }

    /// Whether page `vpn` lies in a region that user code may write.
    pub fn user_writable(&self, vpn: usize) -> (r: bool)
        ensures
            r == is_user_writable(self.view(), vpn as int),
    {
        let mut i: usize = 0;
        while i < self.areas.len()
            invariant
                i <= self.areas@.len(),
                forall|j: int|
                    0 <= j < i ==> !(holds_page(#[trigger] self.view()[j], vpn as int)
                        && self.view()[j].perm.u && self.view()[j].perm.w),
            decreases self.areas@.len() - i,
        {
            let a = &self.areas[i];
            assert(self.view()[i as int] == a@);
            if a.start_vpn <= vpn && vpn < a.end_vpn && a.perm.u && a.perm.w {
                return true;
            }
            i = i + 1;
        }
        false
    }

    /// Physical address of user byte `va`; `None` when its page is unmapped.
    fn user_pa(&self, arena: &FrameArena, va: usize) -> (r: Option<usize>)
        requires
            arena.wf(),
            self.wf(arena.nframes as nat),
        ensures
            r is None ==> !is_mapped(self.view(), vpn_of(va as int)),
            r is Some ==> exists|ppn: usize|
                maps_to(self.view(), vpn_of(va as int), ppn) && r->Some_0 == phys_addr(
                    ppn as int,
                    va as int % (PAGE_SIZE as int),
                ),
            r is Some ==> r->Some_0 < arena.bytes@.len(),
    {
        let total = arena.bytes.len();
        match self.translate(va / PAGE_SIZE) {
            None => None,
            Some(ppn) => {
                let ghost i = choose|i: int|
                    0 <= i < self.view().len() && holds_page(#[trigger] self.view()[i], vpn_of(va as int))
                        && self.view()[i].frames[vpn_of(va as int) - self.view()[i].start] == ppn;
                assert(area_wf(self.view()[i], arena.nframes as nat));
                assert(ppn < arena.nframes);
                proof {
                    assert(ppn * PAGE_SIZE + PAGE_SIZE <= arena.nframes * PAGE_SIZE) by (nonlinear_arith)
                        requires ppn < arena.nframes;
                }
                Some(ppn * PAGE_SIZE + va % PAGE_SIZE)
            },
        }
    }

    /// Copies `bytes` into this address space at user address `va`, whose
    /// pages need not be contiguous in physical memory; `false`, with memory
    /// unchanged, when a byte of the range lies outside the regions that user
    /// code may write.
    pub fn copy_out(&self, arena: &mut FrameArena, va: usize, bytes: &Vec<u8>) -> (r: bool)
        requires
            old(arena).wf(),
            self.wf(old(arena).nframes as nat),
            bytes@.len() <= PAGE_SIZE,
            va + bytes@.len() <= MAXVA,
        ensures
            final(arena).wf(),
            final(arena).nframes == old(arena).nframes,
            final(arena).free@ == old(arena).free@,
            r == range_writable(self.view(), va as int, bytes@.len() as int),
            r ==> forall|i: int|
                0 <= i < bytes@.len() ==> user_byte_is(
                    self.view(),
                    final(arena).bytes@,
                    va + i,
                    #[trigger] bytes@[i],
                ),
            !r ==> final(arena).bytes@ == old(arena).bytes@,
    {
        let n = bytes.len();
        let mut i: usize = 0;
        while i < n
            invariant
                arena.wf(),
                self.wf(arena.nframes as nat),
                n == bytes@.len(),
                va + n <= MAXVA,
                i <= n,
                forall|j: int| 0 <= j < i ==> is_user_writable(self.view(), #[trigger] vpn_of(va + j)),
            decreases n - i,
        {
            if !self.user_writable((va + i) / PAGE_SIZE) {
                assert(!is_user_writable(self.view(), vpn_of(va + i)));
                return false;
            }
            i = i + 1;
        }
        let mut i: usize = 0;
        while i < n
            invariant
                arena.wf(),
                arena.nframes == old(arena).nframes,
                arena.free@ == old(arena).free@,
                self.wf(arena.nframes as nat),
                n == bytes@.len(),
                n <= PAGE_SIZE,
                va + n <= MAXVA,
                i <= n,
                range_writable(self.view(), va as int, n as int),
                forall|j: int|
                    0 <= j < i ==> user_byte_is(
                        self.view(),
                        arena.bytes@,
                        va + j,
                        #[trigger] bytes@[j],
                    ),
            decreases n - i,
        {
            proof {
                assert(is_user_writable(self.view(), vpn_of(va + i)));
            }
            let pa = self.user_pa(arena, va + i).unwrap();
            let ghost before = arena.bytes@;
            arena.write(pa, bytes[i]);
            assert forall|j: int| 0 <= j < i + 1 implies user_byte_is(
                self.view(),
                arena.bytes@,
                va + j,
                #[trigger] bytes@[j],
            ) by {
                if j < i {
                    let ppn = choose|ppn: usize|
                        maps_to(self.view(), vpn_of(va + j), ppn) && #[trigger] before[phys_addr(
                            ppn as int,
                            (va + j) % (PAGE_SIZE as int),
                        )] == bytes@[j];
                    let q = phys_addr(ppn as int, (va + j) % (PAGE_SIZE as int));
                    assert(q % (PAGE_SIZE as int) == (va + j) % (PAGE_SIZE as int));
                    assert(pa as int % (PAGE_SIZE as int) == (va + i) % (PAGE_SIZE as int));
                    assert(q != pa);
                    assert(arena.bytes@[q] == bytes@[j]);
                } else {
                    let ppn = choose|ppn: usize|
                        #[trigger] maps_to(self.view(), vpn_of(va + i), ppn) && pa == phys_addr(
                            ppn as int,
                            (va + i) % (PAGE_SIZE as int),
                        );
                    assert(arena.bytes@[pa as int] == bytes@[j]);
                    assert(arena.bytes@[phys_addr(ppn as int, (va + j) % (PAGE_SIZE as int))] == bytes@[j]);
                }
            }
            i = i + 1;
        }
        true
    }

    /// Byte at user address `va`; `None` when its page is unmapped.
    pub fn read_user(&self, arena: &FrameArena, va: usize) -> (r: Option<u8>)
        requires
            arena.wf(),
            self.wf(arena.nframes as nat),
        ensures
            r is None ==> !is_mapped(self.view(), vpn_of(va as int)),
            r is Some ==> user_byte_is(self.view(), arena.bytes@, va as int, r->Some_0),
    {
        match self.user_pa(arena, va) {
            None => None,
            Some(pa) => Some(arena.read(pa)),
        }
    }

    /// Lays out an address space from a program image: its segments, an
    /// empty heap one guard page above them, the user stack one guard page
    /// below the trap-context page, the trap-context page, and the shared
    /// trampoline page. Returns the space, the initial user stack pointer, the
    /// heap bottom and the entry point.
    #[verifier::rlimit(40)]
    pub fn from_elf(arena: &mut FrameArena, image: &ProgramImage, token: usize) -> (r: (
        MemorySet,
        usize,
        usize,
        usize,
    ))
        requires
            old(arena).wf(),
            image.wf(),
            old(arena).free@.len() >= space_pages(image.segments@),
        ensures
            final(arena).wf(),
            final(arena).nframes == old(arena).nframes,
            final(arena).free@.len() == old(arena).free@.len() - space_pages(image.segments@),
            r.0.wf(final(arena).nframes as nat),
            r.0.token == token,
            has_one_heap(r.0.view()),
            r.0.view()[heap_index(r.0.view())].start == r.2 / PAGE_SIZE,
            r.0.view()[heap_index(r.0.view())].end == r.2 / PAGE_SIZE,
            r.1 == USER_STACK_TOP,
            r.2 == heap_bottom_of(image.segments@),
            r.2 % PAGE_SIZE == 0,
            r.2 <= (PROGRAM_LIMIT_VPN + 1) * PAGE_SIZE,
            r.3 == image.entry,
            r.0.view().len() == image.segments@.len() + 4,
            forall|k: int|
                0 <= k < image.segments@.len() ==> #[trigger] r.0.view()[k].start
                    == image.segments@[k].start_vpn && r.0.view()[k].end
                    == image.segments@[k].end_vpn && r.0.view()[k].perm
                    == image.segments@[k].perm && r.0.view()[k].kind == AreaKind::Program,
            has_trap_page(r.0.view()),
            has_trampoline(r.0.view()),
            r.0.view().last() == (AreaView {
                start: (TRAMPOLINE / PAGE_SIZE) as nat,
                end: (TRAMPOLINE / PAGE_SIZE + 1) as nat,
                perm: MapPermission { r: true, w: false, x: true, u: false },
                kind: AreaKind::Trampoline,
                frames: seq![TRAMPOLINE_PPN],
            }),
    {
        let mut ms = MemorySet::new_bare(token);
        let segs = &image.segments;
        let ghost free0 = arena.free@.len();
        let mut i: usize = 0;
        while i < segs.len()
            invariant
                arena.wf(),
                arena.nframes == old(arena).nframes,
                image.wf(),
                segs == &image.segments,
                ms.wf(arena.nframes as nat),
                ms.token == token,
                i <= segs@.len(),
                ms.view().len() == i,
                free0 == old(arena).free@.len(),
                free0 >= space_pages(segs@),
                arena.free@.len() == free0 - image_pages(segs@.subrange(0, i as int)),
                image_pages(segs@.subrange(0, i as int)) <= image_pages(segs@),
                forall|k: int|
                    0 <= k < i ==> #[trigger] ms.view()[k].start == segs@[k].start_vpn
                        && ms.view()[k].end == segs@[k].end_vpn && ms.view()[k].perm == segs@[k].perm
                        && ms.view()[k].kind == AreaKind::Program,
                forall|k: int| 0 <= k < i ==> #[trigger] ms.view()[k].end <= (if i < segs@.len() {
                    segs@[i as int].start_vpn as int
                } else {
                    PROGRAM_LIMIT_VPN as int
                }),
            decreases segs@.len() - i,
        {
            let seg = segs[i];
            proof {
                assert(segs@.subrange(0, i + 1).drop_last() =~= segs@.subrange(0, i as int));
                lemma_image_pages_prefix(segs@, i + 1);
                assert(!conflicts(ms.view(), seg.start_vpn as int, seg.end_vpn as int)) by {
                    if conflicts(ms.view(), seg.start_vpn as int, seg.end_vpn as int) {
                        let k = choose|k: int| 0 <= k < ms.view().len() && overlaps(#[trigger] ms.view()[k], seg.start_vpn as int, seg.end_vpn as int);
                        assert(ms.view()[k].end <= seg.start_vpn);
                    }
                }
            }
            ms.insert_framed_area(arena, seg.start_vpn, seg.end_vpn, seg.perm, AreaKind::Program);
            i = i + 1;
            proof {
                assert forall|k: int| 0 <= k < i implies #[trigger] ms.view()[k].end <= (if i < segs@.len() {
                    segs@[i as int].start_vpn as int
                } else {
                    PROGRAM_LIMIT_VPN as int
                }) by {
                    if i < segs@.len() {
                        if k < i - 1 {
                            assert(segs@[k].end_vpn <= segs@[i - 1].start_vpn);
                        }
                        assert(segs@[i - 1].end_vpn <= segs@[i as int].start_vpn);
                    }
                }
            }
        }
        assert(segs@.subrange(0, i as int) =~= segs@);
        let heap_vpn: usize = if segs.len() == 0 {
            1
        } else {
            segs[segs.len() - 1].end_vpn + 1
        };
        assert(forall|k: int| 0 <= k < ms.view().len() ==> #[trigger] ms.view()[k].end <= heap_vpn);
        let heap = MapArea { start_vpn: heap_vpn, end_vpn: heap_vpn, perm: MapPermission::rwu(), kind: AreaKind::Heap, frames: Vec::new() };
        assert(!conflicts(ms.view(), heap_vpn as int, heap_vpn as int));
        ms.push(arena, heap);
        let stack_bottom: usize = (USER_STACK_TOP - USER_STACK_SIZE) / PAGE_SIZE;
        assert(!conflicts(ms.view(), stack_bottom as int, (USER_STACK_TOP / PAGE_SIZE) as int)) by {
            assert(forall|k: int| 0 <= k < ms.view().len() ==> #[trigger] ms.view()[k].end <= stack_bottom);
        }
        ms.insert_framed_area(arena, stack_bottom, USER_STACK_TOP / PAGE_SIZE, MapPermission::rwu(), AreaKind::UserStack);
        let tc: usize = TRAP_CONTEXT_BASE / PAGE_SIZE;
        assert(!conflicts(ms.view(), tc as int, tc + 1)) by {
            assert(forall|k: int| 0 <= k < ms.view().len() ==> #[trigger] ms.view()[k].end <= tc);
        }
        ms.insert_framed_area(arena, tc, tc + 1, MapPermission::rw(), AreaKind::TrapContext);
        let ghost tc_index = ms.view().len() - 1;
        assert(holds_page(ms.view()[tc_index], tc as int));
        let tr: usize = TRAMPOLINE / PAGE_SIZE;
        let mut tf: Vec<usize> = Vec::new();
        tf.push(TRAMPOLINE_PPN);
        let tramp = MapArea { start_vpn: tr, end_vpn: tr + 1, perm: MapPermission::rx(), kind: AreaKind::Trampoline, frames: tf };
        assert(!conflicts(ms.view(), tr as int, tr + 1)) by {
            assert(forall|k: int| 0 <= k < ms.view().len() ==> #[trigger] ms.view()[k].end <= tr);
        }
        assert(tramp.frames@ =~= seq![TRAMPOLINE_PPN]);
        ms.push(arena, tramp);
        assert(holds_page(ms.view()[tc_index], tc as int));
        assert(ms.view()[tc_index].kind == AreaKind::TrapContext);
        assert(is_trampoline(ms.view()[ms.view().len() - 1]));
        let h = segs.len();
        assert(ms.view()[h as int].kind == AreaKind::Heap);
        assert forall|a: int, b: int|
            0 <= a < ms.view().len() && 0 <= b < ms.view().len() && (#[trigger] ms.view()[a]).kind
                == AreaKind::Heap && (#[trigger] ms.view()[b]).kind == AreaKind::Heap implies a == b by {
            assert(a == h && b == h);
        }
        (ms, USER_STACK_TOP, heap_vpn * PAGE_SIZE, image.entry)
    }
}

/// The pages of a prefix of the segments are no more than those of all.
proof fn lemma_image_pages_prefix(segs: Seq<Segment>, n: int)
    requires
        0 <= n <= segs.len(),
        forall|i: int| 0 <= i < segs.len() ==> (#[trigger] segs[i]).start_vpn <= segs[i].end_vpn,
    ensures
        image_pages(segs.subrange(0, n)) <= image_pages(segs),
    decreases segs.len(),
{
    if n < segs.len() {
        assert(segs.drop_last().subrange(0, n) =~= segs.subrange(0, n));
        lemma_image_pages_prefix(segs.drop_last(), n);
    } else {
        assert(segs.subrange(0, n) =~= segs);
    }
}


/// The frames owned by a prefix of the regions are no more than those of all.
proof fn lemma_owned_pages_prefix(areas: Seq<AreaView>, n: int)
    requires
        0 <= n <= areas.len(),
    ensures
        owned_pages(areas.subrange(0, n)) <= owned_pages(areas),
    decreases areas.len(),
{
    if n < areas.len() {
        assert(areas.drop_last().subrange(0, n) =~= areas.subrange(0, n));
        lemma_owned_pages_prefix(areas.drop_last(), n);
    } else {
        assert(areas.subrange(0, n) =~= areas);
    }
}

impl MemorySet {
    /// Returns the frames of every region but the trampoline to `arena`.
    pub fn recycle(self, arena: &mut FrameArena)
        requires
            old(arena).wf(),
            self.wf(old(arena).nframes as nat),
        ensures
            final(arena).wf(),
            final(arena).nframes == old(arena).nframes,
            final(arena).bytes@ == old(arena).bytes@,
            final(arena).free@.len() == old(arena).free@.len() + owned_pages(self.view()),
    {
        let mut areas = self.areas;
        let ghost v0 = self.view();
        while areas.len() > 0
            invariant
                arena.wf(),
                arena.nframes == old(arena).nframes,
                arena.bytes@ == old(arena).bytes@,
                areas_wf(areas@.map_values(|a: MapArea| a@), arena.nframes as nat),
                areas@.map_values(|a: MapArea| a@) == v0.subrange(0, areas@.len() as int),
                areas@.len() <= v0.len(),
                arena.free@.len() + owned_pages(v0.subrange(0, areas@.len() as int))
                    == old(arena).free@.len() + owned_pages(v0),
            decreases areas@.len(),
        {
            let ghost n = areas@.len();
            let area = areas.pop().unwrap();
            let ghost pre = v0.subrange(0, n as int);
            assert(pre.drop_last() =~= v0.subrange(0, n - 1));
            assert(pre.last() == area@);
            assert(area_wf(area@, arena.nframes as nat));
            assert(areas@.map_values(|a: MapArea| a@) =~= v0.subrange(0, n - 1));
            if area.kind != AreaKind::Trampoline {
                let ghost f0 = arena.free@.len();
                let mut k: usize = 0;
                while k < area.frames.len()
                    invariant
                        arena.wf(),
                        arena.nframes == old(arena).nframes,
                        arena.bytes@ == old(arena).bytes@,
                        area_wf(area@, arena.nframes as nat),
                        area.kind != AreaKind::Trampoline,
                        k <= area.frames@.len(),
                        arena.free@.len() == f0 + k,
                    decreases area.frames@.len() - k,
                {
                    arena.dealloc_frame(area.frames[k]);
                    k = k + 1;
                }
            }
        }
        assert(v0.subrange(0, 0) =~= Seq::<AreaView>::empty());
    }

    /// A copy of `parent` for a new task: the same regions with fresh frames
    /// holding the same bytes, sharing only the trampoline's; `None`, with
    /// as many frames free as before, when too few frames are free.
    pub fn from_existed_user(parent: &MemorySet, arena: &mut FrameArena, token: usize) -> (r:
        Option<MemorySet>)
        requires
            old(arena).wf(),
            parent.wf(old(arena).nframes as nat),
        ensures
            final(arena).wf(),
            final(arena).nframes == old(arena).nframes,
            r is Some <==> old(arena).free@.len() >= owned_pages(parent.view()),
            r is None ==> final(arena).free@.len() == old(arena).free@.len(),
            r is Some ==> {
                let c = r->Some_0;
                &&& c.wf(final(arena).nframes as nat)
                &&& c.token == token
                &&& c.view().len() == parent.view().len()
                &&& forall|i: int|
                    0 <= i < c.view().len() ==> same_layout(#[trigger] c.view()[i], parent.view()[i])
                &&& forall|i: int|
                    0 <= i < parent.view().len() && parent.view()[i].kind == AreaKind::Trampoline
                        ==> #[trigger] c.view()[i].frames == parent.view()[i].frames
                &&& final(arena).free@.len() == old(arena).free@.len() - owned_pages(parent.view())
            },
    {
        let ghost pv = parent.view();
        let ghost free0 = arena.free@.len();
        let mut ms = MemorySet::new_bare(token);
        let mut i: usize = 0;
        while i < parent.areas.len()
            invariant
                arena.wf(),
                arena.nframes == old(arena).nframes,
                parent.wf(arena.nframes as nat),
                pv == parent.view(),
                free0 == old(arena).free@.len(),
                ms.wf(arena.nframes as nat),
                ms.token == token,
                i <= pv.len(),
                ms.view().len() == i,
                forall|k: int| 0 <= k < i ==> same_layout(#[trigger] ms.view()[k], pv[k]),
                forall|k: int|
                    0 <= k < i && pv[k].kind == AreaKind::Trampoline ==> #[trigger] ms.view()[k].frames
                        == pv[k].frames,
                arena.free@.len() + owned_pages(ms.view()) == free0,
                owned_pages(ms.view()) == owned_pages(pv.subrange(0, i as int)),
            decreases pv.len() - i,
        {
            let src = &parent.areas[i];
            assert(pv[i as int] == src@);
            assert(area_wf(src@, arena.nframes as nat));
            assert(!conflicts(ms.view(), src.start_vpn as int, src.end_vpn as int)) by {
                if conflicts(ms.view(), src.start_vpn as int, src.end_vpn as int) {
                    let k = choose|k: int| 0 <= k < ms.view().len() && overlaps(#[trigger] ms.view()[k], src.start_vpn as int, src.end_vpn as int);
                    assert(same_layout(ms.view()[k], pv[k]));
                    assert(!overlaps(pv[k], pv[i as int].start as int, pv[i as int].end as int));
                }
            }
            let ghost before = ms.view();
            proof {
                assert(pv.subrange(0, i + 1).drop_last() =~= pv.subrange(0, i as int));
            }
            if src.kind == AreaKind::Trampoline {
                let area = MapArea {
                    start_vpn: src.start_vpn,
                    end_vpn: src.end_vpn,
                    perm: src.perm,
                    kind: src.kind,
                    frames: src.frames.clone(),
                };
                assert(area.frames@ =~= src.frames@);
                ms.push(arena, area);
            } else {
                let n = src.end_vpn - src.start_vpn;
                if arena.available() < n {
                    proof {
                        lemma_owned_pages_prefix(pv, i + 1);
                    }
                    ms.recycle(arena);
                    return None;
                }
                let area = MapArea::new_framed(arena, src.start_vpn, src.end_vpn, src.perm, src.kind);
                let ghost free_mid = arena.free@;
                let mut k: usize = 0;
                while k < n
                    invariant
                        arena.wf(),
                        arena.nframes == old(arena).nframes,
                        arena.free@ == free_mid,
                        area_wf(area@, arena.nframes as nat),
                        area_wf(src@, arena.nframes as nat),
                        area.kind != AreaKind::Trampoline,
                        src.kind != AreaKind::Trampoline,
                        n == src.frames@.len(),
                        n == area.frames@.len(),
                        k <= n,
                    decreases n - k,
                {
                    let s = src.frames[k];
                    let d = area.frames[k];
                    if s != d {
                        arena.copy_frame(s, d);
                    }
                    k = k + 1;
                }
                ms.push(arena, area);
            }
            assert(ms.view().drop_last() =~= before);
            i = i + 1;
        }
        proof {
            assert(pv.subrange(0, i as int) =~= pv);
        }
        Some(ms)
    }
}


/// Adding a region that is not a heap keeps the heap region where it is.
pub proof fn lemma_heap_push(v: Seq<AreaView>, a: AreaView)
    requires
        has_one_heap(v),
        a.kind != AreaKind::Heap,
    ensures
        has_one_heap(v.push(a)),
        heap_index(v.push(a)) == heap_index(v),
        has_trap_page(v) ==> has_trap_page(v.push(a)),
        has_trampoline(v) ==> has_trampoline(v.push(a)),
{
    if has_trampoline(v) {
        let t = choose|i: int| 0 <= i < v.len() && is_trampoline(#[trigger] v[i]);
        assert(v.push(a)[t] == v[t]);
    }
    let w = v.push(a);
    let h = heap_index(v);
    assert(w[h].kind == AreaKind::Heap);
    assert forall|i: int, j: int|
        0 <= i < w.len() && 0 <= j < w.len() && (#[trigger] w[i]).kind == AreaKind::Heap && (
        #[trigger] w[j]).kind == AreaKind::Heap implies i == j by {
        assert(v[i].kind == AreaKind::Heap && v[j].kind == AreaKind::Heap);
    }
    let k = heap_index(w);
    assert(v[k].kind == AreaKind::Heap);
    if has_trap_page(v) {
        let t = choose|i: int|
            0 <= i < v.len() && (#[trigger] v[i]).kind == AreaKind::TrapContext && holds_page(
                v[i],
                (TRAP_CONTEXT_BASE / PAGE_SIZE) as int,
            );
        assert(w[t] == v[t]);
    }
}

/// Removing a region that is neither the heap nor the trap-context region
/// keeps the heap region and the trap-context page.
pub proof fn lemma_heap_remove(v: Seq<AreaView>, r: int)
    requires
        has_one_heap(v),
        0 <= r < v.len(),
        v[r].kind == AreaKind::Mmap,
    ensures
        has_one_heap(v.remove(r)),
        v.remove(r)[heap_index(v.remove(r))] == v[heap_index(v)],
        has_trap_page(v) ==> has_trap_page(v.remove(r)),
        has_trampoline(v) ==> has_trampoline(v.remove(r)),
{
    if has_trampoline(v) {
        let t = choose|i: int| 0 <= i < v.len() && is_trampoline(#[trigger] v[i]);
        let tw = if t < r { t } else { t - 1 };
        assert(v.remove(r)[tw] == v[t]);
    }
    let w = v.remove(r);
    let h = heap_index(v);
    let hw = if h < r { h } else { h - 1 };
    assert(w[hw] == v[h]);
    assert forall|i: int, j: int|
        0 <= i < w.len() && 0 <= j < w.len() && (#[trigger] w[i]).kind == AreaKind::Heap && (
        #[trigger] w[j]).kind == AreaKind::Heap implies i == j by {
        let i0 = if i < r { i } else { i + 1 };
        let j0 = if j < r { j } else { j + 1 };
        assert(w[i] == v[i0] && w[j] == v[j0]);
    }
    let k = heap_index(w);
    assert(w[k].kind == AreaKind::Heap);
    assert(k == hw);
    if has_trap_page(v) {
        let t = choose|i: int|
            0 <= i < v.len() && (#[trigger] v[i]).kind == AreaKind::TrapContext && holds_page(
                v[i],
                (TRAP_CONTEXT_BASE / PAGE_SIZE) as int,
            );
        let tw = if t < r { t } else { t - 1 };
        assert(w[tw] == v[t]);
    }
}

/// Region sequences of the same layout have their heap at the same place,
/// with the same pages, and both or neither hold the trap-context page.
pub proof fn lemma_heap_same_layout(a: Seq<AreaView>, b: Seq<AreaView>)
    requires
        has_one_heap(a),
        a.len() == b.len(),
        forall|i: int| 0 <= i < a.len() ==> same_layout(#[trigger] b[i], a[i]),
    ensures
        has_one_heap(b),
        heap_index(b) == heap_index(a),
        b[heap_index(b)].start == a[heap_index(a)].start,
        b[heap_index(b)].end == a[heap_index(a)].end,
        has_trap_page(a) ==> has_trap_page(b),
        has_trampoline(a) && (forall|i: int|
            0 <= i < a.len() && a[i].kind == AreaKind::Trampoline ==> #[trigger] b[i].frames
                == a[i].frames) ==> has_trampoline(b),
{
    if has_trampoline(a) && (forall|i: int|
        0 <= i < a.len() && a[i].kind == AreaKind::Trampoline ==> #[trigger] b[i].frames
            == a[i].frames) {
        let t = choose|i: int| 0 <= i < a.len() && is_trampoline(#[trigger] a[i]);
        assert(same_layout(b[t], a[t]));
        assert(b[t].frames == a[t].frames);
        assert(is_trampoline(b[t]));
    }
    let h = heap_index(a);
    assert(same_layout(b[h], a[h]));
    assert forall|i: int, j: int|
        0 <= i < b.len() && 0 <= j < b.len() && (#[trigger] b[i]).kind == AreaKind::Heap && (
        #[trigger] b[j]).kind == AreaKind::Heap implies i == j by {
        assert(same_layout(b[i], a[i]) && same_layout(b[j], a[j]));
    }
    let k = heap_index(b);
    assert(same_layout(b[k], a[k]));
    if has_trap_page(a) {
        let t = choose|i: int|
            0 <= i < a.len() && (#[trigger] a[i]).kind == AreaKind::TrapContext && holds_page(
                a[i],
                (TRAP_CONTEXT_BASE / PAGE_SIZE) as int,
            );
        assert(same_layout(b[t], a[t]));
    }
}


/// A user byte read through well-formed regions has one value.
pub proof fn lemma_user_byte_unique(
    v: Seq<AreaView>,
    mem: Seq<u8>,
    va: int,
    b1: u8,
    b2: u8,
    nframes: nat,
)
    requires
        areas_wf(v, nframes),
        user_byte_is(v, mem, va, b1),
        user_byte_is(v, mem, va, b2),
    ensures
        b1 == b2,
{
    let vpn = vpn_of(va);
    let p1 = choose|ppn: usize|
        maps_to(v, vpn, ppn) && #[trigger] mem[phys_addr(ppn as int, va % (PAGE_SIZE as int))] == b1;
    let p2 = choose|ppn: usize|
        maps_to(v, vpn, ppn) && #[trigger] mem[phys_addr(ppn as int, va % (PAGE_SIZE as int))] == b2;
    let i1 = choose|i: int|
        0 <= i < v.len() && holds_page(#[trigger] v[i], vpn) && v[i].frames[vpn - v[i].start] == p1;
    let i2 = choose|i: int|
        0 <= i < v.len() && holds_page(#[trigger] v[i], vpn) && v[i].frames[vpn - v[i].start] == p2;
    if i1 != i2 {
        assert(!overlaps(v[i1], v[i2].start as int, v[i2].end as int));
    }
}

/// A user byte that holds a value lies in a mapped page below `MAX_VPN`.
pub proof fn lemma_user_byte_mapped(v: Seq<AreaView>, mem: Seq<u8>, va: int, b: u8, nframes: nat)
    requires
        areas_wf(v, nframes),
        user_byte_is(v, mem, va, b),
    ensures
        is_mapped(v, vpn_of(va)),
        vpn_of(va) < MAX_VPN,
{
    let p = choose|ppn: usize|
        maps_to(v, vpn_of(va), ppn) && #[trigger] mem[phys_addr(ppn as int, va % (PAGE_SIZE as int))] == b;
    let i = choose|i: int|
        0 <= i < v.len() && holds_page(#[trigger] v[i], vpn_of(va)) && v[i].frames[vpn_of(va) - v[i].start] == p;
    assert(area_wf(v[i], nframes));
}

} // verus!
