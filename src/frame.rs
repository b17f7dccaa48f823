//! Physical memory as an arena of page frames referenced by page number.
use vstd::prelude::*;
use crate::config::{PAGE_SIZE, TRAMPOLINE_PPN};

verus! {

/// Physical memory and the frames that are not in use.
///
/// Frame `TRAMPOLINE_PPN` holds the trampoline code and is never handed out.
pub struct FrameArena {
    /// Every byte of physical memory; frame `p` is the page starting at
    /// `p * PAGE_SIZE`.
    pub bytes: Vec<u8>,
    /// Number of frames.
    pub nframes: usize,
    /// Frames that can be handed out.
    pub free: Vec<usize>,
}

/// Byte address of offset `off` in frame `ppn`.
pub open spec fn phys_addr(ppn: int, off: int) -> int {
    ppn * PAGE_SIZE + off
}

impl FrameArena {
    /// Whether every free frame is a real frame other than the trampoline's.
    pub open spec fn wf(&self) -> bool {
        &&& self.bytes@.len() == self.nframes * PAGE_SIZE
        &&& TRAMPOLINE_PPN < self.nframes
        &&& forall|i: int|
            0 <= i < self.free@.len() ==> TRAMPOLINE_PPN < #[trigger] self.free@[i] < self.nframes
    }

    /// A memory of `nframes` zeroed frames, all free but the trampoline's.
    pub fn new(nframes: usize) -> (r: FrameArena)
        requires
            1 <= nframes <= 0x4_0000,
        ensures
            r.wf(),
            r.nframes == nframes,
            r.free@.len() == nframes - 1,
            forall|i: int| 0 <= i < r.bytes@.len() ==> r.bytes@[i] == 0u8,
    {
        let total: usize = nframes * PAGE_SIZE;
        let mut bytes: Vec<u8> = Vec::new();
        let mut i: usize = 0;
        while i < total
            invariant
                i <= total,
                bytes@.len() == i,
                forall|j: int| 0 <= j < i ==> bytes@[j] == 0u8,
            decreases total - i,
        {
            bytes.push(0u8);
            i = i + 1;
        }
        let mut free: Vec<usize> = Vec::new();
        let mut p: usize = nframes;
        while p > 1
            invariant
                1 <= p <= nframes,
                free@.len() == nframes - p,
                forall|j: int| 0 <= j < free@.len() ==> TRAMPOLINE_PPN < #[trigger] free@[j] < nframes,
            decreases p,
        {
            p = p - 1;
            free.push(p);
        }
        FrameArena { bytes, nframes, free }
    }

    /// Number of frames that can still be handed out.
    pub fn available(&self) -> (r: usize)
        ensures
            r == self.free@.len(),
    {
        self.free.len()
    }

    /// Takes one free frame and fills it with zeros.
    pub fn alloc_frame(&mut self) -> (r: usize)
        requires
            old(self).wf(),
            old(self).free@.len() > 0,
        ensures
            final(self).wf(),
            final(self).nframes == old(self).nframes,
            final(self).free@ == old(self).free@.drop_last(),
            r == old(self).free@.last(),
            TRAMPOLINE_PPN < r < final(self).nframes,
            forall|a: int|
                0 <= a < final(self).bytes@.len() ==> #[trigger] final(self).bytes@[a] == if r
                    * PAGE_SIZE <= a < r * PAGE_SIZE + PAGE_SIZE {
                    0u8
                } else {
                    old(self).bytes@[a]
                },
    {
        let ppn = self.free.pop().unwrap();
        self.zero_frame(ppn);
        ppn
    }

    /// Fills frame `ppn` with zeros.
    fn zero_frame(&mut self, ppn: usize)
        requires
            old(self).wf(),
            ppn < old(self).nframes,
        ensures
            final(self).wf(),
            final(self).nframes == old(self).nframes,
            final(self).free@ == old(self).free@,
            forall|a: int|
                0 <= a < final(self).bytes@.len() ==> #[trigger] final(self).bytes@[a] == if ppn
                    * PAGE_SIZE <= a < ppn * PAGE_SIZE + PAGE_SIZE {
                    0u8
                } else {
                    old(self).bytes@[a]
                },
    {
        let total: usize = self.bytes.len();
        proof {
            assert(ppn * PAGE_SIZE + PAGE_SIZE <= self.nframes * PAGE_SIZE) by (nonlinear_arith)
                requires ppn < self.nframes;
        }
        let base: usize = ppn * PAGE_SIZE;
        let mut i: usize = 0;
        while i < PAGE_SIZE
            invariant
                self.wf(),
                self.nframes == old(self).nframes,
                self.free@ == old(self).free@,
                base == ppn * PAGE_SIZE,
                base + PAGE_SIZE <= self.bytes@.len(),
                i <= PAGE_SIZE,
                forall|a: int|
                    0 <= a < self.bytes@.len() ==> #[trigger] self.bytes@[a] == if base <= a < base
                        + i {
                        0u8
                    } else {
                        old(self).bytes@[a]
                    },
            decreases PAGE_SIZE - i,
        {
            self.bytes.set(base + i, 0u8);
            i = i + 1;
        }
    }

    /// Returns frame `ppn` to the free frames.
    pub fn dealloc_frame(&mut self, ppn: usize)
        requires
            old(self).wf(),
            TRAMPOLINE_PPN < ppn < old(self).nframes,
        ensures
            final(self).wf(),
            final(self).nframes == old(self).nframes,
            final(self).bytes@ == old(self).bytes@,
            final(self).free@ == old(self).free@.push(ppn),
    {
        self.free.push(ppn);
    }

    /// Byte at physical address `pa`.
    pub fn read(&self, pa: usize) -> (r: u8)
        requires
            pa < self.bytes@.len(),
        ensures
            r == self.bytes@[pa as int],
    {
        self.bytes[pa]
    }

    /// Stores `b` at physical address `pa`.
    pub fn write(&mut self, pa: usize, b: u8)
        requires
            old(self).wf(),
            pa < old(self).bytes@.len(),
        ensures
            final(self).wf(),
            final(self).nframes == old(self).nframes,
            final(self).free@ == old(self).free@,
            final(self).bytes@ == old(self).bytes@.update(pa as int, b),
    {
        self.bytes.set(pa, b);
    }

    /// Copies the contents of frame `src` into frame `dst`.
    pub fn copy_frame(&mut self, src: usize, dst: usize)
        requires
            old(self).wf(),
            src < old(self).nframes,
            dst < old(self).nframes,
            src != dst,
        ensures
            final(self).wf(),
            final(self).nframes == old(self).nframes,
            final(self).free@ == old(self).free@,
            forall|a: int|
                0 <= a < final(self).bytes@.len() ==> #[trigger] final(self).bytes@[a] == if dst
                    * PAGE_SIZE <= a < dst * PAGE_SIZE + PAGE_SIZE {
                    old(self).bytes@[a - dst * PAGE_SIZE + src * PAGE_SIZE]
                } else {
                    old(self).bytes@[a]
                },
    {
        let total: usize = self.bytes.len();
        proof {
            assert(dst * PAGE_SIZE + PAGE_SIZE <= self.nframes * PAGE_SIZE) by (nonlinear_arith)
                requires dst < self.nframes;
            assert(src * PAGE_SIZE + PAGE_SIZE <= self.nframes * PAGE_SIZE) by (nonlinear_arith)
                requires src < self.nframes;
        }
        let sbase: usize = src * PAGE_SIZE;
        let dbase: usize = dst * PAGE_SIZE;
        assert(sbase + PAGE_SIZE <= dbase || dbase + PAGE_SIZE <= sbase) by (nonlinear_arith)
            requires sbase == src * PAGE_SIZE, dbase == dst * PAGE_SIZE, src != dst;
        let mut i: usize = 0;
        while i < PAGE_SIZE
            invariant
                self.wf(),
                self.nframes == old(self).nframes,
                self.free@ == old(self).free@,
                sbase == src * PAGE_SIZE,
                dbase == dst * PAGE_SIZE,
                sbase + PAGE_SIZE <= dbase || dbase + PAGE_SIZE <= sbase,
                sbase + PAGE_SIZE <= self.bytes@.len(),
                dbase + PAGE_SIZE <= self.bytes@.len(),
                i <= PAGE_SIZE,
                forall|a: int|
                    0 <= a < self.bytes@.len() ==> #[trigger] self.bytes@[a] == if dbase <= a < dbase
                        + i {
                        old(self).bytes@[a - dbase + sbase]
                    } else {
                        old(self).bytes@[a]
                    },
            decreases PAGE_SIZE - i,
        {
            let b = self.bytes[sbase + i];
            self.bytes.set(dbase + i, b);
            i = i + 1;
        }
    }
}

} // verus!
