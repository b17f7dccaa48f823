//! Task control blocks: one task's registers, address space, heap and
//! counters.
use vstd::prelude::*;
use crate::addr::{aligned, area_range, ceil, is_aligned, vpn_ceil, vpn_of};
use crate::config::{
    KERNEL_STACK_SIZE, KERNEL_TOKEN, MAX_SYSCALL_NUM, MAXVA, PAGE_SIZE, TRAMPOLINE,
    TRAP_CONTEXT_BASE, TRAP_HANDLER_ADDR, DEFAULT_PRIORITY,
};
use crate::context::{TaskContext, TrapContext};
use crate::frame::FrameArena;
use crate::memory_set::{
    AreaKind, AreaView, MapArea, MemorySet, ProgramImage, conflicts, first_mmap_of, has_mmap_of,
    has_one_heap, heap_index, has_trap_page, has_trampoline, is_trampoline, lemma_heap_push, lemma_heap_remove, lemma_heap_same_layout, heap_bottom_of, is_mmap_of, overlaps, holds_page, same_layout, space_pages,
    owned_pages,
};
use crate::perm::{MapPermission, port_perm, valid_port};

verus! {

/// Number of kernel-stack slots; a task's slot is its pid.
pub const MAX_TASKS: usize = 4096;

/// Where a task is in its life.
#[derive(Clone, Copy, Debug, PartialEq, Eq, Structural)]
pub enum TaskStatus {
    /// Not yet set up.
    UnInit,
    /// Waiting to be scheduled.
    Ready,
    /// On the processor.
    Running,
    /// Finished, waiting to be reaped by its parent.
    Exited,
}

/// Per-task counters: calls of each system call, and when the task first ran.
#[derive(Debug)]
pub struct TaskControlInfo {
    pub syscall_times: Vec<u32>,
    pub time: Option<usize>,
}

/// What a task reports about itself.
pub struct TaskInfo {
    /// Where the task is in its life.
    pub status: TaskStatus,
    /// Calls of each system call.
    pub syscall_times: Vec<u32>,
    /// Milliseconds since the task first ran.
    pub time: usize,
}

/// A time as seconds and microseconds.
#[derive(Clone, Copy, Debug, PartialEq, Eq, Structural)]
pub struct TimeVal {
    pub sec: usize,
    pub usec: usize,
}

impl Default for TaskControlInfo {
    fn default() -> (r: TaskControlInfo)
        ensures
            r.syscall_times@ == Seq::new(MAX_SYSCALL_NUM as nat, |i: int| 0u32),
            r.time is None,
    {
        let mut syscall_times: Vec<u32> = Vec::new();
        let mut i: usize = 0;
        while i < MAX_SYSCALL_NUM
            invariant
                i <= MAX_SYSCALL_NUM,
                syscall_times@ == Seq::new(i as nat, |j: int| 0u32),
            decreases MAX_SYSCALL_NUM - i,
        {
            syscall_times.push(0u32);
            i = i + 1;
            assert(syscall_times@ =~= Seq::new(i as nat, |j: int| 0u32));
        }
        TaskControlInfo { syscall_times, time: None }
    }
}

impl TaskControlInfo {
    /// Counts one more call of system call `syscall_id`; a count stays at
    /// `u32::MAX` once there.
    pub fn incr_syscall_times(&mut self, syscall_id: usize)
        requires
            syscall_id < old(self).syscall_times@.len(),
        ensures
            final(self).time == old(self).time,
            final(self).syscall_times@ == old(self).syscall_times@.update(
                syscall_id as int,
                if old(self).syscall_times@[syscall_id as int] < u32::MAX {
                    (old(self).syscall_times@[syscall_id as int] + 1) as u32
                } else {
                    u32::MAX
                },
            ),
    {
        let c = self.syscall_times[syscall_id];
        let n = if c < u32::MAX { c + 1 } else { u32::MAX };
        self.syscall_times.set(syscall_id, n);
    }

    /// Records `now_ms` as the first time the task ran, unless one is
    /// recorded already.
    pub fn try_set_first_run_times(&mut self, now_ms: usize)
        ensures
            final(self).syscall_times@ == old(self).syscall_times@,
            final(self).time == if old(self).time is None {
                Some(now_ms)
            } else {
                old(self).time
            },
    {
        if self.time.is_none() {
            self.time = Some(now_ms);
        }
    }
}

/// Constant that a pass step divides.
pub const BIG_STRIDE: u64 = 0x10_0000;

/// How far a task of priority `priority` moves its pass each time it runs.
pub open spec fn stride_step(priority: usize) -> u64 {
    if priority == 0 {
        BIG_STRIDE
    } else {
        (BIG_STRIDE / priority as u64) as u64
    }
}

/// How far a task of priority `priority` moves its pass each time it runs.
pub fn pass_step(priority: usize) -> (r: u64)
    ensures
        r == stride_step(priority),
{
    if priority == 0 {
        BIG_STRIDE
    } else {
        BIG_STRIDE / priority as u64
    }
}

/// A task of higher priority moves its pass no further each time it runs
/// than one of lower priority, so under equal readiness it is picked no less
/// often.
pub proof fn lemma_priority_step(hi: usize, lo: usize)
    requires
        0 < lo <= hi,
    ensures
        stride_step(hi) <= stride_step(lo),
{
    assert(BIG_STRIDE / hi as u64 <= BIG_STRIDE / lo as u64) by (nonlinear_arith)
        requires 0 < lo as u64 <= hi as u64;
}

/// Milliseconds a task has run at `now_ms` when it first ran at `first`: zero
/// if it never ran, or if the clock reads earlier than its first run.
pub open spec fn elapsed_ms(first: Option<usize>, now_ms: usize) -> usize {
    match first {
        None => 0,
        Some(t) => if now_ms >= t {
            (now_ms - t) as usize
        } else {
            0
        },
    }
}

/// The range `(bottom, top)` of the kernel stack of slot `slot`: stacks sit
/// below the trampoline, each with a guard page under it.
pub open spec fn kernel_stack_of(slot: int) -> (int, int) {
    let top = TRAMPOLINE - slot * (KERNEL_STACK_SIZE + PAGE_SIZE);
    (top - KERNEL_STACK_SIZE, top)
}

/// Position `(bottom, top)` of the kernel stack of slot `slot`.
pub fn kernel_stack_position(slot: usize) -> (r: (usize, usize))
    requires
        slot < MAX_TASKS,
    ensures
        r.0 == kernel_stack_of(slot as int).0,
        r.1 == kernel_stack_of(slot as int).1,
{
    assert(slot * (KERNEL_STACK_SIZE + PAGE_SIZE) <= 4096 * 0x3000) by (nonlinear_arith)
        requires slot < 4096, KERNEL_STACK_SIZE + PAGE_SIZE == 0x3000;
    let top = TRAMPOLINE - slot * (KERNEL_STACK_SIZE + PAGE_SIZE);
    (top - KERNEL_STACK_SIZE, top)
}

/// Kernel stacks of distinct slots share no byte.
pub proof fn lemma_kernel_stacks_disjoint(a: int, b: int)
    requires
        0 <= a < b < MAX_TASKS,
    ensures
        kernel_stack_of(b).1 <= kernel_stack_of(a).0,
{
}

/// The heap region of `ms`.
pub open spec fn heap_of(ms: &MemorySet) -> AreaView {
    ms.view()[heap_index(ms.view())]
}

/// Whether `size` moves the program break of `t` to an acceptable place with
/// `avail` frames free: not below the heap bottom, not past the user space,
/// and, when it grows, onto pages no other region holds and that free frames
/// can back.
pub open spec fn brk_ok(t: &TaskControlBlock, avail: nat, size: int) -> bool {
    let nb = t.program_brk + size;
    let h = heap_of(&t.memory_set);
    &&& t.heap_bottom <= nb <= MAXVA
    &&& size >= 0 ==> !conflicts(t.memory_set.view(), h.end as int, vpn_ceil(nb)) && avail
        >= vpn_ceil(nb) - h.end
}

/// Whether `after` is `before` with its heap region cut down to end at page
/// `end`.
pub open spec fn shrunk_heap(before: Seq<AreaView>, after: Seq<AreaView>, end: int) -> bool {
    let h = heap_index(before);
    after == before.update(
        h,
        AreaView {
            end: end as nat,
            frames: before[h].frames.subrange(0, end - before[h].start),
            ..before[h]
        },
    )
}

/// Whether `after` is `before` with its heap region grown to end at page
/// `end`, the other regions unchanged.
pub open spec fn grown_heap(before: Seq<AreaView>, after: Seq<AreaView>, end: int) -> bool {
    let h = heap_index(before);
    after == before.update(
        h,
        AreaView { end: end as nat, frames: after[h].frames, ..before[h] },
    )
}

/// The page range `[vpn_of(start), vpn_ceil(start + len))` of a request.
pub open spec fn request_pages(start: int, len: int) -> (int, int) {
    (vpn_of(start), vpn_ceil(start + len))
}

/// Whether mapping `len` bytes at `start` with rights `port` in `t` with
/// `avail` frames free is accepted: `start` on a page boundary, the range
/// inside user space, a valid `port`, pages held by no region, and enough
/// free frames to back them.
pub open spec fn mmap_ok(t: &TaskControlBlock, avail: nat, start: int, len: int, port: int) -> bool {
    let (s, e) = request_pages(start, len);
    &&& is_aligned(start)
    &&& start + len <= MAXVA
    &&& valid_port(port)
    &&& !conflicts(t.memory_set.view(), s, e)
    &&& avail >= e - s
}

/// Whether `frames` were taken from the end of the free list `before`,
/// leaving `after`.
pub open spec fn fresh_frames(before: Seq<usize>, after: Seq<usize>, frames: Seq<usize>) -> bool {
    &&& frames.len() <= before.len()
    &&& after == before.subrange(0, before.len() - frames.len())
    &&& forall|k: int|
        0 <= k < frames.len() ==> #[trigger] frames[k] == before[before.len() - 1 - k]
}

/// The region that an accepted mapping request adds, backed by `frames`.
pub open spec fn mmap_area(start: int, len: int, port: int, frames: Seq<usize>) -> AreaView {
    AreaView {
        start: vpn_of(start) as nat,
        end: vpn_ceil(start + len) as nat,
        perm: port_perm(port),
        kind: AreaKind::Mmap,
        frames,
    }
}

/// The control block of one task.
pub struct TaskControlBlock {
    /// Process identifier, also the task's kernel-stack slot.
    pub pid: usize,
    /// Pid of the parent, if any; a relation, not ownership.
    pub parent: Option<usize>,
    /// Pids of the children not yet reaped, in order of creation.
    pub children: Vec<usize>,
    /// Scheduling weight: the larger, the more often the task runs.
    pub priority: usize,
    /// Stride-scheduling pass: grows by `stride_step(priority)` each time the
    /// task is scheduled; the ready task with the smallest pass runs next.
    pub pass: u64,
    /// Exit code, meaningful once the task has exited.
    pub exit_code: i32,
    /// Top of the task's kernel stack.
    pub kernel_stack_top: usize,
    /// Saved kernel-mode registers.
    pub task_cx: TaskContext,
    /// Where the task is in its life.
    pub task_status: TaskStatus,
    /// The task's address space.
    pub memory_set: MemorySet,
    /// Saved user-mode registers.
    pub trap_cx: TrapContext,
    /// Frame holding the trap context page.
    pub trap_cx_ppn: usize,
    /// Top of the loaded program image.
    pub base_size: usize,
    /// Heap bottom.
    pub heap_bottom: usize,
    /// Program break.
    pub program_brk: usize,
    /// Counters.
    pub task_info: TaskControlInfo,
}

impl TaskControlBlock {
    /// Whether the address space is well-formed over `nframes` frames, holds
    /// the trap-context page and one heap region spanning exactly from the
    /// heap bottom up to the program break, and the counters and registers
    /// have their fixed sizes.
    pub open spec fn wf(&self, nframes: nat) -> bool {
        &&& self.memory_set.wf(nframes)
        &&& has_one_heap(self.memory_set.view())
        &&& has_trap_page(self.memory_set.view())
        &&& has_trampoline(self.memory_set.view())
        &&& heap_of(&self.memory_set).start == self.heap_bottom / PAGE_SIZE
        &&& heap_of(&self.memory_set).end == vpn_ceil(self.program_brk as int)
        &&& self.heap_bottom % PAGE_SIZE == 0
        &&& self.heap_bottom <= self.program_brk <= MAXVA
        &&& self.trap_cx.x@.len() == 32
        &&& self.task_info.syscall_times@.len() == MAX_SYSCALL_NUM
    }

    /// The saved user-mode registers.
    pub fn get_trap_cx(&self) -> (r: &TrapContext)
        ensures
            r == &self.trap_cx,
    {
        &self.trap_cx
    }

    /// The token of the task's address space.
    pub fn get_user_token(&self) -> (r: usize)
        ensures
            r == self.memory_set.token,
    {
        self.memory_set.token()
    }

    /// The task's pid.
    pub fn getpid(&self) -> (r: usize)
        ensures
            r == self.pid,
    {
        self.pid
    }

    /// Whether the task has exited and waits to be reaped.
    pub fn is_zombie(&self) -> (r: bool)
        ensures
            r == (self.task_status == TaskStatus::Exited),
    {
        self.task_status == TaskStatus::Exited
    }

    /// Builds a task from a program image in a fresh address space named by
    /// `token`, with kernel-stack slot `pid`, ready to enter user mode at the
    /// image's entry point.
    pub fn new(arena: &mut FrameArena, image: &ProgramImage, pid: usize, token: usize) -> (r:
        TaskControlBlock)
        requires
            old(arena).wf(),
            image.wf(),
            old(arena).free@.len() >= space_pages(image.segments@),
            pid < MAX_TASKS,
        ensures
            final(arena).wf(),
            final(arena).nframes == old(arena).nframes,
            final(arena).free@.len() == old(arena).free@.len() - space_pages(image.segments@),
            r.wf(final(arena).nframes as nat),
            r.pid == pid,
            r.parent is None,
            r.children@.len() == 0,
            r.task_status == TaskStatus::Ready,
            r.priority == DEFAULT_PRIORITY,
            r.memory_set.token == token,
            r.heap_bottom == heap_bottom_of(image.segments@),
            r.program_brk == r.heap_bottom,
            r.kernel_stack_top == kernel_stack_of(pid as int).1,
            r.task_cx.ra == crate::config::TRAP_RETURN_ADDR,
            r.task_cx.sp == r.kernel_stack_top,
            r.trap_cx.sepc == image.entry,
            r.trap_cx.x@[2] == crate::config::USER_STACK_TOP,
            forall|i: int| 0 <= i < 32 && i != 2 ==> r.trap_cx.x@[i] == 0,
            r.trap_cx.kernel_sp == r.kernel_stack_top,
            r.trap_cx.kernel_satp == KERNEL_TOKEN,
            r.trap_cx.trap_handler == TRAP_HANDLER_ADDR,
            forall|i: int| 0 <= i < 12 ==> r.task_cx.s@[i] == 0,
            crate::memory_set::maps_to(
                r.memory_set.view(),
                (TRAP_CONTEXT_BASE / PAGE_SIZE) as int,
                r.trap_cx_ppn,
            ),
            r.task_info.time is None,
            r.task_info.syscall_times@ == Seq::new(MAX_SYSCALL_NUM as nat, |i: int| 0u32),
            r.pass == 0,
    {
        let (memory_set, user_sp, heap_bottom, entry_point) = MemorySet::from_elf(arena, image, token);
        let trap_cx_ppn = memory_set.translate(TRAP_CONTEXT_BASE / PAGE_SIZE).unwrap();
        let (_kernel_stack_bottom, kernel_stack_top) = kernel_stack_position(pid);
        let trap_cx = TrapContext::app_init_context(
            entry_point,
            user_sp,
            KERNEL_TOKEN,
            kernel_stack_top,
            TRAP_HANDLER_ADDR,
        );
        TaskControlBlock {
            pid,
            parent: None,
            children: Vec::new(),
            priority: DEFAULT_PRIORITY,
            pass: 0,
            exit_code: 0,
            kernel_stack_top,
            task_cx: TaskContext::goto_trap_return(kernel_stack_top),
            task_status: TaskStatus::Ready,
            memory_set,
            trap_cx,
            trap_cx_ppn,
            base_size: heap_bottom,
            heap_bottom,
            program_brk: heap_bottom,
            task_info: TaskControlInfo::default(),
        }
    }

    /// Moves the program break by `size` bytes, growing or shrinking the heap
    /// region to match, and returns the old break; `None`, with nothing
    /// changed, when the move is refused (see `brk_ok`).
    pub fn change_program_brk(&mut self, arena: &mut FrameArena, size: i32) -> (r: Option<usize>)
        requires
            old(arena).wf(),
            old(self).wf(old(arena).nframes as nat),
        ensures
            final(arena).wf(),
            final(arena).nframes == old(arena).nframes,
            final(self).wf(final(arena).nframes as nat),
            final(self).heap_bottom == old(self).heap_bottom,
            final(self).pid == old(self).pid,
            final(self).children@ == old(self).children@,
            final(self).task_status == old(self).task_status,
            final(self).exit_code == old(self).exit_code,
            final(self).parent == old(self).parent,
            r is Some <==> brk_ok(old(self), old(arena).free@.len(), size as int),
            r is Some ==> r->Some_0 == old(self).program_brk && final(self).program_brk
                == old(self).program_brk + size,
            r is None ==> final(self).program_brk == old(self).program_brk
                && final(self).memory_set.view() == old(self).memory_set.view()
                && final(arena).free@ == old(arena).free@,
            r is Some && size < 0 ==> shrunk_heap(
                old(self).memory_set.view(),
                final(self).memory_set.view(),
                vpn_ceil(final(self).program_brk as int),
            ) && final(arena).free@.len() == old(arena).free@.len() + (heap_of(
                &old(self).memory_set,
            ).end - vpn_ceil(final(self).program_brk as int)),
            r is Some && size >= 0 ==> grown_heap(
                old(self).memory_set.view(),
                final(self).memory_set.view(),
                vpn_ceil(final(self).program_brk as int),
            ) && final(arena).free@.len() == old(arena).free@.len() - (vpn_ceil(
                final(self).program_brk as int,
            ) - heap_of(&old(self).memory_set).end),
            final(self).memory_set.token == old(self).memory_set.token,
    {
        let old_break = self.program_brk;
        let new_brk: i64 = self.program_brk as i64 + size as i64;
        if new_brk < self.heap_bottom as i64 || new_brk > MAXVA as i64 {
            return None;
        }
        let nb = new_brk as usize;
        let new_end = ceil(nb);
        proof {
            if size < 0 {
                lemma_ceil_monotone(nb as int, self.program_brk as int);
            } else {
                lemma_ceil_monotone(self.program_brk as int, nb as int);
            }
        }
        let ghost v0 = self.memory_set.view();
        if size < 0 {
            self.memory_set.shrink_to(arena, new_end);
        } else {
            if !self.memory_set.append_to(arena, new_end) {
                return None;
            }
        }
        self.program_brk = nb;
        proof {
            let t = choose|i: int|
                0 <= i < v0.len() && (#[trigger] v0[i]).kind == AreaKind::TrapContext && holds_page(
                    v0[i],
                    (TRAP_CONTEXT_BASE / PAGE_SIZE) as int,
                );
            assert(self.memory_set.view()[t] == v0[t]);
            let tr = choose|i: int| 0 <= i < v0.len() && is_trampoline(#[trigger] v0[i]);
            assert(self.memory_set.view()[tr] == v0[tr]);
        }
        Some(old_break)
    }

    /// Maps `len` bytes at `start` with the rights that `port` asks for,
    /// backed by fresh zeroed frames: 0 when the request is accepted (see
    /// `mmap_ok`), -1 with nothing changed otherwise.
    pub fn mmap(&mut self, arena: &mut FrameArena, start: usize, len: usize, port: usize) -> (r: isize)
        requires
            old(arena).wf(),
            old(self).wf(old(arena).nframes as nat),
        ensures
            final(arena).wf(),
            final(arena).nframes == old(arena).nframes,
            final(self).wf(final(arena).nframes as nat),
            final(self).heap_bottom == old(self).heap_bottom,
            final(self).program_brk == old(self).program_brk,
            final(self).pid == old(self).pid,
            final(self).children@ == old(self).children@,
            final(self).task_status == old(self).task_status,
            final(self).exit_code == old(self).exit_code,
            final(self).parent == old(self).parent,
            r == 0 || r == -1,
            r == 0 <==> mmap_ok(old(self), old(arena).free@.len(), start as int, len as int, port as int),
            r == 0 ==> final(self).memory_set.view() == old(self).memory_set.view().push(
                mmap_area(
                    start as int,
                    len as int,
                    port as int,
                    final(self).memory_set.view().last().frames,
                ),
            ),
            r == -1 ==> final(self).memory_set.view() == old(self).memory_set.view()
                && final(arena).free@ == old(arena).free@,
            r == 0 ==> fresh_frames(
                old(arena).free@,
                final(arena).free@,
                final(self).memory_set.view().last().frames,
            ),
    {
        if !aligned(start) || start > MAXVA || len > MAXVA - start {
            return -1;
        }
        match MapPermission::convert_for_user(port) {
            None => -1,
            Some(perm) => {
                let (s, e) = area_range(start, len);
                if self.memory_set.map_area_conflict(s, e) || arena.available() < e - s {
                    return -1;
                }
                let area = MapArea::new_for_mmap(arena, s, e, perm);
                let ghost a = area@;
                proof {
                    lemma_heap_push(self.memory_set.view(), a);
                }
                self.memory_set.push(arena, area);
                0
            },
        }
    }

    /// Removes the region mapped on request at exactly the pages that cover
    /// `len` bytes at `start`, freeing its frames: 0 when there is one, -1
    /// with nothing changed otherwise.
    pub fn unmmap(&mut self, arena: &mut FrameArena, start: usize, len: usize) -> (r: isize)
        requires
            old(arena).wf(),
            old(self).wf(old(arena).nframes as nat),
        ensures
            final(arena).wf(),
            final(arena).nframes == old(arena).nframes,
            final(self).wf(final(arena).nframes as nat),
            final(self).heap_bottom == old(self).heap_bottom,
            final(self).program_brk == old(self).program_brk,
            final(self).pid == old(self).pid,
            final(self).children@ == old(self).children@,
            final(self).task_status == old(self).task_status,
            final(self).exit_code == old(self).exit_code,
            final(self).parent == old(self).parent,
            r == 0 || r == -1,
            r == 0 <==> start + len <= MAXVA && has_mmap_of(
                old(self).memory_set.view(),
                request_pages(start as int, len as int).0,
                request_pages(start as int, len as int).1,
            ),
            r == 0 ==> exists|i: int|
                first_mmap_of(
                    old(self).memory_set.view(),
                    request_pages(start as int, len as int).0,
                    request_pages(start as int, len as int).1,
                    i,
                ) && final(self).memory_set.view() == old(self).memory_set.view().remove(i),
            r == -1 ==> final(self).memory_set.view() == old(self).memory_set.view()
                && final(arena).free@ == old(arena).free@,
    {
        if start > MAXVA || len > MAXVA - start {
            return -1;
        }
        let (s, e) = area_range(start, len);
        let ghost v0 = self.memory_set.view();
        if self.memory_set.unpush(arena, s, e) {
            proof {
                let i = choose|i: int|
                    first_mmap_of(v0, s as int, e as int, i) && self.memory_set.view() == v0.remove(i);
                lemma_heap_remove(v0, i);
            }
            0
        } else {
            -1
        }
    }

    /// What the task reports about itself at time `now_ms`.
    pub fn get_task_info(&self, now_ms: usize) -> (r: TaskInfo)
        ensures
            r.status == self.task_status,
            r.syscall_times@ == self.task_info.syscall_times@,
            r.time == elapsed_ms(self.task_info.time, now_ms),
    {
        let time = match self.task_info.time {
            None => 0,
            Some(t) => if now_ms >= t {
                now_ms - t
            } else {
                0
            },
        };
        TaskInfo { status: self.task_status, syscall_times: self.task_info.syscall_times.clone(), time }
    }

    /// Makes a child holding a duplicate of the address space (fresh frames,
    /// same bytes), registers, heap and program break, kernel-stack slot
    /// `child_pid`, and an address space named by `token`; `None`, with as many
    /// frames free as before, when too few frames are free.
    pub fn fork(&self, arena: &mut FrameArena, child_pid: usize, token: usize) -> (r: Option<
        TaskControlBlock,
    >)
        requires
            old(arena).wf(),
            self.wf(old(arena).nframes as nat),
            child_pid < MAX_TASKS,
        ensures
            final(arena).wf(),
            final(arena).nframes == old(arena).nframes,
            r is Some <==> old(arena).free@.len() >= owned_pages(self.memory_set.view()),
            r is None ==> final(arena).free@.len() == old(arena).free@.len(),
            r is Some ==> {
                let c = r->Some_0;
                &&& c.wf(final(arena).nframes as nat)
                &&& c.pid == child_pid
                &&& c.parent == Some(self.pid)
                &&& c.children@.len() == 0
                &&& c.task_status == TaskStatus::Ready
                &&& c.priority == self.priority
                &&& c.memory_set.token == token
                &&& c.memory_set.view().len() == self.memory_set.view().len()
                &&& forall|i: int|
                    0 <= i < c.memory_set.view().len() ==> same_layout(
                        #[trigger] c.memory_set.view()[i],
                        self.memory_set.view()[i],
                    )
                &&& c.heap_bottom == self.heap_bottom
                &&& c.program_brk == self.program_brk
                &&& c.trap_cx.x@ == self.trap_cx.x@
                &&& c.trap_cx.sepc == self.trap_cx.sepc
                &&& c.trap_cx.kernel_sp == c.kernel_stack_top
                &&& c.kernel_stack_top == kernel_stack_of(child_pid as int).1
                &&& c.task_cx.ra == crate::config::TRAP_RETURN_ADDR
                &&& c.task_cx.sp == c.kernel_stack_top
            },
    {
        let memory_set = match MemorySet::from_existed_user(&self.memory_set, arena, token) {
            None => {
                return None;
            },
            Some(ms) => ms,
        };
        proof {
            lemma_heap_same_layout(self.memory_set.view(), memory_set.view());
        }
        let trap_cx_ppn = memory_set.translate(TRAP_CONTEXT_BASE / PAGE_SIZE).unwrap();
        let (_kernel_stack_bottom, kernel_stack_top) = kernel_stack_position(child_pid);
        let mut trap_cx = self.trap_cx.duplicate();
        trap_cx.kernel_sp = kernel_stack_top;
        Some(
            TaskControlBlock {
                pid: child_pid,
                parent: Some(self.pid),
                children: Vec::new(),
                priority: self.priority,
                pass: 0,
                exit_code: 0,
                kernel_stack_top,
                task_cx: TaskContext::goto_trap_return(kernel_stack_top),
                task_status: TaskStatus::Ready,
                memory_set,
                trap_cx,
                trap_cx_ppn,
                base_size: self.base_size,
                heap_bottom: self.heap_bottom,
                program_brk: self.program_brk,
                task_info: TaskControlInfo::default(),
            },
        )
    }

    /// Replaces the task's address space and user registers with a fresh
    /// image, keeping its pid, family and kernel stack; `false`, with nothing
    /// changed, when too few frames are free for the new image.
    pub fn exec(&mut self, arena: &mut FrameArena, image: &ProgramImage) -> (r: bool)
        requires
            old(arena).wf(),
            old(self).wf(old(arena).nframes as nat),
            image.wf(),
        ensures
            final(arena).wf(),
            final(arena).nframes == old(arena).nframes,
            final(self).wf(final(arena).nframes as nat),
            final(self).pid == old(self).pid,
            final(self).children@ == old(self).children@,
            final(self).task_status == old(self).task_status,
            final(self).exit_code == old(self).exit_code,
            final(self).parent == old(self).parent,
            final(self).parent == old(self).parent,
            final(self).kernel_stack_top == old(self).kernel_stack_top,
            r == (old(arena).free@.len() >= space_pages(image.segments@)),
            r ==> final(self).memory_set.view().len() == image.segments@.len() + 4 && forall|k: int|
                0 <= k < image.segments@.len() ==> #[trigger] final(self).memory_set.view()[k].start
                    == image.segments@[k].start_vpn && final(self).memory_set.view()[k].end
                    == image.segments@[k].end_vpn && final(self).memory_set.view()[k].perm
                    == image.segments@[k].perm && final(self).memory_set.view()[k].kind
                    == AreaKind::Program,
            r ==> final(self).trap_cx.sepc == image.entry && final(self).heap_bottom
                == heap_bottom_of(image.segments@) && final(self).program_brk
                == final(self).heap_bottom && final(self).memory_set.token
                == old(self).memory_set.token,
            !r ==> final(self).memory_set.view() == old(self).memory_set.view()
                && final(arena).free@ == old(arena).free@,
    {
        if arena.available() < image.pages_needed() {
            return false;
        }
        let token = self.memory_set.token();
        let (mut memory_set, user_sp, heap_bottom, entry_point) = MemorySet::from_elf(
            arena,
            image,
            token,
        );
        let trap_cx_ppn = memory_set.translate(TRAP_CONTEXT_BASE / PAGE_SIZE).unwrap();
        std::mem::swap(&mut self.memory_set, &mut memory_set);
        memory_set.recycle(arena);
        self.trap_cx_ppn = trap_cx_ppn;
        self.base_size = heap_bottom;
        self.heap_bottom = heap_bottom;
        self.program_brk = heap_bottom;
        self.trap_cx = TrapContext::app_init_context(
            entry_point,
            user_sp,
            KERNEL_TOKEN,
            self.kernel_stack_top,
            TRAP_HANDLER_ADDR,
        );
        true
    }

    /// Makes a child that runs `image` from the start, with kernel-stack
    /// slot `child_pid` and an address space named by `token`; `None`, with
    /// nothing changed, when too few frames are free.
    pub fn spawn(
        &self,
        arena: &mut FrameArena,
        image: &ProgramImage,
        child_pid: usize,
        token: usize,
    ) -> (r: Option<TaskControlBlock>)
        requires
            old(arena).wf(),
            image.wf(),
            child_pid < MAX_TASKS,
        ensures
            final(arena).wf(),
            final(arena).nframes == old(arena).nframes,
            r is Some <==> old(arena).free@.len() >= space_pages(image.segments@),
            r is None ==> final(arena).free@ == old(arena).free@,
            r is Some ==> {
                let c = r->Some_0;
                &&& c.wf(final(arena).nframes as nat)
                &&& c.pid == child_pid
                &&& c.parent == Some(self.pid)
                &&& c.children@.len() == 0
                &&& c.task_status == TaskStatus::Ready
                &&& c.memory_set.token == token
                &&& c.trap_cx.sepc == image.entry
                &&& c.heap_bottom == heap_bottom_of(image.segments@)
                &&& c.program_brk == c.heap_bottom
            },
    {
        if arena.available() < image.pages_needed() {
            return None;
        }
        let mut child = TaskControlBlock::new(arena, image, child_pid, token);
        child.parent = Some(self.pid);
        Some(child)
    }
}

/// Mapping a non-empty range on a page boundary and then unmapping the same
/// range gives back exactly the regions there were before.
pub proof fn lemma_mmap_munmap_round_trip(
    before: Seq<AreaView>,
    start: int,
    len: int,
    port: int,
    frames: Seq<usize>,
)
    requires
        is_aligned(start),
        0 <= start,
        0 < len,
        start + len <= MAXVA,
        !conflicts(before, request_pages(start, len).0, request_pages(start, len).1),
    ensures
        has_mmap_of(
            before.push(mmap_area(start, len, port, frames)),
            request_pages(start, len).0,
            request_pages(start, len).1,
        ),
        forall|i: int|
            first_mmap_of(
                before.push(mmap_area(start, len, port, frames)),
                request_pages(start, len).0,
                request_pages(start, len).1,
                i,
            ) ==> before.push(mmap_area(start, len, port, frames)).remove(i) == before,
{
    let a = mmap_area(start, len, port, frames);
    let after = before.push(a);
    let (s, e) = request_pages(start, len);
    assert(s < e);
    assert(is_mmap_of(after[before.len() as int], s, e));
    assert forall|i: int| first_mmap_of(after, s, e, i) implies after.remove(i) == before by {
        if i < before.len() {
            assert(after[i] == before[i]);
            assert(overlaps(before[i], s, e));
        }
        assert(after.remove(i) =~= before);
    }
}

/// Moving the program break by `n` and then by `-n` is always accepted the
/// second time and brings the break back where it was: `t0` is the task
/// before the first move with `avail0` frames free, `t1` the task after it
/// with `avail1` frames free.
pub proof fn lemma_sbrk_round_trip(
    t0: TaskControlBlock,
    t1: TaskControlBlock,
    nframes: nat,
    avail0: nat,
    avail1: nat,
    n: int,
)
    requires
        t0.wf(nframes),
        t1.wf(nframes),
        brk_ok(&t0, avail0, n),
        t1.heap_bottom == t0.heap_bottom,
        t1.program_brk == t0.program_brk + n,
        n < 0 ==> shrunk_heap(
            t0.memory_set.view(),
            t1.memory_set.view(),
            vpn_ceil(t1.program_brk as int),
        ) && avail1 == avail0 + (heap_of(&t0.memory_set).end - vpn_ceil(t1.program_brk as int)),
    ensures
        brk_ok(&t1, avail1, -n),
        t1.program_brk + (-n) == t0.program_brk,
{
    let v0 = t0.memory_set.view();
    let v1 = t1.memory_set.view();
    let e1 = vpn_ceil(t1.program_brk as int);
    let e0 = vpn_ceil(t0.program_brk as int);
    if n == 0 {
        assert(!conflicts(v1, heap_of(&t1.memory_set).end as int, e1));
    } else if n < 0 {
        let h = heap_index(v0);
        assert(v1[h].kind == AreaKind::Heap);
        assert(heap_index(v1) == h);
        lemma_ceil_monotone(t1.program_brk as int, t0.program_brk as int);
        assert forall|j: int| 0 <= j < v1.len() implies !overlaps(#[trigger] v1[j], e1, e0) by {
            if j != h {
                assert(v1[j] == v0[j]);
                assert(!overlaps(v0[j], v0[h].start as int, v0[h].end as int));
            }
        }
    }
}

/// `vpn_ceil` does not decrease.
pub proof fn lemma_ceil_monotone(a: int, b: int)
    requires
        0 <= a <= b,
    ensures
        vpn_ceil(a) <= vpn_ceil(b),
{
}


} // verus!
