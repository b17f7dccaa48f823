//! The process system calls. Each takes the kernel state explicitly and
//! returns a signed result: a value on success, a negative code on failure.
use vstd::prelude::*;
use crate::abi::{encode_task_info, encode_time_val, le_bytes, task_info_bytes, time_val_bytes};
use crate::config::{MAXVA, PAGE_SIZE, MIN_PRIORITY, TASK_INFO_SIZE, MAX_PATH_LEN};
use crate::task::{MAX_TASKS, pass_step};
use crate::manager::{find_app, first_app};
use crate::manager::{Kernel, has_task, index_of, lemma_replace_keeps, lemma_remove_keeps, pids_unique};
use crate::memory_set::{range_writable, user_byte_is, owned_pages, same_layout, is_mapped, holds_page, area_wf, lemma_user_byte_unique, lemma_user_byte_mapped, space_pages, heap_bottom_of};
use crate::addr::vpn_of;
use crate::config::TRAP_RETURN_ADDR;
use crate::task::{kernel_stack_of, shrunk_heap, grown_heap, heap_of};
use crate::addr::vpn_ceil;
use crate::task::{
    TaskControlBlock, TaskStatus, TimeVal, brk_ok, elapsed_ms, mmap_area, mmap_ok,
    request_pages,
};

verus! {

/// `le_bytes(x, n)` is `n` bytes long.
pub proof fn lemma_le_bytes_len(x: nat, n: nat)
    ensures
        le_bytes(x, n).len() == n,
    decreases n,
{
    if n > 0 {
        lemma_le_bytes_len(x / 256, (n - 1) as nat);
    }
}

/// Whether memory of `k` holds `bytes` at user address `va` of the running
/// task.
pub open spec fn user_holds(k: &Kernel, va: int, bytes: Seq<u8>) -> bool {
    forall|i: int|
        0 <= i < bytes.len() ==> user_byte_is(
            k.current_task().memory_set.view(),
            k.arena.bytes@,
            va + i,
            #[trigger] bytes[i],
        )
}

/// The time that clock reading `us` stands for.
pub open spec fn time_val_of(us: usize) -> TimeVal {
    TimeVal { sec: (us / 1_000_000) as usize, usec: (us % 1_000_000) as usize }
}

impl Kernel {
    /// Position of the running task.
    fn current_index(&self) -> (r: usize)
        requires
            self.wf(),
            self.current is Some,
        ensures
            r < self.tasks@.len(),
            r == index_of(self.tasks@, self.current->Some_0),
            self.tasks@[r as int].pid == self.current->Some_0,
    {
        self.find_task(self.current.unwrap()).unwrap()
    }
}

/// The pid of the running task.
pub fn sys_getpid(k: &Kernel) -> (r: isize)
    requires
        k.wf(),
        k.current is Some,
    ensures
        r == k.current->Some_0,
{
    let i = k.current_index();
    k.tasks[i].getpid() as isize
}

/// Maps `len` bytes at `start` with rights `port` in the running task: 0 when
/// the request is accepted (see `mmap_ok`), -1 with nothing changed
/// otherwise or when no task runs.
pub fn sys_mmap(k: &mut Kernel, start: usize, len: usize, port: usize) -> (r: isize)
    requires
        old(k).wf(),
    ensures
        final(k).wf(),
        final(k).current == old(k).current,
        old(k).current is None ==> r == -1,
        old(k).current is Some ==> {
            &&& (r == 0 <==> mmap_ok(
                &old(k).current_task(),
                old(k).arena.free@.len(),
                start as int,
                len as int,
                port as int,
            ))
            &&& r == 0 ==> final(k).current_task().memory_set.view() == old(
                k,
            ).current_task().memory_set.view().push(
                mmap_area(
                    start as int,
                    len as int,
                    port as int,
                    final(k).current_task().memory_set.view().last().frames,
                ),
            )
            &&& r != 0 ==> r == -1 && final(k).current_task().memory_set.view() == old(
                k,
            ).current_task().memory_set.view()
        },
{
    if k.current.is_none() {
        return -1;
    }
    let i = k.current_index();
    let mut t = k.tasks.remove(i);
    let r = t.mmap(&mut k.arena, start, len, port);
    let ghost tv = t;
    k.tasks.insert(i, t);
    proof {
        assert(k.tasks@ =~= old(k).tasks@.update(i as int, tv));
        lemma_replace_keeps(old(k).tasks@, i as int, tv, k.arena.nframes as nat, k.next_pid);
        assert(has_task(old(k).tasks@, k.current->Some_0));
    }
    r
}


/// Removes the running task's region mapped on request at exactly the pages
/// covering `len` bytes at `start`: 0 when there is one, -1 with nothing
/// changed otherwise or when no task runs.
pub fn sys_munmap(k: &mut Kernel, start: usize, len: usize) -> (r: isize)
    requires
        old(k).wf(),
    ensures
        final(k).wf(),
        final(k).current == old(k).current,
        old(k).current is None ==> r == -1,
        old(k).current is Some ==> {
            &&& (r == 0 <==> start + len <= MAXVA && crate::memory_set::has_mmap_of(
                old(k).current_task().memory_set.view(),
                request_pages(start as int, len as int).0,
                request_pages(start as int, len as int).1,
            ))
            &&& r == 0 ==> exists|i: int|
                crate::memory_set::first_mmap_of(
                    old(k).current_task().memory_set.view(),
                    request_pages(start as int, len as int).0,
                    request_pages(start as int, len as int).1,
                    i,
                ) && final(k).current_task().memory_set.view() == old(
                    k,
                ).current_task().memory_set.view().remove(i)
            &&& r != 0 ==> r == -1 && final(k).current_task().memory_set.view() == old(
                k,
            ).current_task().memory_set.view()
        },
{
    if k.current.is_none() {
        return -1;
    }
    let i = k.current_index();
    let mut t = k.tasks.remove(i);
    let r = t.unmmap(&mut k.arena, start, len);
    let ghost tv = t;
    k.tasks.insert(i, t);
    proof {
        assert(k.tasks@ =~= old(k).tasks@.update(i as int, tv));
        lemma_replace_keeps(old(k).tasks@, i as int, tv, k.arena.nframes as nat, k.next_pid);
        assert(has_task(old(k).tasks@, k.current->Some_0));
    }
    r
}

/// Moves the running task's program break by `size` bytes: the old break
/// when the move is accepted (see `brk_ok`), -1 with the break unchanged
/// otherwise or when no task runs.
pub fn sys_sbrk(k: &mut Kernel, size: i32) -> (r: isize)
    requires
        old(k).wf(),
    ensures
        final(k).wf(),
        final(k).current == old(k).current,
        old(k).current is None ==> r == -1,
        old(k).current is Some ==> {
            &&& (r >= 0 <==> brk_ok(&old(k).current_task(), old(k).arena.free@.len(), size as int))
            &&& r >= 0 ==> r == old(k).current_task().program_brk && final(k).current_task().program_brk
                == old(k).current_task().program_brk + size
            &&& r < 0 ==> r == -1 && final(k).current_task().program_brk
                == old(k).current_task().program_brk && final(k).current_task().memory_set.view()
                == old(k).current_task().memory_set.view() && final(k).arena.free@ == old(
                k,
            ).arena.free@
            &&& final(k).current_task().heap_bottom == old(k).current_task().heap_bottom
            &&& r >= 0 && size < 0 ==> shrunk_heap(
                old(k).current_task().memory_set.view(),
                final(k).current_task().memory_set.view(),
                vpn_ceil(final(k).current_task().program_brk as int),
            ) && final(k).arena.free@.len() == old(k).arena.free@.len() + (heap_of(
                &old(k).current_task().memory_set,
            ).end - vpn_ceil(final(k).current_task().program_brk as int))
            &&& r >= 0 && size >= 0 ==> grown_heap(
                old(k).current_task().memory_set.view(),
                final(k).current_task().memory_set.view(),
                vpn_ceil(final(k).current_task().program_brk as int),
            )
        },
{
    if k.current.is_none() {
        return -1;
    }
    let i = k.current_index();
    let mut t = k.tasks.remove(i);
    let r = t.change_program_brk(&mut k.arena, size);
    let ghost tv = t;
    k.tasks.insert(i, t);
    proof {
        assert(k.tasks@ =~= old(k).tasks@.update(i as int, tv));
        lemma_replace_keeps(old(k).tasks@, i as int, tv, k.arena.nframes as nat, k.next_pid);
        assert(has_task(old(k).tasks@, k.current->Some_0));
    }
    match r {
        Some(b) => b as isize,
        None => -1,
    }
}

/// Sets the running task's priority to `prio`: `prio` when it is at least
/// `MIN_PRIORITY`, -1 with nothing changed otherwise or when no task runs.
pub fn sys_set_priority(k: &mut Kernel, prio: isize) -> (r: isize)
    requires
        old(k).wf(),
    ensures
        final(k).wf(),
        final(k).current == old(k).current,
        r == (if prio >= MIN_PRIORITY && old(k).current is Some {
            prio as int
        } else {
            -1
        }),
        r != -1 ==> final(k).current_task().priority == prio,
        r == -1 ==> final(k).tasks@ == old(k).tasks@,
{
    if prio < MIN_PRIORITY {
        return -1;
    }
    if k.current.is_none() {
        return -1;
    }
    let i = k.current_index();
    let mut t = k.tasks.remove(i);
    t.priority = prio as usize;
    let ghost tv = t;
    k.tasks.insert(i, t);
    proof {
        assert(k.tasks@ =~= old(k).tasks@.update(i as int, tv));
        lemma_replace_keeps(old(k).tasks@, i as int, tv, k.arena.nframes as nat, k.next_pid);
        assert(has_task(old(k).tasks@, k.current->Some_0));
    }
    prio
}

/// Writes `bytes` at user address `va` of the running task: whether every
/// byte fell in a mapped page; memory is unchanged when one did not.
fn copy_to_current(k: &mut Kernel, va: usize, bytes: &Vec<u8>) -> (r: bool)
    requires
        old(k).wf(),
        old(k).current is Some,
        bytes@.len() <= PAGE_SIZE,
    ensures
        final(k).wf(),
        final(k).current == old(k).current,
        final(k).tasks@ == old(k).tasks@,
        final(k).next_pid == old(k).next_pid,
        final(k).ready@ == old(k).ready@,
        final(k).now_us == old(k).now_us,
        final(k).arena.free@ == old(k).arena.free@,
        r == (va + bytes@.len() <= MAXVA && range_writable(
            old(k).current_task().memory_set.view(),
            va as int,
            bytes@.len() as int,
        )),
        r ==> user_holds(final(k), va as int, bytes@),
        !r ==> final(k).arena.bytes@ == old(k).arena.bytes@,
{
    if va > MAXVA || bytes.len() > MAXVA - va {
        return false;
    }
    let i = k.current_index();
    assert(k.tasks@[i as int].wf(k.arena.nframes as nat));
    k.tasks[i].memory_set.copy_out(&mut k.arena, va, bytes)
}

/// Writes the time of the clock reading, as seconds and microseconds, at
/// user address `ts` of the running task, which may straddle a page
/// boundary: 0 on success, -1 with memory unchanged when no task runs or the
/// record does not lie in pages the task may write.
pub fn sys_get_time(k: &mut Kernel, ts: usize, _tz: usize) -> (r: isize)
    requires
        old(k).wf(),
    ensures
        final(k).wf(),
        final(k).current == old(k).current,
        final(k).tasks@ == old(k).tasks@,
        r == 0 || r == -1,
        r == 0 <==> old(k).current is Some && ts + 16 <= MAXVA && range_writable(
            old(k).current_task().memory_set.view(),
            ts as int,
            16,
        ),
        r == 0 ==> user_holds(final(k), ts as int, time_val_bytes(time_val_of(old(k).now_us))),
        r == -1 ==> final(k).arena.bytes@ == old(k).arena.bytes@,
{
    if k.current.is_none() {
        return -1;
    }
    let us = k.now_us;
    let tv = TimeVal { sec: us / 1_000_000, usec: us % 1_000_000 };
    let bytes = encode_time_val(tv);
    proof {
        lemma_le_bytes_len(tv.sec as nat, 8);
        lemma_le_bytes_len(tv.usec as nat, 8);
    }
    if copy_to_current(k, ts, &bytes) {
        0
    } else {
        -1
    }
}

/// Each count takes four bytes.
pub proof fn lemma_counts_bytes_len(s: Seq<u32>)
    ensures
        crate::abi::counts_bytes(s).len() == 4 * s.len(),
    decreases s.len(),
{
    if s.len() > 0 {
        lemma_counts_bytes_len(s.drop_last());
        lemma_le_bytes_len(s.last() as nat, 4);
    }
}

/// Writes what the running task reports about itself (status, system call
/// counts, milliseconds since it first ran) at user address `ti`, which may
/// straddle a page boundary: 0 on success, -1 with memory unchanged when no
/// task runs or the record does not lie in pages the task may write.
pub fn sys_task_info(k: &mut Kernel, ti: usize) -> (r: isize)
    requires
        old(k).wf(),
    ensures
        final(k).wf(),
        final(k).current == old(k).current,
        final(k).tasks@ == old(k).tasks@,
        r == 0 || r == -1,
        r == 0 <==> old(k).current is Some && ti + TASK_INFO_SIZE <= MAXVA && range_writable(
            old(k).current_task().memory_set.view(),
            ti as int,
            TASK_INFO_SIZE as int,
        ),
        r == 0 ==> user_holds(
            final(k),
            ti as int,
            task_info_bytes(
                old(k).current_task().task_status,
                old(k).current_task().task_info.syscall_times@,
                elapsed_ms(old(k).current_task().task_info.time, old(k).now_us / 1000),
            ),
        ),
        r == -1 ==> final(k).arena.bytes@ == old(k).arena.bytes@,
{
    if k.current.is_none() {
        return -1;
    }
    let i = k.current_index();
    let info = k.tasks[i].get_task_info(k.now_us / 1000);
    let bytes = encode_task_info(&info);
    proof {
        assert(k.tasks@[i as int].wf(k.arena.nframes as nat));
        lemma_le_bytes_len(crate::abi::status_code(info.status), 4);
        lemma_counts_bytes_len(info.syscall_times@);
        lemma_le_bytes_len(0, 4);
        lemma_le_bytes_len(info.time as nat, 8);
    }
    if copy_to_current(k, ti, &bytes) {
        0
    } else {
        -1
    }
}


/// Whether child pid `c` is one that a wait for `pid` (-1: any) accepts.
pub open spec fn pid_matches(pid: isize, c: usize) -> bool {
    pid == -1 || pid as int == c as int
}

/// Whether the task with pid `c` exists and has exited.
pub open spec fn is_zombie_in(tasks: Seq<TaskControlBlock>, c: usize) -> bool {
    has_task(tasks, c) && tasks[index_of(tasks, c)].task_status == TaskStatus::Exited
}

/// Whether some child of `kids` matches `pid`.
pub open spec fn any_match(kids: Seq<usize>, pid: isize) -> bool {
    exists|j: int| 0 <= j < kids.len() && pid_matches(pid, #[trigger] kids[j])
}

/// Whether `j` is the first child of `kids` that matches `pid` and has exited.
pub open spec fn first_zombie(tasks: Seq<TaskControlBlock>, kids: Seq<usize>, pid: isize, j: int) -> bool {
    &&& 0 <= j < kids.len()
    &&& pid_matches(pid, kids[j])
    &&& is_zombie_in(tasks, kids[j])
    &&& forall|l: int|
        0 <= l < j ==> !(pid_matches(pid, #[trigger] kids[l]) && is_zombie_in(tasks, kids[l]))
}

/// Whether some child of `kids` matches `pid` and has exited.
pub open spec fn any_zombie(tasks: Seq<TaskControlBlock>, kids: Seq<usize>, pid: isize) -> bool {
    exists|j: int| first_zombie(tasks, kids, pid, j)
}

/// Whether some child of `kids` matches `pid`.
fn any_child_matches(kids: &Vec<usize>, pid: isize) -> (r: bool)
    ensures
        r == any_match(kids@, pid),
{
    let mut j: usize = 0;
    while j < kids.len()
        invariant
            j <= kids@.len(),
            forall|l: int| 0 <= l < j ==> !pid_matches(pid, #[trigger] kids@[l]),
        decreases kids@.len() - j,
    {
        if pid == -1 || (pid >= 0 && pid as usize == kids[j]) {
            assert(pid_matches(pid, kids@[j as int]));
            return true;
        }
        j = j + 1;
    }
    false
}

/// Position in `kids` of the first child that matches `pid` and has exited.
fn find_zombie(k: &Kernel, kids: &Vec<usize>, pid: isize) -> (r: Option<usize>)
    requires
        pids_unique(k.tasks@),
    ensures
        r is None ==> !any_zombie(k.tasks@, kids@, pid),
        r is Some ==> first_zombie(k.tasks@, kids@, pid, r->Some_0 as int),
{
    let mut j: usize = 0;
    while j < kids.len()
        invariant
            pids_unique(k.tasks@),
            j <= kids@.len(),
            forall|l: int|
                0 <= l < j ==> !(pid_matches(pid, #[trigger] kids@[l]) && is_zombie_in(k.tasks@, kids@[l])),
        decreases kids@.len() - j,
    {
        if pid == -1 || (pid >= 0 && pid as usize == kids[j]) {
            match k.find_task(kids[j]) {
                Some(ti) => {
                    if k.tasks[ti].is_zombie() {
                        return Some(j);
                    }
                },
                None => {},
            }
        }
        j = j + 1;
    }
    proof {
        if any_zombie(k.tasks@, kids@, pid) {
            let w = choose|w: int| first_zombie(k.tasks@, kids@, pid, w);
            assert(!(pid_matches(pid, kids@[w]) && is_zombie_in(k.tasks@, kids@[w])));
        }
    }
    None
}

/// Reaps an exited child of the running task that matches `pid` (-1: any):
/// the first such child in order of creation is removed, its memory freed,
/// its exit code written as 4 little-endian bytes at user address
/// `exit_code_ptr`, and its pid returned. -1 when no child matches, when no
/// task runs, or when the exit code cannot be written; -2 when children match
/// but none has exited. Nothing changes on failure.
#[verifier::rlimit(80)]
pub fn sys_waitpid(k: &mut Kernel, pid: isize, exit_code_ptr: usize) -> (r: isize)
    requires
        old(k).wf(),
    ensures
        final(k).wf(),
        final(k).current == old(k).current,
        r < 0 ==> final(k).tasks@ == old(k).tasks@ && final(k).arena.bytes@ == old(k).arena.bytes@,
        old(k).current is None ==> r == -1,
        old(k).current is Some ==> {
            let kids = old(k).current_task().children@;
            &&& !any_match(kids, pid) ==> r == -1
            &&& any_zombie(old(k).tasks@, kids, pid) && exit_code_ptr + 4 <= MAXVA && range_writable(
                old(k).current_task().memory_set.view(),
                exit_code_ptr as int,
                4,
            ) ==> r >= 0
            &&& r == -1 ==> !any_zombie(old(k).tasks@, kids, pid) || !(exit_code_ptr + 4 <= MAXVA
                && range_writable(old(k).current_task().memory_set.view(), exit_code_ptr as int, 4))
            &&& any_match(kids, pid) && !any_zombie(old(k).tasks@, kids, pid) ==> r == -2
            &&& any_zombie(old(k).tasks@, kids, pid) ==> r == -1 || exists|j: int|
                {
                    &&& first_zombie(old(k).tasks@, kids, pid, j)
                    &&& r == kids[j]
                    &&& final(k).current_task().children@ == kids.remove(j)
                    &&& !has_task(final(k).tasks@, kids[j])
                    &&& final(k).tasks@.len() == old(k).tasks@.len() - 1
                    &&& user_holds(
                        final(k),
                        exit_code_ptr as int,
                        le_bytes(
                            old(k).tasks@[index_of(old(k).tasks@, kids[j])].exit_code as u32 as nat,
                            4,
                        ),
                    )
                }
        },
{
    if k.current.is_none() {
        return -1;
    }
    let i = k.current_index();
    if !any_child_matches(&k.tasks[i].children, pid) {
        return -1;
    }
    let j = match find_zombie(k, &k.tasks[i].children, pid) {
        None => {
            return -2;
        },
        Some(j) => j,
    };
    let child_pid = k.tasks[i].children[j];
    let ci = k.find_task(child_pid).unwrap();
    let code = k.tasks[ci].exit_code;
    let mut bytes: Vec<u8> = Vec::new();
    crate::abi::push_le(&mut bytes, code as u32 as usize, 4);
    proof {
        lemma_le_bytes_len(code as u32 as nat, 4);
    }
    if !copy_to_current(k, exit_code_ptr, &bytes) {
        return -1;
    }
    let ghost k1 = *k;
    let mut t = k.tasks.remove(i);
    t.children.remove(j);
    let ghost tv = t;
    k.tasks.insert(i, t);
    proof {
        assert(k.tasks@ =~= k1.tasks@.update(i as int, tv));
        assert forall|l: int| 0 <= l < tv.children@.len() implies tv.pid < #[trigger] tv.children@[l] by {
            let l0 = if l < j { l } else { l + 1 };
            assert(tv.children@[l] == k1.tasks@[i as int].children@[l0]);
        }
        let old_kids = k1.tasks@[i as int].children@;
        assert forall|l: int| 0 <= l < tv.children@.len() implies has_task(k1.tasks@, #[trigger] tv.children@[l])
            && k1.tasks@[index_of(k1.tasks@, tv.children@[l])].parent == Some(tv.pid) by {
            let l0 = if l < j { l } else { l + 1 };
            assert(tv.children@[l] == old_kids[l0]);
        }
        assert forall|j1: int, j2: int|
            0 <= j1 < tv.children@.len() && 0 <= j2 < tv.children@.len() && j1 != j2 implies #[trigger] tv.children@[j1]
            != #[trigger] tv.children@[j2] by {
            let a1 = if j1 < j { j1 } else { j1 + 1 };
            let a2 = if j2 < j { j2 } else { j2 + 1 };
            assert(old_kids[a1] != old_kids[a2]);
        }
        lemma_replace_keeps(k1.tasks@, i as int, tv, k.arena.nframes as nat, k.next_pid);
        assert(has_task(k1.tasks@, child_pid));
        assert(k.tasks@[ci as int].pid == child_pid);
        assert forall|l: int| 0 <= l < tv.children@.len() implies #[trigger] tv.children@[l] != child_pid by {
            let l0 = if l < j { l } else { l + 1 };
            assert(old_kids[l0] != old_kids[j as int]);
        }
        assert forall|a: int, l: int|
            0 <= a < k.tasks@.len() && 0 <= l < k.tasks@[a].children@.len() implies #[trigger] k.tasks@[a].children@[l]
            != k.tasks@[ci as int].pid by {
            if a != i as int && k.tasks@[a].children@[l] == child_pid {
                assert(k.tasks@[a] == k1.tasks@[a]);
                assert(k1.tasks@[index_of(k1.tasks@, child_pid)].parent == Some(k1.tasks@[a].pid));
                assert(k1.tasks@[index_of(k1.tasks@, child_pid)].parent == Some(k1.tasks@[i as int].pid));
                assert(k1.tasks@[a].pid != k1.tasks@[i as int].pid);
            }
        }
    }
    let ghost k2 = *k;
    let child = k.tasks.remove(ci);
    proof {
        lemma_remove_keeps(k2.tasks@, ci as int, k.arena.nframes as nat, k.next_pid);
        assert(k2.tasks@[i as int].pid < child_pid);
        assert(has_task(k2.tasks@, k.current->Some_0));
        assert(child.wf(k.arena.nframes as nat));
    }
    child.memory_set.recycle(&mut k.arena);
    proof {
        assert(k.current_task() == tv);
        assert(k1.current_task().memory_set.view() == tv.memory_set.view());
    }
    child_pid as isize
}


/// Whether `b` is task `a` put on the processor: only its status, counters
/// and pass differ.
pub open spec fn same_but_run(a: TaskControlBlock, b: TaskControlBlock) -> bool {
    &&& b.task_status == TaskStatus::Running
    &&& b.pid == a.pid
    &&& b.parent == a.parent
    &&& b.children@ == a.children@
    &&& b.memory_set.view() == a.memory_set.view()
    &&& b.memory_set.token == a.memory_set.token
    &&& b.program_brk == a.program_brk
    &&& b.heap_bottom == a.heap_bottom
    &&& b.trap_cx.x@ == a.trap_cx.x@
    &&& b.trap_cx.sepc == a.trap_cx.sepc
    &&& b.priority == a.priority
}

/// Whether `b` is task `a` taken off the processor: only its status differs.
pub open spec fn same_but_ready(a: TaskControlBlock, b: TaskControlBlock) -> bool {
    &&& b.task_status == TaskStatus::Ready
    &&& b.pid == a.pid
    &&& b.parent == a.parent
    &&& b.children@ == a.children@
    &&& b.memory_set.view() == a.memory_set.view()
    &&& b.memory_set.token == a.memory_set.token
    &&& b.program_brk == a.program_brk
    &&& b.heap_bottom == a.heap_bottom
    &&& b.trap_cx.x@ == a.trap_cx.x@
    &&& b.trap_cx.sepc == a.trap_cx.sepc
    &&& b.priority == a.priority
    &&& b.pass == a.pass
    &&& b.task_info.syscall_times@ == a.task_info.syscall_times@
    &&& b.task_info.time == a.task_info.time
}

/// Whether `p` names a task of `tasks` that waits to run.
pub open spec fn runnable(tasks: Seq<TaskControlBlock>, p: usize) -> bool {
    has_task(tasks, p) && tasks[index_of(tasks, p)].task_status == TaskStatus::Ready
}

/// Pass of the task with pid `p`.
pub open spec fn pass_of(tasks: Seq<TaskControlBlock>, p: usize) -> u64 {
    tasks[index_of(tasks, p)].pass
}

/// Whether entry `m` of `ready` is the one to run next: a runnable task with
/// the smallest pass, the earliest in the queue among equals.
pub open spec fn picks(tasks: Seq<TaskControlBlock>, ready: Seq<usize>, m: int) -> bool {
    &&& 0 <= m < ready.len()
    &&& runnable(tasks, ready[m])
    &&& forall|l: int|
        0 <= l < ready.len() && runnable(tasks, #[trigger] ready[l]) ==> pass_of(tasks, ready[m])
            <= pass_of(tasks, ready[l]) && (l < m ==> pass_of(tasks, ready[m]) < pass_of(
            tasks,
            ready[l],
        ))
}

/// Position in the ready queue of the entry to run next.
fn pick_next(k: &Kernel) -> (r: Option<usize>)
    requires
        k.wf(),
    ensures
        r is None ==> forall|l: int| 0 <= l < k.ready@.len() ==> !runnable(k.tasks@, #[trigger] k.ready@[l]),
        r is Some ==> picks(k.tasks@, k.ready@, r->Some_0 as int),
{
    let mut best: Option<usize> = None;
    let mut best_pass: u64 = 0;
    let mut l: usize = 0;
    while l < k.ready.len()
        invariant
            k.wf(),
            l <= k.ready@.len(),
            best is None ==> forall|j: int| 0 <= j < l ==> !runnable(k.tasks@, #[trigger] k.ready@[j]),
            best is Some ==> {
                let m = best->Some_0 as int;
                &&& 0 <= m < l
                &&& runnable(k.tasks@, k.ready@[m])
                &&& best_pass == pass_of(k.tasks@, k.ready@[m])
                &&& forall|j: int|
                    0 <= j < l && runnable(k.tasks@, #[trigger] k.ready@[j]) ==> best_pass <= pass_of(
                        k.tasks@,
                        k.ready@[j],
                    ) && (j < m ==> best_pass < pass_of(k.tasks@, k.ready@[j]))
            },
        decreases k.ready@.len() - l,
    {
        let p = k.ready[l];
        match k.find_task(p) {
            None => {},
            Some(i) => {
                if k.tasks[i].task_status == TaskStatus::Ready {
                    if best.is_none() || k.tasks[i].pass < best_pass {
                        best = Some(l);
                        best_pass = k.tasks[i].pass;
                    }
                }
            },
        }
        l = l + 1;
    }
    best
}

/// Runs the ready task picked by `picks`: it leaves the queue, becomes the
/// running task, has its first-run time stamped if it never ran, and its
/// pass moved by `stride_step` of its priority (stopping at `u64::MAX`). No
/// task runs, and the queue stays, when no entry of it is a runnable task.
pub fn run_next(k: &mut Kernel) -> (r: Option<usize>)
    requires
        old(k).wf(),
    ensures
        final(k).wf(),
        final(k).current == r,
        final(k).tasks@.len() == old(k).tasks@.len(),
        final(k).next_pid == old(k).next_pid,
        r is None ==> final(k).ready@ == old(k).ready@ && forall|l: int|
            0 <= l < old(k).ready@.len() ==> !runnable(old(k).tasks@, #[trigger] old(k).ready@[l]),
        r is Some ==> exists|m: int|
            picks(old(k).tasks@, old(k).ready@, m) && r == Some(old(k).ready@[m])
                && final(k).ready@ == old(k).ready@.remove(m),
        r is Some ==> final(k).current_task().task_status == TaskStatus::Running,
        r is None ==> final(k).tasks@ == old(k).tasks@,
        r is Some ==> forall|j: int|
            0 <= j < old(k).tasks@.len() && j != index_of(old(k).tasks@, r->Some_0) ==> (
            #[trigger] final(k).tasks@[j]) == old(k).tasks@[j],
        r is Some ==> same_but_run(
            old(k).tasks@[index_of(old(k).tasks@, r->Some_0)],
            final(k).tasks@[index_of(old(k).tasks@, r->Some_0)],
        ),
        forall|j: int|
            0 <= j < old(k).tasks@.len() ==> (#[trigger] final(k).tasks@[j]).pid == old(k).tasks@[j].pid
                && (old(k).tasks@[j].task_status != TaskStatus::Ready ==> final(k).tasks@[j]
                == old(k).tasks@[j]),
        forall|p: usize| #[trigger] has_task(final(k).tasks@, p) == has_task(old(k).tasks@, p),
        forall|p: usize|
            has_task(old(k).tasks@, p) ==> #[trigger] index_of(final(k).tasks@, p) == index_of(
                old(k).tasks@,
                p,
            ),
{
    let m = match pick_next(k) {
        None => {
            k.current = None;
            return None;
        },
        Some(m) => m,
    };
    let pid = k.ready.remove(m);
    let i = k.find_task(pid).unwrap();
    let mut t = k.tasks.remove(i);
    t.task_status = TaskStatus::Running;
    t.task_info.try_set_first_run_times(k.now_us / 1000);
    let step = pass_step(t.priority);
    t.pass = if t.pass <= u64::MAX - step {
        t.pass + step
    } else {
        u64::MAX
    };
    let ghost tv = t;
    k.tasks.insert(i, t);
    proof {
        assert(k.tasks@ =~= old(k).tasks@.update(i as int, tv));
        lemma_replace_keeps(old(k).tasks@, i as int, tv, k.arena.nframes as nat, k.next_pid);
    }
    k.current = Some(pid);
    Some(pid)
}

/// Gives up the processor: the running task goes to the back of the ready
/// queue and the ready task that `run_next` picks runs. Always 0.
pub fn sys_yield(k: &mut Kernel) -> (r: isize)
    requires
        old(k).wf(),
    ensures
        final(k).wf(),
        r == 0,
        final(k).tasks@.len() == old(k).tasks@.len(),
        final(k).current is Some ==> final(k).current_task().task_status == TaskStatus::Running,
        old(k).current is Some && old(k).ready@.len() == 0 ==> final(k).current == old(k).current,
        old(k).current is Some ==> exists|t1: Seq<TaskControlBlock>, m: int|
            {
                let p = old(k).current->Some_0;
                let q = old(k).ready@.push(p);
                let i = index_of(old(k).tasks@, p);
                &&& t1.len() == old(k).tasks@.len()
                &&& same_but_ready(old(k).tasks@[i], t1[i])
                &&& forall|j: int| 0 <= j < t1.len() && j != i ==> #[trigger] t1[j] == old(k).tasks@[j]
                &&& #[trigger] picks(t1, old(k).ready@.push(old(k).current->Some_0), m)
                &&& final(k).current == Some(q[m])
                &&& final(k).ready@ == q.remove(m)
                &&& q[m] == p ==> same_but_run(t1[i], final(k).tasks@[i])
                &&& q[m] != p ==> final(k).tasks@[i] == t1[i]
            },
{
    if k.current.is_some() {
        let i = k.current_index();
        let mut t = k.tasks.remove(i);
        t.task_status = TaskStatus::Ready;
        let pid = t.pid;
        let ghost tv = t;
        k.tasks.insert(i, t);
        proof {
            assert(k.tasks@ =~= old(k).tasks@.update(i as int, tv));
            lemma_replace_keeps(old(k).tasks@, i as int, tv, k.arena.nframes as nat, k.next_pid);
            assert(has_task(k.tasks@, pid));
        }
        k.ready.push(pid);
        k.current = None;
        proof {
            assert(k.tasks@[index_of(k.tasks@, pid)] == tv);
        }
    }
    let ghost k1 = *k;
    proof {
        if old(k).current is Some && old(k).ready@.len() == 0 {
            assert(k1.ready@[0] == old(k).current->Some_0);
            assert(k1.ready@.len() == 1);
        }
    }
    let r = run_next(k);
    proof {
        if old(k).current is Some {
            let p = old(k).current->Some_0;
            let i = index_of(old(k).tasks@, p);
            assert(k1.ready@ == old(k).ready@.push(p));
            assert(k1.ready@[k1.ready@.len() - 1] == p);
            assert(has_task(k1.tasks@, p));
            assert(index_of(k1.tasks@, p) == i);
            if r is None {
                assert(!runnable(k1.tasks@, k1.ready@[k1.ready@.len() - 1]));
            }
            let m = choose|m: int|
                picks(k1.tasks@, k1.ready@, m) && r == Some(k1.ready@[m]) && k.ready@ == k1.ready@.remove(m);
            if k1.ready@[m] == p {
                assert(index_of(k1.tasks@, r->Some_0) == i);
            } else {
                assert(has_task(k1.tasks@, k1.ready@[m]));
                assert(index_of(k1.tasks@, k1.ready@[m]) != i);
            }
            assert(k1.tasks@.len() == old(k).tasks@.len());
            assert(same_but_ready(old(k).tasks@[i], k1.tasks@[i]));
            assert(picks(k1.tasks@, old(k).ready@.push(p), m));
        }
    }
    0
}

/// Ends the running task with `exit_code`: it is marked exited, keeps its
/// children linked until its parent reaps it, and never runs again; the
/// ready task that `run_next` picks runs.
pub fn sys_exit(k: &mut Kernel, exit_code: i32)
    requires
        old(k).wf(),
        old(k).current is Some,
    ensures
        final(k).wf(),
        final(k).tasks@.len() == old(k).tasks@.len(),
        has_task(final(k).tasks@, old(k).current->Some_0),
        final(k).tasks@[index_of(final(k).tasks@, old(k).current->Some_0)].task_status
            == TaskStatus::Exited,
        final(k).tasks@[index_of(final(k).tasks@, old(k).current->Some_0)].exit_code == exit_code,
        final(k).tasks@[index_of(final(k).tasks@, old(k).current->Some_0)].children@
            == old(k).current_task().children@,
        final(k).current != old(k).current,
{
    let i = k.current_index();
    let mut t = k.tasks.remove(i);
    t.task_status = TaskStatus::Exited;
    t.exit_code = exit_code;
    let pid = t.pid;
    let ghost tv = t;
    k.tasks.insert(i, t);
    proof {
        assert(k.tasks@ =~= old(k).tasks@.update(i as int, tv));
        lemma_replace_keeps(old(k).tasks@, i as int, tv, k.arena.nframes as nat, k.next_pid);
        assert(has_task(k.tasks@, pid));
    }
    k.current = None;
    let ghost k1 = *k;
    let ghost ix = index_of(k1.tasks@, pid);
    let _ = run_next(k);
    proof {
        assert(has_task(k.tasks@, pid));
        assert(k1.tasks@[ix].task_status == TaskStatus::Exited);
    }
}

/// Duplicates the running task: the child gets a copy of its address space,
/// registers and heap, a fresh pid never used before, 0 as the return value
/// of this call in its registers, and joins the ready queue and the end of
/// the parent's children. The child's pid, or -1 with nothing changed when no
/// task runs, pids run out, or too few frames are free.
pub fn sys_fork(k: &mut Kernel) -> (r: isize)
    requires
        old(k).wf(),
    ensures
        final(k).wf(),
        final(k).current == old(k).current,
        r == -1 <==> (old(k).current is None || old(k).next_pid >= MAX_TASKS || old(
            k,
        ).arena.free@.len() < owned_pages(old(k).current_task().memory_set.view())),
        r == -1 ==> final(k).tasks@ == old(k).tasks@ && final(k).ready@ == old(k).ready@
            && final(k).next_pid == old(k).next_pid && final(k).arena.free@.len() == old(
            k,
        ).arena.free@.len(),
        r != -1 ==> {
            &&& old(k).current is Some
            &&& r == old(k).next_pid
            &&& final(k).next_pid == old(k).next_pid + 1
            &&& forall|j: int| 0 <= j < old(k).tasks@.len() ==> (#[trigger] old(k).tasks@[j]).pid < r
            &&& final(k).tasks@.last().trap_cx.x@ == old(k).current_task().trap_cx.x@.update(10, 0)
            &&& final(k).tasks@.last().trap_cx.kernel_sp == final(k).tasks@.last().kernel_stack_top
            &&& final(k).tasks@.last().kernel_stack_top == kernel_stack_of(r as int).1
            &&& final(k).tasks@.last().task_cx.ra == TRAP_RETURN_ADDR
            &&& final(k).tasks@.last().task_cx.sp == final(k).tasks@.last().kernel_stack_top
            &&& final(k).tasks@.last().heap_bottom == old(k).current_task().heap_bottom
            &&& final(k).tasks@.last().program_brk == old(k).current_task().program_brk
            &&& final(k).tasks@.last().memory_set.view().len() == old(k).current_task().memory_set.view().len()
            &&& forall|i: int|
                0 <= i < old(k).current_task().memory_set.view().len() ==> same_layout(
                    #[trigger] final(k).tasks@.last().memory_set.view()[i],
                    old(k).current_task().memory_set.view()[i],
                )
            &&& final(k).current_task().memory_set.view() == old(k).current_task().memory_set.view()
            &&& final(k).current_task().program_brk == old(k).current_task().program_brk
            &&& final(k).tasks@.len() == old(k).tasks@.len() + 1
            &&& final(k).tasks@.last().pid == r
            &&& final(k).tasks@.last().parent == Some(old(k).current->Some_0)
            &&& final(k).tasks@.last().task_status == TaskStatus::Ready
            &&& final(k).tasks@.last().trap_cx.x@[10] == 0
            &&& final(k).tasks@.last().trap_cx.sepc == old(k).current_task().trap_cx.sepc
            &&& final(k).current_task().children@ == old(k).current_task().children@.push(r as usize)
            &&& final(k).current_task().trap_cx.x@ == old(k).current_task().trap_cx.x@
            &&& final(k).ready@ == old(k).ready@.push(r as usize)
        },
{
    if k.current.is_none() || k.next_pid >= MAX_TASKS {
        return -1;
    }
    let i = k.current_index();
    let child_pid = k.next_pid;
    let mut child = match k.tasks[i].fork(&mut k.arena, child_pid, child_pid) {
        None => {
            return -1;
        },
        Some(c) => c,
    };
    child.trap_cx.x.set(10, 0);
    let ghost k1 = *k;
    k.tasks.push(child);
    k.ready.push(child_pid);
    k.next_pid = child_pid + 1;
    proof {
        assert forall|j: int| 0 <= j < k1.tasks@.len() implies (#[trigger] k1.tasks@[j]).pid < child_pid by {
            assert(k1.tasks@[j].wf(k.arena.nframes as nat) && k1.tasks@[j].pid < k1.next_pid);
        }
        k.lemma_table_push_keeps(k1.tasks@, child);
        assert(has_task(k1.tasks@, k.current->Some_0));
        assert(k.tasks@[i as int] == k1.tasks@[i as int]);
        assert(k.tasks@[k.tasks@.len() - 1].pid == child_pid);
        assert(has_task(k.tasks@, child_pid));
        assert(index_of(k.tasks@, child_pid) == k.tasks@.len() - 1) by {
            let m = index_of(k.tasks@, child_pid);
            if m != k.tasks@.len() - 1 {
                assert(k.tasks@[m].pid != k.tasks@[k.tasks@.len() - 1].pid);
            }
        }
    }
    let ghost k2 = *k;
    let mut t = k.tasks.remove(i);
    t.children.push(child_pid);
    let ghost tv = t;
    k.tasks.insert(i, t);
    proof {
        assert(k.tasks@ =~= k2.tasks@.update(i as int, tv));
        assert(k2.tasks@[i as int].pid < child_pid);
        let old_kids = k2.tasks@[i as int].children@;
        assert forall|l: int| 0 <= l < tv.children@.len() implies tv.pid < #[trigger] tv.children@[l] by {
            if l < tv.children@.len() - 1 {
                assert(tv.children@[l] == old_kids[l]);
            }
        }
        assert forall|l: int| 0 <= l < tv.children@.len() implies has_task(k2.tasks@, #[trigger] tv.children@[l])
            && k2.tasks@[index_of(k2.tasks@, tv.children@[l])].parent == Some(tv.pid) by {
            if l < tv.children@.len() - 1 {
                assert(tv.children@[l] == old_kids[l]);
            }
        }
        assert forall|j1: int, j2: int|
            0 <= j1 < tv.children@.len() && 0 <= j2 < tv.children@.len() && j1 != j2 implies #[trigger] tv.children@[j1]
            != #[trigger] tv.children@[j2] by {
            let n = tv.children@.len() - 1;
            if j1 < n && j2 < n {
                assert(old_kids[j1] != old_kids[j2]);
            } else if j1 < n {
                assert(has_task(k1.tasks@, old_kids[j1]));
                let m = index_of(k1.tasks@, old_kids[j1]);
                assert(k1.tasks@[m].pid < child_pid);
            } else {
                assert(has_task(k1.tasks@, old_kids[j2]));
                let m = index_of(k1.tasks@, old_kids[j2]);
                assert(k1.tasks@[m].pid < child_pid);
            }
        }
        lemma_replace_keeps(k2.tasks@, i as int, tv, k.arena.nframes as nat, k.next_pid);
        assert(has_task(k2.tasks@, k.current->Some_0));
        assert forall|j: int| 0 <= j < old(k).tasks@.len() implies (#[trigger] old(k).tasks@[j]).pid < child_pid by {
            assert(old(k).tasks@[j].wf(k.arena.nframes as nat) && old(k).tasks@[j].pid < old(k).next_pid);
        }
    }
    child_pid as isize
}


/// Whether `name` is the zero-terminated string at user address `ptr` of the
/// running task: its bytes, none of them zero, followed by a zero byte.
pub open spec fn user_str_is(k: &Kernel, ptr: int, name: Seq<u8>) -> bool {
    &&& forall|i: int| 0 <= i < name.len() ==> #[trigger] name[i] != 0u8
    &&& user_holds(k, ptr, name)
    &&& user_byte_is(k.current_task().memory_set.view(), k.arena.bytes@, ptr + name.len(), 0u8)
}

/// No string that starts at `ptr` is shorter than `out`, whose bytes are
/// non-zero user bytes there.
proof fn lemma_no_shorter_str(k: &Kernel, ptr: int, out: Seq<u8>)
    requires
        k.wf(),
        k.current is Some,
        forall|j: int| 0 <= j < out.len() ==> #[trigger] out[j] != 0u8,
        user_holds(k, ptr, out),
    ensures
        forall|name: Seq<u8>| user_str_is(k, ptr, name) ==> name.len() >= out.len(),
{
    let v = k.current_task().memory_set.view();
    assert(k.current_task().wf(k.arena.nframes as nat));
    assert forall|name: Seq<u8>| user_str_is(k, ptr, name) implies name.len() >= out.len() by {
        if name.len() < out.len() {
            let l = name.len() as int;
            assert(user_byte_is(v, k.arena.bytes@, ptr + l, out[l]));
            lemma_user_byte_unique(v, k.arena.bytes@, ptr + l, out[l], 0u8, k.arena.nframes as nat);
        }
    }
}

/// No string starts at `ptr` whose bytes or terminator reach the unmapped
/// page of `ptr + out.len()`.
proof fn lemma_no_longer_str(k: &Kernel, ptr: int, out: Seq<u8>)
    requires
        k.wf(),
        k.current is Some,
        !is_mapped(k.current_task().memory_set.view(), vpn_of(ptr + out.len())),
    ensures
        forall|name: Seq<u8>| user_str_is(k, ptr, name) ==> name.len() < out.len(),
{
    let v = k.current_task().memory_set.view();
    assert(k.current_task().wf(k.arena.nframes as nat));
    assert forall|name: Seq<u8>| user_str_is(k, ptr, name) implies name.len() < out.len() by {
        let l = out.len() as int;
        if name.len() > l {
            assert(user_byte_is(v, k.arena.bytes@, ptr + l, name[l]));
            lemma_user_byte_mapped(v, k.arena.bytes@, ptr + l, name[l], k.arena.nframes as nat);
        } else if name.len() == l {
            lemma_user_byte_mapped(v, k.arena.bytes@, ptr + l, 0u8, k.arena.nframes as nat);
        }
    }
}

/// The string at a user address is unique.
pub proof fn lemma_user_str_unique(k: &Kernel, ptr: int, a: Seq<u8>, b: Seq<u8>)
    requires
        k.wf(),
        k.current is Some,
        user_str_is(k, ptr, a),
        user_str_is(k, ptr, b),
    ensures
        a == b,
{
    lemma_no_shorter_str(k, ptr, a);
    lemma_no_shorter_str(k, ptr, b);
    let v = k.current_task().memory_set.view();
    assert forall|i: int| 0 <= i < a.len() implies a[i] == b[i] by {
        assert(user_byte_is(v, k.arena.bytes@, ptr + i, a[i]));
        assert(user_byte_is(v, k.arena.bytes@, ptr + i, b[i]));
        lemma_user_byte_unique(v, k.arena.bytes@, ptr + i, a[i], b[i], k.arena.nframes as nat);
    }
    assert(a =~= b);
}

/// The zero-terminated string at user address `ptr` of the running task,
/// shorter than `MAX_PATH_LEN`; `None` exactly when there is no such string.
fn translated_str(k: &Kernel, ptr: usize) -> (r: Option<Vec<u8>>)
    requires
        k.wf(),
        k.current is Some,
    ensures
        r is Some ==> user_str_is(k, ptr as int, r->Some_0@) && r->Some_0@.len() < MAX_PATH_LEN,
        r is None ==> forall|name: Seq<u8>|
            !(user_str_is(k, ptr as int, name) && name.len() < MAX_PATH_LEN),
{
    let ci = k.current_index();
    let ms = &k.tasks[ci].memory_set;
    assert(k.tasks@[ci as int].wf(k.arena.nframes as nat));
    let mut out: Vec<u8> = Vec::new();
    let mut i: usize = 0;
    while i < MAX_PATH_LEN
        invariant
            k.wf(),
            k.current is Some,
            ms == &k.current_task().memory_set,
            ms.wf(k.arena.nframes as nat),
            i <= MAX_PATH_LEN,
            out@.len() == i,
            forall|j: int| 0 <= j < i ==> #[trigger] out@[j] != 0u8,
            user_holds(k, ptr as int, out@),
        decreases MAX_PATH_LEN - i,
    {
        proof {
            lemma_no_shorter_str(k, ptr as int, out@);
        }
        if ptr >= MAXVA || i >= MAXVA - ptr {
            proof {
                assert forall|j: int| 0 <= j < ms.view().len() implies !holds_page(#[trigger] ms.view()[j], vpn_of(ptr + i)) by {
                    assert(area_wf(ms.view()[j], k.arena.nframes as nat));
                }
                lemma_no_longer_str(k, ptr as int, out@);
            }
            return None;
        }
        match ms.read_user(&k.arena, ptr + i) {
            None => {
                proof {
                    lemma_no_longer_str(k, ptr as int, out@);
                }
                return None;
            },
            Some(b) => {
                if b == 0 {
                    return Some(out);
                }
                let ghost before = out@;
                out.push(b);
                assert forall|j: int| 0 <= j < out@.len() implies user_byte_is(
                    k.current_task().memory_set.view(),
                    k.arena.bytes@,
                    ptr + j,
                    #[trigger] out@[j],
                ) by {
                    if j < before.len() {
                        assert(out@[j] == before[j]);
                    }
                }
            },
        }
        i = i + 1;
    }
    proof {
        lemma_no_shorter_str(k, ptr as int, out@);
    }
    None
}

/// Whether the running task of `k` names program `a` by the string at user
/// address `path`: a zero-terminated string shorter than `MAX_PATH_LEN`
/// whose first program is `a`.
pub open spec fn names_app(k: &Kernel, path: int, a: int) -> bool {
    exists|name: Seq<u8>|
        user_str_is(k, path, name) && name.len() < MAX_PATH_LEN && #[trigger] first_app(
            k.apps@,
            name,
            a,
        )
}

/// Whether a program can be started from the string at user address `path`:
/// a task runs, the string names a program, and enough frames are free to
/// lay it out.
pub open spec fn can_load(k: &Kernel, path: int) -> bool {
    k.current is Some && exists|a: int|
        names_app(k, path, a) && k.arena.free@.len() >= space_pages(
            (#[trigger] k.apps@[a]).image.segments@,
        )
}

/// Reads the program name at `path` and finds its first program and whether
/// it fits in the free frames: `Some` exactly when `can_load` holds.
fn lookup_program(k: &Kernel, path: usize) -> (r: Option<usize>)
    requires
        k.wf(),
        k.current is Some,
    ensures
        r is Some <==> can_load(k, path as int),
        r is Some ==> names_app(k, path as int, r->Some_0 as int) && k.arena.free@.len()
            >= space_pages(k.apps@[r->Some_0 as int].image.segments@),
{
    let name = match translated_str(k, path) {
        None => {
            proof {
                assert forall|a: int| !names_app(k, path as int, a) by {
                    if names_app(k, path as int, a) {
                        let n = choose|n: Seq<u8>|
                            user_str_is(k, path as int, n) && n.len() < MAX_PATH_LEN
                                && #[trigger] first_app(k.apps@, n, a);
                    }
                }
            }
            return None;
        },
        Some(n) => n,
    };
    proof {
        assert forall|a: int| #[trigger] names_app(k, path as int, a) implies first_app(k.apps@, name@, a) by {
            let n = choose|n: Seq<u8>|
                user_str_is(k, path as int, n) && n.len() < MAX_PATH_LEN && #[trigger] first_app(
                    k.apps@,
                    n,
                    a,
                );
            lemma_user_str_unique(k, path as int, n, name@);
        }
    }
    let a = match find_app(&k.apps, &name) {
        None => {
            return None;
        },
        Some(a) => a,
    };
    assert(first_app(k.apps@, name@, a as int));
    assert(names_app(k, path as int, a as int));
    assert(k.apps@[a as int].image.wf());
    if k.arena.available() < k.apps[a].image.pages_needed() {
        proof {
            assert forall|b: int| names_app(k, path as int, b) implies k.arena.free@.len()
                < space_pages((#[trigger] k.apps@[b]).image.segments@) by {
                assert(first_app(k.apps@, name@, b));
                if b < a {
                    assert(k.apps@[b].name@ != name@);
                } else if b > a {
                    assert(k.apps@[a as int].name@ != name@);
                }
            }
        }
        return None;
    }
    Some(a)
}

/// Replaces the running task's program with the one named by the string at
/// user address `path`: 0 when `can_load` holds; -1 with the task unchanged
/// otherwise.
pub fn sys_exec(k: &mut Kernel, path: usize) -> (r: isize)
    requires
        old(k).wf(),
    ensures
        final(k).wf(),
        final(k).current == old(k).current,
        r == 0 || r == -1,
        r == 0 <==> can_load(old(k), path as int),
        r == -1 ==> final(k).tasks@ == old(k).tasks@ && final(k).arena.free@ == old(k).arena.free@,
        r == 0 ==> exists|a: int|
            {
                &&& names_app(old(k), path as int, a)
                &&& final(k).current_task().trap_cx.sepc == old(k).apps@[a].image.entry
                &&& final(k).current_task().heap_bottom == heap_bottom_of(
                    old(k).apps@[a].image.segments@,
                )
                &&& final(k).current_task().program_brk == final(k).current_task().heap_bottom
            },
        r == 0 ==> final(k).current_task().pid == old(k).current_task().pid
            && final(k).current_task().children@ == old(k).current_task().children@
            && final(k).current_task().task_status == old(k).current_task().task_status,
{
    if k.current.is_none() {
        return -1;
    }
    let a = match lookup_program(k, path) {
        None => {
            return -1;
        },
        Some(a) => a,
    };
    let i = k.current_index();
    let mut t = k.tasks.remove(i);
    assert(k.apps@[a as int].image.wf());
    let ok = t.exec(&mut k.arena, &k.apps[a].image);
    let ghost tv = t;
    k.tasks.insert(i, t);
    proof {
        assert(k.tasks@ =~= old(k).tasks@.update(i as int, tv));
        lemma_replace_keeps(old(k).tasks@, i as int, tv, k.arena.nframes as nat, k.next_pid);
        assert(has_task(old(k).tasks@, k.current->Some_0));
        assert(ok);
    }
    0
}

/// Starts a child of the running task from the program named by the string
/// at user address `path`, without copying the parent's address space; it
/// gets a fresh pid, joins the ready queue and the end of the parent's
/// children. Its pid when `can_load` holds and pids remain; -1 with nothing
/// changed otherwise.
pub fn sys_spawn(k: &mut Kernel, path: usize) -> (r: isize)
    requires
        old(k).wf(),
    ensures
        final(k).wf(),
        final(k).current == old(k).current,
        r != -1 <==> can_load(old(k), path as int) && old(k).next_pid < MAX_TASKS,
        r == -1 ==> final(k).tasks@ == old(k).tasks@ && final(k).ready@ == old(k).ready@
            && final(k).next_pid == old(k).next_pid && final(k).arena.free@ == old(k).arena.free@,
        r != -1 ==> {
            &&& old(k).current is Some
            &&& r == old(k).next_pid
            &&& final(k).next_pid == old(k).next_pid + 1
            &&& forall|j: int| 0 <= j < old(k).tasks@.len() ==> (#[trigger] old(k).tasks@[j]).pid < r
            &&& final(k).tasks@.len() == old(k).tasks@.len() + 1
            &&& final(k).tasks@.last().pid == r
            &&& final(k).tasks@.last().parent == Some(old(k).current->Some_0)
            &&& final(k).tasks@.last().task_status == TaskStatus::Ready
            &&& final(k).current_task().children@ == old(k).current_task().children@.push(r as usize)
            &&& final(k).ready@ == old(k).ready@.push(r as usize)
            &&& exists|a: int|
                {
                    &&& names_app(old(k), path as int, a)
                    &&& final(k).tasks@.last().trap_cx.sepc == old(k).apps@[a].image.entry
                    &&& final(k).tasks@.last().heap_bottom == heap_bottom_of(
                        old(k).apps@[a].image.segments@,
                    )
                }
        },
{
    if k.current.is_none() || k.next_pid >= MAX_TASKS {
        return -1;
    }
    let a = match lookup_program(k, path) {
        None => {
            return -1;
        },
        Some(a) => a,
    };
    let i = k.current_index();
    let child_pid = k.next_pid;
    assert(k.apps@[a as int].image.wf());
    let child = match k.tasks[i].spawn(&mut k.arena, &k.apps[a].image, child_pid, child_pid) {
        None => {
            return -1;
        },
        Some(c) => c,
    };
    let ghost k1 = *k;
    k.tasks.push(child);
    k.ready.push(child_pid);
    k.next_pid = child_pid + 1;
    proof {
        assert forall|j: int| 0 <= j < k1.tasks@.len() implies (#[trigger] k1.tasks@[j]).pid < child_pid by {
            assert(k1.tasks@[j].wf(k.arena.nframes as nat) && k1.tasks@[j].pid < k1.next_pid);
        }
        k.lemma_table_push_keeps(k1.tasks@, child);
        assert(has_task(k1.tasks@, k.current->Some_0));
        assert(k.tasks@[i as int] == k1.tasks@[i as int]);
        assert(k.tasks@[k.tasks@.len() - 1].pid == child_pid);
        assert(has_task(k.tasks@, child_pid));
        assert(index_of(k.tasks@, child_pid) == k.tasks@.len() - 1) by {
            let m = index_of(k.tasks@, child_pid);
            if m != k.tasks@.len() - 1 {
                assert(k.tasks@[m].pid != k.tasks@[k.tasks@.len() - 1].pid);
            }
        }
    }
    let ghost k2 = *k;
    let mut t = k.tasks.remove(i);
    t.children.push(child_pid);
    let ghost tv = t;
    k.tasks.insert(i, t);
    proof {
        assert(k.tasks@ =~= k2.tasks@.update(i as int, tv));
        assert(k2.tasks@[i as int].pid < child_pid);
        let old_kids = k2.tasks@[i as int].children@;
        assert forall|l: int| 0 <= l < tv.children@.len() implies tv.pid < #[trigger] tv.children@[l] by {
            if l < tv.children@.len() - 1 {
                assert(tv.children@[l] == old_kids[l]);
            }
        }
        assert forall|l: int| 0 <= l < tv.children@.len() implies has_task(k2.tasks@, #[trigger] tv.children@[l])
            && k2.tasks@[index_of(k2.tasks@, tv.children@[l])].parent == Some(tv.pid) by {
            if l < tv.children@.len() - 1 {
                assert(tv.children@[l] == old_kids[l]);
            }
        }
        assert forall|j1: int, j2: int|
            0 <= j1 < tv.children@.len() && 0 <= j2 < tv.children@.len() && j1 != j2 implies #[trigger] tv.children@[j1]
            != #[trigger] tv.children@[j2] by {
            let n = tv.children@.len() - 1;
            if j1 < n && j2 < n {
                assert(old_kids[j1] != old_kids[j2]);
            } else if j1 < n {
                assert(has_task(k1.tasks@, old_kids[j1]));
                let m = index_of(k1.tasks@, old_kids[j1]);
                assert(k1.tasks@[m].pid < child_pid);
            } else {
                assert(has_task(k1.tasks@, old_kids[j2]));
                let m = index_of(k1.tasks@, old_kids[j2]);
                assert(k1.tasks@[m].pid < child_pid);
            }
        }
        lemma_replace_keeps(k2.tasks@, i as int, tv, k.arena.nframes as nat, k.next_pid);
        assert(has_task(k2.tasks@, k.current->Some_0));
        assert forall|j: int| 0 <= j < old(k).tasks@.len() implies (#[trigger] old(k).tasks@[j]).pid < child_pid by {
            assert(old(k).tasks@[j].wf(k.arena.nframes as nat) && old(k).tasks@[j].pid < old(k).next_pid);
        }
    }
    child_pid as isize
}

} // verus!
