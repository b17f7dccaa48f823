//! The kernel's task state: every live task, the running one, the ready
//! queue, physical memory, the program images and the clock, passed
//! explicitly to every system call.
use vstd::prelude::*;
use crate::frame::FrameArena;
use crate::memory_set::{ProgramImage, space_pages};
use crate::task::{TaskControlBlock, MAX_TASKS};

verus! {

/// A program that tasks can be started from, under its name.
pub struct App {
    pub name: Vec<u8>,
    pub image: ProgramImage,
}

/// Whether some task of `tasks` has pid `pid`.
pub open spec fn has_task(tasks: Seq<TaskControlBlock>, pid: usize) -> bool {
    exists|i: int| 0 <= i < tasks.len() && (#[trigger] tasks[i]).pid == pid
}

/// Position of the task with pid `pid`.
pub open spec fn index_of(tasks: Seq<TaskControlBlock>, pid: usize) -> int {
    choose|i: int| 0 <= i < tasks.len() && (#[trigger] tasks[i]).pid == pid
}

/// Whether no two tasks of `tasks` share a pid.
pub open spec fn pids_unique(tasks: Seq<TaskControlBlock>) -> bool {
    forall|i: int, j: int|
        0 <= i < tasks.len() && 0 <= j < tasks.len() && i != j ==> (#[trigger] tasks[i]).pid
            != (#[trigger] tasks[j]).pid
}

/// Whether every task's children have larger pids than the task itself.
pub open spec fn children_above(tasks: Seq<TaskControlBlock>) -> bool {
    forall|i: int, j: int|
        0 <= i < tasks.len() && 0 <= j < tasks[i].children@.len() ==> tasks[i].pid
            < #[trigger] tasks[i].children@[j]
}

/// Whether every child pid a task lists names a live task whose parent is
/// that task, and no task lists a child twice.
pub open spec fn children_live(tasks: Seq<TaskControlBlock>) -> bool {
    &&& forall|i: int, j: int|
        0 <= i < tasks.len() && 0 <= j < tasks[i].children@.len() ==> has_task(
            tasks,
            #[trigger] tasks[i].children@[j],
        ) && tasks[index_of(tasks, tasks[i].children@[j])].parent == Some(tasks[i].pid)
    &&& forall|i: int, j1: int, j2: int|
        0 <= i < tasks.len() && 0 <= j1 < tasks[i].children@.len() && 0 <= j2
            < tasks[i].children@.len() && j1 != j2 ==> #[trigger] tasks[i].children@[j1]
            != #[trigger] tasks[i].children@[j2]
}

/// Replacing a task by a well-formed one with the same pid keeps the table's
/// pids and positions.
pub proof fn lemma_replace_keeps(
    before: Seq<TaskControlBlock>,
    i: int,
    t: TaskControlBlock,
    nframes: nat,
    next_pid: usize,
)
    requires
        0 <= i < before.len(),
        t.pid == before[i].pid,
        t.wf(nframes),
        forall|j: int| 0 <= j < t.children@.len() ==> t.pid < #[trigger] t.children@[j],
        forall|j: int|
            0 <= j < before.len() ==> (#[trigger] before[j]).wf(nframes) && before[j].pid < next_pid,
        pids_unique(before),
        children_above(before),
        t.parent == before[i].parent,
    ensures
        children_live(before) && (t.children@ == before[i].children@ || ((forall|j: int|
            0 <= j < t.children@.len() ==> has_task(before, #[trigger] t.children@[j])
                && before[index_of(before, t.children@[j])].parent == Some(t.pid)) && (forall|
            j1: int,
            j2: int,
        |
            0 <= j1 < t.children@.len() && 0 <= j2 < t.children@.len() && j1 != j2
                ==> #[trigger] t.children@[j1] != #[trigger] t.children@[j2]))) ==> children_live(
            before.update(i, t),
        ),
        forall|j: int|
            0 <= j < before.update(i, t).len() ==> (#[trigger] before.update(i, t)[j]).wf(nframes)
                && before.update(i, t)[j].pid < next_pid,
        pids_unique(before.update(i, t)),
        children_above(before.update(i, t)),
        forall|p: usize| #[trigger] has_task(before, p) == has_task(before.update(i, t), p),
        forall|p: usize| has_task(before, p) ==> #[trigger] index_of(before.update(i, t), p) == index_of(before, p),
{
    let after = before.update(i, t);
    assert forall|a: int, b: int|
        0 <= a < after.len() && 0 <= b < after.len() && a != b implies (#[trigger] after[a]).pid
            != (#[trigger] after[b]).pid by {
        assert(after[a].pid == before[a].pid && after[b].pid == before[b].pid);
    }
    assert forall|p: usize| #[trigger] has_task(before, p) == has_task(after, p) by {
        if has_task(before, p) {
            let k = choose|k: int| 0 <= k < before.len() && (#[trigger] before[k]).pid == p;
            assert(after[k].pid == p);
        }
        if has_task(after, p) {
            let k = choose|k: int| 0 <= k < after.len() && (#[trigger] after[k]).pid == p;
            assert(before[k].pid == p);
        }
    }
    assert forall|p: usize| has_task(before, p) implies #[trigger] index_of(after, p) == index_of(before, p) by {
        let k = index_of(before, p);
        let k2 = index_of(after, p);
        assert(has_task(after, p));
        assert(after[k2].pid == p);
        assert(before[k2].pid == p);
        if k != k2 {
            assert(before[k].pid != before[k2].pid);
        }
    }    if children_live(before) && (t.children@ == before[i].children@ || ((forall|j: int|
        0 <= j < t.children@.len() ==> has_task(before, #[trigger] t.children@[j])
            && before[index_of(before, t.children@[j])].parent == Some(t.pid)) && (forall|
        j1: int,
        j2: int,
    |
        0 <= j1 < t.children@.len() && 0 <= j2 < t.children@.len() && j1 != j2
            ==> #[trigger] t.children@[j1] != #[trigger] t.children@[j2]))) {
        assert forall|a: int, j: int|
            0 <= a < after.len() && 0 <= j < after[a].children@.len() implies has_task(
            after,
            #[trigger] after[a].children@[j],
        ) && after[index_of(after, after[a].children@[j])].parent == Some(after[a].pid) by {
            let c = after[a].children@[j];
            if a == i {
                assert(c == t.children@[j]);
                if t.children@ == before[i].children@ {
                    assert(c == before[i].children@[j]);
                }
            } else {
                assert(after[a] == before[a]);
                assert(c == before[a].children@[j]);
            }
            assert(has_task(before, c));
            assert(index_of(after, c) == index_of(before, c));
        }
        assert forall|a: int, j1: int, j2: int|
            0 <= a < after.len() && 0 <= j1 < after[a].children@.len() && 0 <= j2
                < after[a].children@.len() && j1 != j2 implies #[trigger] after[a].children@[j1]
            != #[trigger] after[a].children@[j2] by {
            if a == i {
                if t.children@ == before[i].children@ {
                    assert(before[i].children@[j1] != before[i].children@[j2]);
                }
            } else {
                assert(after[a] == before[a]);
                assert(before[a].children@[j1] != before[a].children@[j2]);
            }
        }
    }
}

/// Removing a task keeps every other task where its pid finds it.
pub proof fn lemma_remove_keeps(before: Seq<TaskControlBlock>, i: int, nframes: nat, next_pid: usize)
    requires
        0 <= i < before.len(),
        forall|j: int|
            0 <= j < before.len() ==> (#[trigger] before[j]).wf(nframes) && before[j].pid < next_pid,
        pids_unique(before),
        children_above(before),
    ensures
        children_live(before) && (forall|a: int, j: int|
            0 <= a < before.len() && 0 <= j < before[a].children@.len() ==> #[trigger] before[a].children@[j]
                != before[i].pid) ==> children_live(before.remove(i)),
        forall|j: int|
            0 <= j < before.remove(i).len() ==> (#[trigger] before.remove(i)[j]).wf(nframes)
                && before.remove(i)[j].pid < next_pid,
        pids_unique(before.remove(i)),
        children_above(before.remove(i)),
        !has_task(before.remove(i), before[i].pid),
        forall|p: usize|
            #[trigger] has_task(before.remove(i), p) == (has_task(before, p) && p != before[i].pid),
        forall|p: usize|
            has_task(before, p) && p != before[i].pid ==> before.remove(i)[#[trigger] index_of(
                before.remove(i),
                p,
            )] == before[index_of(before, p)],
{
    let after = before.remove(i);
    assert forall|j: int| 0 <= j < after.len() implies after[j] == before[if j < i { j } else { j + 1 }] by {}
    assert forall|a: int, b: int|
        0 <= a < after.len() && 0 <= b < after.len() && a != b implies (#[trigger] after[a]).pid
            != (#[trigger] after[b]).pid by {
        let a0 = if a < i { a } else { a + 1 };
        let b0 = if b < i { b } else { b + 1 };
        assert(before[a0].pid != before[b0].pid);
    }
    assert forall|a: int, j: int|
        0 <= a < after.len() && 0 <= j < after[a].children@.len() implies after[a].pid
            < #[trigger] after[a].children@[j] by {
        let a0 = if a < i { a } else { a + 1 };
        assert(after[a] == before[a0]);
    }
    if has_task(after, before[i].pid) {
        let k = choose|k: int| 0 <= k < after.len() && (#[trigger] after[k]).pid == before[i].pid;
        let k0 = if k < i { k } else { k + 1 };
        assert(before[k0].pid == before[i].pid);
    }
    assert forall|p: usize| #[trigger] has_task(after, p) == (has_task(before, p) && p != before[i].pid) by {
        if has_task(after, p) {
            let k = choose|k: int| 0 <= k < after.len() && (#[trigger] after[k]).pid == p;
            let k0 = if k < i { k } else { k + 1 };
            assert(before[k0].pid == p);
        }
        if has_task(before, p) && p != before[i].pid {
            let k0 = choose|k: int| 0 <= k < before.len() && (#[trigger] before[k]).pid == p;
            let k = if k0 < i { k0 } else { k0 - 1 };
            assert(after[k].pid == p);
        }
    }
    assert forall|p: usize| has_task(before, p) && p != before[i].pid implies after[#[trigger] index_of(after, p)] == before[index_of(before, p)] by {
        assert(has_task(after, p));
        let k = index_of(after, p);
        let k0 = if k < i { k } else { k + 1 };
        let m = index_of(before, p);
        assert(before[k0].pid == p);
        if k0 != m {
            assert(before[k0].pid != before[m].pid);
        }
    }    if children_live(before) && (forall|a: int, j: int|
        0 <= a < before.len() && 0 <= j < before[a].children@.len() ==> #[trigger] before[a].children@[j]
            != before[i].pid) {
        assert forall|a: int, j: int|
            0 <= a < after.len() && 0 <= j < after[a].children@.len() implies has_task(
            after,
            #[trigger] after[a].children@[j],
        ) && after[index_of(after, after[a].children@[j])].parent == Some(after[a].pid) by {
            let a0 = if a < i { a } else { a + 1 };
            assert(after[a] == before[a0]);
            let c = before[a0].children@[j];
            assert(has_task(before, c));
            assert(c != before[i].pid);
        }
        assert forall|a: int, j1: int, j2: int|
            0 <= a < after.len() && 0 <= j1 < after[a].children@.len() && 0 <= j2
                < after[a].children@.len() && j1 != j2 implies #[trigger] after[a].children@[j1]
            != #[trigger] after[a].children@[j2] by {
            let a0 = if a < i { a } else { a + 1 };
            assert(after[a] == before[a0]);
            assert(before[a0].children@[j1] != before[a0].children@[j2]);
        }
    }
}

/// Whether `a` is the first program of `apps` named `name`.
pub open spec fn first_app(apps: Seq<App>, name: Seq<u8>, a: int) -> bool {
    &&& 0 <= a < apps.len()
    &&& apps[a].name@ == name
    &&& forall|j: int| 0 <= j < a ==> (#[trigger] apps[j]).name@ != name
}

/// The whole state of the task core.
pub struct Kernel {
    /// Every live task, exited ones included until they are reaped.
    pub tasks: Vec<TaskControlBlock>,
    /// Pid of the running task.
    pub current: Option<usize>,
    /// Pids of the tasks waiting to run, in queue order.
    pub ready: Vec<usize>,
    /// The next pid to hand out; pids are never reused.
    pub next_pid: usize,
    /// Physical memory.
    pub arena: FrameArena,
    /// Programs that can be started.
    pub apps: Vec<App>,
    /// Clock reading in microseconds.
    pub now_us: usize,
}

impl Kernel {
    /// Whether memory is consistent, every task is well-formed with a pid
    /// below `next_pid` that no other task has, every listed child is a live
    /// task whose parent is the lister, the running task exists, and every
    /// program image is well-formed.
    pub open spec fn wf(&self) -> bool {
        &&& self.arena.wf()
        &&& self.next_pid <= MAX_TASKS
        &&& forall|i: int|
            0 <= i < self.tasks@.len() ==> (#[trigger] self.tasks@[i]).wf(self.arena.nframes as nat)
                && self.tasks@[i].pid < self.next_pid
        &&& pids_unique(self.tasks@)
        &&& children_above(self.tasks@)
        &&& children_live(self.tasks@)
        &&& self.current is Some ==> has_task(self.tasks@, self.current->Some_0)
        &&& forall|i: int| 0 <= i < self.apps@.len() ==> (#[trigger] self.apps@[i]).image.wf()
    }

    /// The running task.
    pub open spec fn current_task(&self) -> TaskControlBlock {
        self.tasks@[index_of(self.tasks@, self.current->Some_0)]
    }

    /// A kernel with `nframes` frames of memory, the given programs, and no
    /// task yet.
    pub fn new(nframes: usize, apps: Vec<App>) -> (r: Kernel)
        requires
            1 <= nframes <= 0x4_0000,
            forall|i: int| 0 <= i < apps@.len() ==> (#[trigger] apps@[i]).image.wf(),
        ensures
            r.wf(),
            r.tasks@.len() == 0,
            r.current is None,
            r.ready@.len() == 0,
            r.next_pid == 0,
            r.arena.nframes == nframes,
            r.apps@ == apps@,
            r.now_us == 0,
    {
        Kernel {
            tasks: Vec::new(),
            current: None,
            ready: Vec::new(),
            next_pid: 0,
            arena: FrameArena::new(nframes),
            apps,
            now_us: 0,
        }
    }

    /// Sets the clock reading to `now_us` microseconds.
    pub fn set_time(&mut self, now_us: usize)
        requires
            old(self).wf(),
        ensures
            final(self).wf(),
            final(self).now_us == now_us,
            final(self).tasks@ == old(self).tasks@,
            final(self).current == old(self).current,
    {
        self.now_us = now_us;
    }

    /// Position of the task with pid `pid`.
    pub fn find_task(&self, pid: usize) -> (r: Option<usize>)
        requires
            pids_unique(self.tasks@),
        ensures
            r is None ==> !has_task(self.tasks@, pid),
            r is Some ==> r->Some_0 < self.tasks@.len() && r->Some_0 == index_of(self.tasks@, pid)
                && self.tasks@[r->Some_0 as int].pid == pid,
    {
        let mut i: usize = 0;
        while i < self.tasks.len()
            invariant
                i <= self.tasks@.len(),
                pids_unique(self.tasks@),
                forall|j: int| 0 <= j < i ==> (#[trigger] self.tasks@[j]).pid != pid,
            decreases self.tasks@.len() - i,
        {
            if self.tasks[i].pid == pid {
                assert(self.tasks@[i as int].pid == pid);
                assert(has_task(self.tasks@, pid));
                let ghost k = index_of(self.tasks@, pid);
                assert(self.tasks@[k].pid == pid);
                proof {
                    if k != i as int {
                        assert(self.tasks@[k].pid != self.tasks@[i as int].pid);
                    }
                }
                return Some(i);
            }
            i = i + 1;
        }
        None
    }

    /// Starts a first task from the program named `name`, with no parent,
    /// and queues it; its pid, or `None` when no program has that name, when
    /// pids or frames run out.
    pub fn add_initproc(&mut self, name: &Vec<u8>) -> (r: Option<usize>)
        requires
            old(self).wf(),
        ensures
            r is Some <==> old(self).next_pid < MAX_TASKS && exists|a: int|
                first_app(old(self).apps@, name@, a) && old(self).arena.free@.len() >= space_pages(
                    (#[trigger] old(self).apps@[a]).image.segments@,
                ),
            final(self).wf(),
            final(self).current == old(self).current,
            r is Some ==> r->Some_0 == old(self).next_pid && final(self).next_pid == old(self).next_pid + 1 && final(self).ready@ == old(self).ready@.push(r->Some_0)
                && final(self).tasks@.len() == old(self).tasks@.len() + 1 && final(self).tasks@.last().pid == r->Some_0 && final(self).tasks@.last().parent is None,
            r is None ==> final(self).tasks@ == old(self).tasks@,
    {
        let a = match find_app(&self.apps, name) {
            None => {
                return None;
            },
            Some(a) => a,
        };
        assert(self.apps@[a as int].image.wf());
        proof {
            assert forall|b: int| first_app(old(self).apps@, name@, b) implies b == a by {
                if b < a {
                    assert(self.apps@[b].name@ != name@);
                } else if b > a {
                    assert(self.apps@[a as int].name@ != name@);
                }
            }
            assert(first_app(old(self).apps@, name@, a as int));
        }
        if self.next_pid >= MAX_TASKS || self.arena.available() < self.apps[a].image.pages_needed() {
            return None;
        }
        let pid = self.next_pid;
        let t = TaskControlBlock::new(&mut self.arena, &self.apps[a].image, pid, pid);
        self.tasks.push(t);
        self.ready.push(pid);
        self.next_pid = pid + 1;
        proof {
            self.lemma_table_push_keeps(old(self).tasks@, t);
        }
        Some(pid)
    }

    /// Pushing a well-formed task with a fresh pid keeps the table
    /// well-formed.
    pub proof fn lemma_table_push_keeps(&self, before: Seq<TaskControlBlock>, t: TaskControlBlock)
        requires
            self.tasks@ == before.push(t),
            t.pid < self.next_pid,
            t.wf(self.arena.nframes as nat),
            forall|i: int| 0 <= i < before.len() ==> (#[trigger] before[i]).pid < t.pid,
            pids_unique(before),
            children_above(before),
            forall|j: int| 0 <= j < t.children@.len() ==> t.pid < #[trigger] t.children@[j],
        ensures
            children_live(before) && t.children@.len() == 0 ==> children_live(self.tasks@),
            pids_unique(self.tasks@),
            children_above(self.tasks@),
            forall|p: usize| has_task(before, p) ==> #[trigger] index_of(self.tasks@, p) == index_of(before, p),
            forall|p: usize| has_task(before, p) ==> has_task(self.tasks@, p),
    {
        assert forall|p: usize| has_task(before, p) implies has_task(self.tasks@, p) by {
            let i = choose|i: int| 0 <= i < before.len() && (#[trigger] before[i]).pid == p;
            assert(self.tasks@[i] == before[i]);
        }
        assert forall|i: int, j: int|
            0 <= i < self.tasks@.len() && 0 <= j < self.tasks@.len() && i != j implies (
            #[trigger] self.tasks@[i]).pid != (#[trigger] self.tasks@[j]).pid by {
            if i < before.len() && j < before.len() {
                assert(self.tasks@[i] == before[i] && self.tasks@[j] == before[j]);
            } else if i < before.len() {
                assert(self.tasks@[i] == before[i]);
            } else {
                assert(self.tasks@[j] == before[j]);
            }
        }
        assert forall|i: int, j: int|
            0 <= i < self.tasks@.len() && 0 <= j < self.tasks@[i].children@.len() implies self.tasks@[i].pid
                < #[trigger] self.tasks@[i].children@[j] by {
            if i < before.len() {
                assert(self.tasks@[i] == before[i]);
            }
        }
        assert forall|p: usize| has_task(before, p) implies #[trigger] index_of(self.tasks@, p) == index_of(before, p) by {
            let k = index_of(before, p);
            let k2 = index_of(self.tasks@, p);
            assert(self.tasks@[k].pid == p);
            assert(has_task(self.tasks@, p));
            if k != k2 {
                assert(self.tasks@[k].pid != self.tasks@[k2].pid);
            }
        }        if children_live(before) && t.children@.len() == 0 {
            assert forall|a: int, j: int|
                0 <= a < self.tasks@.len() && 0 <= j < self.tasks@[a].children@.len() implies has_task(
                self.tasks@,
                #[trigger] self.tasks@[a].children@[j],
            ) && self.tasks@[index_of(self.tasks@, self.tasks@[a].children@[j])].parent == Some(
                self.tasks@[a].pid,
            ) by {
                assert(a < before.len());
                assert(self.tasks@[a] == before[a]);
                let c = before[a].children@[j];
                assert(has_task(before, c));
            }
            assert forall|a: int, j1: int, j2: int|
                0 <= a < self.tasks@.len() && 0 <= j1 < self.tasks@[a].children@.len() && 0 <= j2
                    < self.tasks@[a].children@.len() && j1 != j2 implies #[trigger] self.tasks@[a].children@[j1]
                != #[trigger] self.tasks@[a].children@[j2] by {
                assert(self.tasks@[a] == before[a]);
                assert(before[a].children@[j1] != before[a].children@[j2]);
            }
        }
    }
}

/// Whether `a` and `b` hold the same bytes.
pub fn bytes_eq(a: &Vec<u8>, b: &Vec<u8>) -> (r: bool)
    ensures
        r == (a@ == b@),
{
    if a.len() != b.len() {
        return false;
    }
    let mut i: usize = 0;
    while i < a.len()
        invariant
            a@.len() == b@.len(),
            i <= a@.len(),
            forall|j: int| 0 <= j < i ==> a@[j] == b@[j],
        decreases a@.len() - i,
    {
        if a[i] != b[i] {
            return false;
        }
        i = i + 1;
    }
    assert(a@ =~= b@);
    true
}

/// Position of the first program named `name`.
pub fn find_app(apps: &Vec<App>, name: &Vec<u8>) -> (r: Option<usize>)
    ensures
        r is None ==> forall|i: int| 0 <= i < apps@.len() ==> (#[trigger] apps@[i]).name@ != name@,
        r is Some ==> r->Some_0 < apps@.len() && apps@[r->Some_0 as int].name@ == name@,
        r is Some ==> forall|i: int| 0 <= i < r->Some_0 ==> (#[trigger] apps@[i]).name@ != name@,
{
    let mut i: usize = 0;
    while i < apps.len()
        invariant
            i <= apps@.len(),
            forall|j: int| 0 <= j < i ==> (#[trigger] apps@[j]).name@ != name@,
        decreases apps@.len() - i,
    {
        if bytes_eq(&apps[i].name, name) {
            return Some(i);
        }
        i = i + 1;
    }
    None
}

} // verus!
