use task_core::config::{MAXVA, PAGE_SIZE, TRAMPOLINE, TRAP_RETURN_ADDR, USER_STACK_TOP};
use task_core::context::{TaskContext, TrapContext};
use task_core::manager::{App, Kernel};
use task_core::memory_set::{AreaKind, ProgramImage, Segment};
use task_core::perm::MapPermission;
use task_core::process::{
    run_next, sys_exec, sys_exit, sys_fork, sys_get_time, sys_getpid, sys_mmap, sys_munmap,
    sys_sbrk, sys_set_priority, sys_spawn, sys_task_info, sys_waitpid, sys_yield,
};
use task_core::frame::FrameArena;
use task_core::task::{TaskControlBlock, TaskControlInfo, TaskStatus};

const HEAP_BOTTOM: usize = 19 * 4096;

fn image(entry: usize) -> ProgramImage {
    ProgramImage {
        segments: vec![Segment {
            start_vpn: 16,
            end_vpn: 18,
            perm: MapPermission { r: true, w: false, x: true, u: true },
        }],
        entry,
    }
}

fn boot() -> Kernel {
    let apps = vec![
        App { name: b"init".to_vec(), image: image(0x10000) },
        App { name: b"hello".to_vec(), image: image(0x10040) },
    ];
    let mut k = Kernel::new(64, apps);
    assert_eq!(k.add_initproc(&b"init".to_vec()), Some(0));
    assert_eq!(run_next(&mut k), Some(0));
    k
}

fn cur(k: &Kernel) -> usize {
    k.find_task(k.current.unwrap()).unwrap()
}

fn regions(k: &Kernel) -> Vec<(usize, usize, AreaKind)> {
    k.tasks[cur(k)].memory_set.areas.iter().map(|a| (a.start_vpn, a.end_vpn, a.kind)).collect()
}

fn read(k: &Kernel, va: usize, n: usize) -> Vec<u8> {
    let ms = &k.tasks[cur(k)].memory_set;
    (0..n).map(|i| ms.read_user(&k.arena, va + i).unwrap()).collect()
}

fn write(k: &mut Kernel, va: usize, bytes: &[u8]) {
    let i = cur(k);
    assert!(k.tasks[i].memory_set.copy_out(&mut k.arena, va, &bytes.to_vec()));
}

#[test]
fn mmap_then_munmap_restores_areas() {
    let mut k = boot();
    let before = regions(&k);
    let free = k.arena.available();
    assert_eq!(sys_mmap(&mut k, 0x1000_0000, 0x2800, 3), 0);
    assert_eq!(regions(&k).len(), before.len() + 1);
    assert_eq!(k.arena.available(), free - 3);
    let last = k.tasks[cur(&k)].memory_set.areas.last().unwrap();
    assert_eq!((last.start_vpn, last.end_vpn), (0x1_0000, 0x1_0003));
    assert_eq!(last.perm, MapPermission { r: true, w: true, x: false, u: true });
    assert_eq!(sys_munmap(&mut k, 0x1000_0000, 0x2800), 0);
    assert_eq!(regions(&k), before);
    assert_eq!(k.arena.available(), free);
}

#[test]
fn mmap_overlapping_any_area_is_refused() {
    let mut k = boot();
    assert_eq!(sys_sbrk(&mut k, 0x2000), HEAP_BOTTOM as isize);
    assert_eq!(sys_mmap(&mut k, 0x2000_0000, 0x1000, 1), 0);
    let before = regions(&k);
    let free = k.arena.available();
    // heap
    assert_eq!(sys_mmap(&mut k, HEAP_BOTTOM, 0x1000, 3), -1);
    // user stack
    assert_eq!(sys_mmap(&mut k, USER_STACK_TOP - 0x1000, 0x1000, 3), -1);
    // trampoline
    assert_eq!(sys_mmap(&mut k, TRAMPOLINE, 0x1000, 1), -1);
    // program segment
    assert_eq!(sys_mmap(&mut k, 0x10000, 0x10, 1), -1);
    // another mapping, partly
    assert_eq!(sys_mmap(&mut k, 0x1FFF_F000, 0x2000, 3), -1);
    assert_eq!(regions(&k), before);
    assert_eq!(k.arena.available(), free);
}

#[test]
fn mmap_bad_arguments_are_refused() {
    let mut k = boot();
    let before = regions(&k);
    assert_eq!(sys_mmap(&mut k, 0x1000_0010, 0x1000, 3), -1);
    assert_eq!(sys_mmap(&mut k, MAXVA - 0x1000, 0x2000, 3), -1);
    assert_eq!(sys_mmap(&mut k, 0x1000_0000, 0x1000, 0), -1);
    assert_eq!(sys_mmap(&mut k, 0x1000_0000, 0x1000, 8), -1);
    assert_eq!(sys_mmap(&mut k, 0x1000_0000, 0x1000, 9), -1);
    assert_eq!(regions(&k), before);
    assert_eq!(sys_mmap(&mut k, 0x1000_0000, 0x1000, 7), 0);
}

#[test]
fn mmap_refused_when_frames_run_out() {
    let mut k = boot();
    let free = k.arena.available();
    assert_eq!(sys_mmap(&mut k, 0x1000_0000, (free + 1) * PAGE_SIZE, 3), -1);
    assert_eq!(k.arena.available(), free);
    assert_eq!(sys_mmap(&mut k, 0x1000_0000, free * PAGE_SIZE, 3), 0);
    assert_eq!(k.arena.available(), 0);
}

#[test]
fn munmap_of_an_inexact_region_is_refused() {
    let mut k = boot();
    assert_eq!(sys_mmap(&mut k, 0x1000_0000, 0x2000, 3), 0);
    let before = regions(&k);
    assert_eq!(sys_munmap(&mut k, 0x1000_0000, 0x1000), -1);
    assert_eq!(sys_munmap(&mut k, 0x1000_1000, 0x1000), -1);
    assert_eq!(sys_munmap(&mut k, 0x1000_0000, 0x3000), -1);
    assert_eq!(sys_munmap(&mut k, 0x3000_0000, 0x1000), -1);
    // the heap and the stack are not request mappings
    assert_eq!(sys_munmap(&mut k, USER_STACK_TOP - 0x2000, 0x2000), -1);
    assert_eq!(regions(&k), before);
    assert_eq!(sys_munmap(&mut k, 0x1000_0000, 0x2000), 0);
}

#[test]
fn sbrk_round_trip() {
    let mut k = boot();
    assert_eq!(sys_sbrk(&mut k, 0), HEAP_BOTTOM as isize);
    let free = k.arena.available();
    assert_eq!(sys_sbrk(&mut k, 5000), HEAP_BOTTOM as isize);
    assert_eq!(k.arena.available(), free - 2);
    assert_eq!(sys_sbrk(&mut k, -5000), (HEAP_BOTTOM + 5000) as isize);
    let t = &k.tasks[cur(&k)];
    assert_eq!(t.program_brk, t.heap_bottom);
    assert_eq!(t.program_brk, HEAP_BOTTOM);
    assert_eq!(k.arena.available(), free);
}

#[test]
fn sbrk_below_heap_bottom_is_refused() {
    let mut k = boot();
    assert_eq!(sys_sbrk(&mut k, 100), HEAP_BOTTOM as isize);
    assert_eq!(sys_sbrk(&mut k, -101), -1);
    assert_eq!(k.tasks[cur(&k)].program_brk, HEAP_BOTTOM + 100);
    assert_eq!(sys_sbrk(&mut k, -100), (HEAP_BOTTOM + 100) as isize);
    assert_eq!(sys_sbrk(&mut k, -1), -1);
    assert_eq!(k.tasks[cur(&k)].program_brk, HEAP_BOTTOM);
}

#[test]
fn sbrk_cannot_grow_into_a_mapping() {
    let mut k = boot();
    assert_eq!(sys_mmap(&mut k, HEAP_BOTTOM + 0x1000, 0x1000, 3), 0);
    assert_eq!(sys_sbrk(&mut k, 0x1000), HEAP_BOTTOM as isize);
    assert_eq!(sys_sbrk(&mut k, 1), -1);
    assert_eq!(k.tasks[cur(&k)].program_brk, HEAP_BOTTOM + 0x1000);
}

#[test]
fn waitpid_lifecycle() {
    let mut k = boot();
    let ptr = USER_STACK_TOP - 16;
    assert_eq!(sys_waitpid(&mut k, -1, ptr), -1);
    let child = sys_fork(&mut k);
    assert_eq!(child, 1);
    assert_eq!(sys_waitpid(&mut k, -1, ptr), -2);
    assert_eq!(sys_waitpid(&mut k, 1, ptr), -2);
    assert_eq!(sys_waitpid(&mut k, 5, ptr), -1);
    // the child runs and exits
    assert_eq!(sys_yield(&mut k), 0);
    assert_eq!(sys_getpid(&k), 1);
    sys_exit(&mut k, 7);
    assert_eq!(k.current, Some(0));
    assert_eq!(sys_getpid(&k), 0);
    assert_eq!(sys_waitpid(&mut k, -1, ptr), 1);
    assert_eq!(read(&k, ptr, 4), vec![7, 0, 0, 0]);
    assert!(k.find_task(1).is_none());
    assert_eq!(k.tasks[cur(&k)].children.len(), 0);
    assert_eq!(sys_waitpid(&mut k, -1, ptr), -1);
}

#[test]
fn waitpid_writes_negative_exit_code() {
    let mut k = boot();
    let ptr = USER_STACK_TOP - 8;
    assert_eq!(sys_fork(&mut k), 1);
    assert_eq!(sys_yield(&mut k), 0);
    sys_exit(&mut k, -3);
    assert_eq!(sys_waitpid(&mut k, 1, ptr), 1);
    assert_eq!(read(&k, ptr, 4), vec![0xFD, 0xFF, 0xFF, 0xFF]);
}

#[test]
fn waitpid_with_unwritable_pointer_reaps_nothing() {
    let mut k = boot();
    assert_eq!(sys_fork(&mut k), 1);
    assert_eq!(sys_yield(&mut k), 0);
    sys_exit(&mut k, 1);
    assert_eq!(sys_waitpid(&mut k, -1, 0x3000_0000), -1);
    assert!(k.find_task(1).is_some());
    assert_eq!(sys_waitpid(&mut k, -1, USER_STACK_TOP - 4), 1);
}

#[test]
fn fork_gives_distinct_fresh_pids_and_zero_in_child() {
    let mut k = boot();
    assert_eq!(sys_getpid(&k), 0);
    k.tasks[0].trap_cx.x[10] = 42;
    let child = sys_fork(&mut k);
    assert_eq!(child, 1);
    let ci = k.find_task(1).unwrap();
    assert_eq!(k.tasks[ci].trap_cx.x[10], 0);
    assert_eq!(k.tasks[ci].parent, Some(0));
    assert_eq!(k.tasks[ci].task_cx.ra, TRAP_RETURN_ADDR);
    assert_eq!(k.tasks[cur(&k)].trap_cx.x[10], 42);
    assert_eq!(k.tasks[cur(&k)].children, vec![1]);
    assert_eq!(sys_getpid(&k), 0);
    assert_eq!(sys_yield(&mut k), 0);
    assert_eq!(sys_getpid(&k), 1);
    let grandchild = sys_fork(&mut k);
    assert_eq!(grandchild, 2);
}

#[test]
fn fork_copies_memory() {
    let mut k = boot();
    assert_eq!(sys_mmap(&mut k, 0x1000_0000, 0x1000, 3), 0);
    write(&mut k, 0x1000_0000, &[1, 2, 3]);
    assert_eq!(sys_fork(&mut k), 1);
    write(&mut k, 0x1000_0000, &[9, 9, 9]);
    assert_eq!(sys_yield(&mut k), 0);
    assert_eq!(sys_getpid(&k), 1);
    assert_eq!(read(&k, 0x1000_0000, 3), vec![1, 2, 3]);
}

fn expected_time_bytes(sec: u64, usec: u64) -> Vec<u8> {
    let mut v = sec.to_le_bytes().to_vec();
    v.extend_from_slice(&usec.to_le_bytes());
    v
}

#[test]
fn get_time_across_noncontiguous_pages() {
    let mut k = boot();
    let a = 0x1000_0000;
    assert_eq!(sys_mmap(&mut k, a, 0x1000, 3), 0);
    assert_eq!(sys_mmap(&mut k, 0x2000_0000, 0x1000, 3), 0);
    assert_eq!(sys_mmap(&mut k, a + 0x1000, 0x1000, 3), 0);
    let ms = &k.tasks[cur(&k)].memory_set;
    let first_frame = ms.translate(a / PAGE_SIZE).unwrap();
    let second_frame = ms.translate(a / PAGE_SIZE + 1).unwrap();
    assert_ne!(first_frame + 1, second_frame);
    k.set_time(3_500_000);
    assert_eq!(sys_get_time(&mut k, a + PAGE_SIZE - 8, 0), 0);
    assert_eq!(read(&k, a + PAGE_SIZE - 8, 16), expected_time_bytes(3, 500_000));
}

#[test]
fn get_time_across_contiguous_pages() {
    let mut k = boot();
    let a = 0x1000_0000;
    assert_eq!(sys_mmap(&mut k, a, 0x2000, 3), 0);
    let ms = &k.tasks[cur(&k)].memory_set;
    let first_frame = ms.translate(a / PAGE_SIZE).unwrap();
    let second_frame = ms.translate(a / PAGE_SIZE + 1).unwrap();
    assert_eq!(first_frame + 1, second_frame);
    k.set_time(3_500_000);
    assert_eq!(sys_get_time(&mut k, a + PAGE_SIZE - 8, 0), 0);
    assert_eq!(read(&k, a + PAGE_SIZE - 8, 16), expected_time_bytes(3, 500_000));
}

#[test]
fn get_time_into_unmapped_page_fails() {
    let mut k = boot();
    assert_eq!(sys_mmap(&mut k, 0x1000_0000, 0x1000, 3), 0);
    assert_eq!(sys_get_time(&mut k, 0x1000_0000 + PAGE_SIZE - 8, 0), -1);
    let mut idle = Kernel::new(8, vec![]);
    assert_eq!(sys_get_time(&mut idle, 0x1000, 0), -1);
    assert_eq!(sys_task_info(&mut idle, 0x1000), -1);
}

#[test]
fn task_info_reports_status_counts_and_time() {
    let mut k = boot();
    k.set_time(5_000_000);
    let a = 0x1000_0000;
    assert_eq!(sys_mmap(&mut k, a, 0x2000, 3), 0);
    let i = cur(&k);
    k.tasks[i].task_info.incr_syscall_times(64);
    k.tasks[i].task_info.incr_syscall_times(64);
    k.tasks[i].task_info.incr_syscall_times(169);
    k.set_time(7_250_000);
    let ptr = a + PAGE_SIZE - 100;
    assert_eq!(sys_task_info(&mut k, ptr), 0);
    let bytes = read(&k, ptr, 2016);
    assert_eq!(&bytes[0..4], &[2, 0, 0, 0]);
    assert_eq!(&bytes[4 + 64 * 4..4 + 65 * 4], &[2, 0, 0, 0]);
    assert_eq!(&bytes[4 + 169 * 4..4 + 170 * 4], &[1, 0, 0, 0]);
    assert_eq!(&bytes[4 + 63 * 4..4 + 64 * 4], &[0, 0, 0, 0]);
    // first ran at boot, at time zero
    assert_eq!(&bytes[2008..2016], &7250u64.to_le_bytes());
}

#[test]
fn set_priority_bounds() {
    let mut k = boot();
    assert_eq!(sys_set_priority(&mut k, 1), -1);
    assert_eq!(sys_set_priority(&mut k, 0), -1);
    assert_eq!(sys_set_priority(&mut k, -4), -1);
    assert_eq!(sys_set_priority(&mut k, 5), 5);
    assert_eq!(k.tasks[cur(&k)].priority, 5);
    assert_eq!(sys_set_priority(&mut k, 2), 2);
}

#[test]
fn exec_replaces_the_program() {
    let mut k = boot();
    let ptr = USER_STACK_TOP - 64;
    write(&mut k, ptr, b"hello\0");
    assert_eq!(sys_sbrk(&mut k, 0x1000), HEAP_BOTTOM as isize);
    assert_eq!(sys_exec(&mut k, ptr), 0);
    let t = &k.tasks[cur(&k)];
    assert_eq!(t.pid, 0);
    assert_eq!(t.trap_cx.sepc, 0x10040);
    assert_eq!(t.trap_cx.x[2], USER_STACK_TOP);
    assert_eq!(t.program_brk, HEAP_BOTTOM);
    write(&mut k, ptr, b"nosuch\0");
    assert_eq!(sys_exec(&mut k, ptr), -1);
    assert_eq!(sys_exec(&mut k, 0x3000_0000), -1);
}

#[test]
fn spawn_starts_a_child_from_an_image() {
    let mut k = boot();
    let ptr = USER_STACK_TOP - 64;
    write(&mut k, ptr, b"hello\0");
    assert_eq!(sys_spawn(&mut k, ptr), 1);
    let ci = k.find_task(1).unwrap();
    assert_eq!(k.tasks[ci].parent, Some(0));
    assert_eq!(k.tasks[ci].trap_cx.sepc, 0x10040);
    assert_eq!(k.tasks[ci].task_status, TaskStatus::Ready);
    assert_eq!(k.tasks[cur(&k)].children, vec![1]);
    write(&mut k, ptr, b"nosuch\0");
    assert_eq!(sys_spawn(&mut k, ptr), -1);
}

#[test]
fn scheduling_stamps_first_run_once() {
    let mut k = Kernel::new(64, vec![App { name: b"init".to_vec(), image: image(0x10000) }]);
    k.add_initproc(&b"init".to_vec()).unwrap();
    k.set_time(4_000_000);
    assert_eq!(run_next(&mut k), Some(0));
    assert_eq!(k.tasks[0].task_status, TaskStatus::Running);
    assert_eq!(k.tasks[0].task_info.time, Some(4000));
    k.set_time(9_000_000);
    assert_eq!(sys_yield(&mut k), 0);
    assert_eq!(k.tasks[0].task_info.time, Some(4000));
    assert_eq!(k.tasks[0].get_task_info(9000).time, 5000);
}

#[test]
fn task_contexts() {
    let z = TaskContext::zero_init();
    assert_eq!((z.ra, z.sp, z.s), (0, 0, [0; 12]));
    let t = TaskContext::goto_trap_return(0x1234);
    assert_eq!((t.ra, t.sp, t.s), (TRAP_RETURN_ADDR, 0x1234, [0; 12]));
    let tc = TrapContext::app_init_context(0x10000, 0x2000, 1, 2, 3);
    assert_eq!(tc.x.len(), 32);
    assert_eq!(tc.x[2], 0x2000);
    assert_eq!(tc.sepc, 0x10000);
}

#[test]
fn port_conversion_table() {
    assert_eq!(MapPermission::convert_for_user(0), None);
    assert_eq!(
        MapPermission::convert_for_user(1),
        Some(MapPermission { r: true, w: false, x: false, u: true })
    );
    assert_eq!(
        MapPermission::convert_for_user(6),
        Some(MapPermission { r: false, w: true, x: true, u: true })
    );
    assert_eq!(MapPermission::convert_for_user(8), None);
    assert_eq!(MapPermission::convert_for_user(15), None);
}

#[test]
fn page_range_helper() {
    assert_eq!(task_core::addr::area_range(0x1000, 0x1001), (1, 3));
    assert_eq!(task_core::addr::area_range(0x1800, 0x800), (1, 2));
    assert_eq!(task_core::addr::area_range(0x1000, 0), (1, 1));
    assert!(task_core::addr::aligned(0x3000));
    assert!(!task_core::addr::aligned(0x3001));
}

#[test]
fn kernel_stacks_do_not_overlap() {
    let (b0, t0) = task_core::task::kernel_stack_position(0);
    let (b1, t1) = task_core::task::kernel_stack_position(1);
    assert_eq!(t0, TRAMPOLINE);
    assert_eq!(t0 - b0, 0x2000);
    assert!(t1 < b0);
    assert_eq!(t1 - b1, 0x2000);
}

#[test]
fn syscall_counters() {
    let mut info = TaskControlInfo::default();
    assert_eq!(info.syscall_times.len(), 500);
    info.incr_syscall_times(93);
    assert_eq!(info.syscall_times[93], 1);
    info.syscall_times[93] = u32::MAX;
    info.incr_syscall_times(93);
    assert_eq!(info.syscall_times[93], u32::MAX);
    info.try_set_first_run_times(10);
    info.try_set_first_run_times(20);
    assert_eq!(info.time, Some(10));
}

#[test]
fn exit_keeps_children_linked() {
    let mut k = boot();
    assert_eq!(sys_fork(&mut k), 1);
    sys_exit(&mut k, 0);
    assert_eq!(k.current, Some(1));
    let pi = k.find_task(0).unwrap();
    assert_eq!(k.tasks[pi].task_status, TaskStatus::Exited);
    assert_eq!(k.tasks[pi].children, vec![1]);
}

#[test]
fn sbrk_shrink_then_grow_round_trip() {
    let mut k = boot();
    assert_eq!(sys_sbrk(&mut k, 8192), HEAP_BOTTOM as isize);
    let free = k.arena.available();
    assert_eq!(sys_sbrk(&mut k, -4000), (HEAP_BOTTOM + 8192) as isize);
    assert_eq!(sys_sbrk(&mut k, 4000), (HEAP_BOTTOM + 4192) as isize);
    assert_eq!(k.tasks[cur(&k)].program_brk, HEAP_BOTTOM + 8192);
    assert_eq!(k.arena.available(), free);
}

#[test]
fn fork_and_spawn_fail_when_frames_run_out() {
    let mut k = boot();
    let ptr = USER_STACK_TOP - 64;
    write(&mut k, ptr, b"hello\0");
    let free = k.arena.available();
    // leave fewer frames than a copy of the address space needs
    assert_eq!(sys_mmap(&mut k, 0x1000_0000, (free - 3) * PAGE_SIZE, 3), 0);
    let tasks = k.tasks.len();
    let left = k.arena.available();
    assert_eq!(sys_fork(&mut k), -1);
    assert_eq!(k.arena.available(), left);
    assert_eq!(sys_spawn(&mut k, ptr), -1);
    assert_eq!(sys_exec(&mut k, ptr), -1);
    assert_eq!(k.tasks.len(), tasks);
    assert_eq!(k.next_pid, 1);
    assert_eq!(k.tasks[cur(&k)].trap_cx.sepc, 0x10000);
}

#[test]
fn unmapped_addresses_do_not_translate() {
    let k = boot();
    let ms = &k.tasks[cur(&k)].memory_set;
    assert_eq!(ms.translate(0), None);
    assert!(ms.translate(16).is_some());
    assert_eq!(ms.translate(TRAMPOLINE / PAGE_SIZE), Some(0));
    assert_eq!(ms.read_user(&k.arena, 0x5000_0000 / 2), None);
}

#[test]
fn initproc_needs_a_known_program() {
    let mut k = Kernel::new(64, vec![App { name: b"init".to_vec(), image: image(0x10000) }]);
    assert_eq!(k.add_initproc(&b"other".to_vec()), None);
    assert_eq!(run_next(&mut k), None);
    assert_eq!(k.add_initproc(&b"init".to_vec()), Some(0));
}

#[test]
fn higher_priority_runs_no_less_often() {
    let mut k = boot();
    assert_eq!(sys_fork(&mut k), 1);
    assert_eq!(sys_set_priority(&mut k, 64), 64);
    let mut counts = [0usize; 2];
    for _ in 0..200 {
        let p = sys_getpid(&k) as usize;
        counts[p] += 1;
        assert_eq!(sys_yield(&mut k), 0);
    }
    assert!(counts[0] >= counts[1], "{:?}", counts);
    assert!(counts[0] > 2 * counts[1], "{:?}", counts);
}

#[test]
fn equal_priorities_alternate() {
    let mut k = boot();
    assert_eq!(sys_fork(&mut k), 1);
    let mut seen = Vec::new();
    for _ in 0..6 {
        seen.push(sys_getpid(&k));
        assert_eq!(sys_yield(&mut k), 0);
    }
    assert_eq!(seen, vec![0, 1, 0, 1, 0, 1]);
}

#[test]
fn new_task_layout() {
    let mut arena = FrameArena::new(32);
    let free = arena.available();
    let t = TaskControlBlock::new(&mut arena, &image(0x10000), 3, 77);
    assert_eq!(arena.available(), free - 5);
    assert_eq!(t.get_user_token(), 77);
    assert_eq!(t.get_trap_cx().sepc, 0x10000);
    assert_eq!(t.get_trap_cx().x[2], USER_STACK_TOP);
    assert_eq!(t.get_trap_cx().kernel_sp, t.kernel_stack_top);
    assert_eq!(t.kernel_stack_top, task_core::task::kernel_stack_position(3).1);
    assert_eq!(t.task_cx.ra, TRAP_RETURN_ADDR);
    assert_eq!(t.task_status, TaskStatus::Ready);
    assert_eq!((t.heap_bottom, t.program_brk), (HEAP_BOTTOM, HEAP_BOTTOM));
    let kinds: Vec<AreaKind> = t.memory_set.areas.iter().map(|a| a.kind).collect();
    assert_eq!(
        kinds,
        vec![AreaKind::Program, AreaKind::Heap, AreaKind::UserStack, AreaKind::TrapContext, AreaKind::Trampoline]
    );
    assert_eq!(t.memory_set.translate(0x3FFF_E000 / PAGE_SIZE), Some(t.trap_cx_ppn));
    assert_eq!(t.get_task_info(100).time, 0);
}

#[test]
fn user_writes_need_a_writable_user_page() {
    let mut k = boot();
    // read-only program segment
    assert_eq!(sys_get_time(&mut k, 0x10000, 0), -1);
    // kernel-only trap-context page and trampoline
    assert_eq!(sys_get_time(&mut k, 0x3FFF_E000, 0), -1);
    assert_eq!(sys_task_info(&mut k, TRAMPOLINE), -1);
    // a read-only request mapping
    assert_eq!(sys_mmap(&mut k, 0x1000_0000, 0x1000, 1), 0);
    assert_eq!(sys_get_time(&mut k, 0x1000_0000, 0), -1);
    assert_eq!(sys_get_time(&mut k, USER_STACK_TOP - 16, 0), 0);
}

#[test]
fn program_name_ending_at_a_page_end() {
    let mut k = boot();
    let a = MAXVA - 2 * PAGE_SIZE - 0x3000_0000;
    assert_eq!(sys_mmap(&mut k, a, 0x1000, 3), 0);
    let ptr = a + PAGE_SIZE - 6;
    write(&mut k, ptr, b"hello\0");
    assert_eq!(sys_spawn(&mut k, ptr), 1);
    // a name running into an unmapped page
    write(&mut k, a + PAGE_SIZE - 3, b"hel");
    assert_eq!(sys_spawn(&mut k, a + PAGE_SIZE - 3), -1);
}
