//! Byte layouts of the records that system calls write to user memory.
use vstd::prelude::*;
use crate::task::{TaskInfo, TaskStatus, TimeVal};

verus! {

/// The `n` low bytes of `x`, least significant first.
pub open spec fn le_bytes(x: nat, n: nat) -> Seq<u8>
    decreases n,
{
    if n == 0 {
        Seq::empty()
    } else {
        seq![(x % 256) as u8] + le_bytes(x / 256, (n - 1) as nat)
    }
}

/// Appends the `n` low bytes of `x` to `out`, least significant first.
pub fn push_le(out: &mut Vec<u8>, x: usize, n: usize)
    ensures
        final(out)@ == old(out)@ + le_bytes(x as nat, n as nat),
{
    let mut v: usize = x;
    let mut k: usize = 0;
    while k < n
        invariant
            k <= n,
            out@ + le_bytes(v as nat, (n - k) as nat) == old(out)@ + le_bytes(x as nat, n as nat),
        decreases n - k,
    {
        let ghost before = out@;
        let ghost m = (n - k) as nat;
        assert(le_bytes(v as nat, m) == seq![(v % 256) as u8] + le_bytes((v / 256) as nat, (m - 1) as nat));
        out.push((v % 256) as u8);
        assert(out@ + le_bytes((v / 256) as nat, (m - 1) as nat) =~= before + le_bytes(v as nat, m));
        v = v / 256;
        k = k + 1;
    }
    assert(out@ + le_bytes(v as nat, 0) =~= out@);
}

/// Code of a status in the task-information record.
pub open spec fn status_code(s: TaskStatus) -> nat {
    match s {
        TaskStatus::UnInit => 0,
        TaskStatus::Ready => 1,
        TaskStatus::Running => 2,
        TaskStatus::Exited => 3,
    }
}

/// The 16-byte record of a time: seconds, then microseconds, each as 8
/// little-endian bytes.
pub open spec fn time_val_bytes(t: TimeVal) -> Seq<u8> {
    le_bytes(t.sec as nat, 8) + le_bytes(t.usec as nat, 8)
}

/// System call counts, each as 4 little-endian bytes.
pub open spec fn counts_bytes(s: Seq<u32>) -> Seq<u8>
    decreases s.len(),
{
    if s.len() == 0 {
        Seq::empty()
    } else {
        counts_bytes(s.drop_last()) + le_bytes(s.last() as nat, 4)
    }
}

/// The task-information record: status as 4 bytes, the counts, 4 bytes of
/// padding, then the running time as 8 bytes, all little-endian.
pub open spec fn task_info_bytes(status: TaskStatus, counts: Seq<u32>, time: usize) -> Seq<u8> {
    le_bytes(status_code(status), 4) + counts_bytes(counts) + le_bytes(0, 4) + le_bytes(
        time as nat,
        8,
    )
}

/// The record of `t` as bytes.
pub fn encode_time_val(t: TimeVal) -> (r: Vec<u8>)
    ensures
        r@ == time_val_bytes(t),
{
    let mut out: Vec<u8> = Vec::new();
    push_le(&mut out, t.sec, 8);
    push_le(&mut out, t.usec, 8);
    assert(out@ =~= time_val_bytes(t));
    out
}

/// The record of `info` as bytes.
pub fn encode_task_info(info: &TaskInfo) -> (r: Vec<u8>)
    ensures
        r@ == task_info_bytes(info.status, info.syscall_times@, info.time),
{
    let mut out: Vec<u8> = Vec::new();
    let code: usize = match info.status {
        TaskStatus::UnInit => 0,
        TaskStatus::Ready => 1,
        TaskStatus::Running => 2,
        TaskStatus::Exited => 3,
    };
    push_le(&mut out, code, 4);
    let ghost head = out@;
    let s = &info.syscall_times;
    let mut i: usize = 0;
    while i < s.len()
        invariant
            i <= s@.len(),
            s == &info.syscall_times,
            out@ == head + counts_bytes(s@.subrange(0, i as int)),
        decreases s@.len() - i,
    {
        assert(s@.subrange(0, i + 1).drop_last() =~= s@.subrange(0, i as int));
        assert(s@.subrange(0, i + 1).last() == s@[i as int]);
        push_le(&mut out, s[i] as usize, 4);
        i = i + 1;
        assert(out@ =~= head + counts_bytes(s@.subrange(0, i as int)));
    }
    assert(s@.subrange(0, i as int) =~= s@);
    push_le(&mut out, 0, 4);
    push_le(&mut out, info.time, 8);
    assert(out@ =~= task_info_bytes(info.status, info.syscall_times@, info.time));
    out
}

} // verus!
