//! System-call dispatch: argument checks here, the work in the kernel.

use vstd::prelude::*;

verus! {

/// write syscall
pub const SYSCALL_WRITE: usize = 64;
/// exit syscall
pub const SYSCALL_EXIT: usize = 93;
/// yield syscall
pub const SYSCALL_YIELD: usize = 124;
/// gettime syscall
pub const SYSCALL_GET_TIME: usize = 169;
/// sbrk syscall
pub const SYSCALL_SBRK: usize = 214;
/// munmap syscall
pub const SYSCALL_MUNMAP: usize = 215;
/// mmap syscall
pub const SYSCALL_MMAP: usize = 222;
/// trace syscall
pub const SYSCALL_TRACE: usize = 410;

/// Size of a page in bytes.
pub const PAGE_SIZE: usize = 0x1000;

/// The system calls that are served, in the order of their counters.
pub const SYSCALL_CMD_ARRAY: [usize; 8] = [
    SYSCALL_WRITE,
    SYSCALL_EXIT,
    SYSCALL_YIELD,
    SYSCALL_GET_TIME,
    SYSCALL_TRACE,
    SYSCALL_MMAP,
    SYSCALL_MUNMAP,
    SYSCALL_SBRK,
];

/// The served system calls as a sequence.
pub open spec fn served_ids() -> Seq<usize> {
    seq![
        SYSCALL_WRITE,
        SYSCALL_EXIT,
        SYSCALL_YIELD,
        SYSCALL_GET_TIME,
        SYSCALL_TRACE,
        SYSCALL_MMAP,
        SYSCALL_MUNMAP,
        SYSCALL_SBRK,
    ]
}

/// Time of day, in seconds and microseconds.
pub struct TimeVal {
    pub sec: usize,
    pub usec: usize,
}

/// The kernel services that system calls hand their work to.
pub trait Kernel {
    /// Counts one more call of `syscall_id` for the current task.
    fn update_syscall_times(&mut self, syscall_id: usize);

    /// Writes `len` bytes at user address `buf` to file `fd`.
    fn write(&mut self, fd: usize, buf: usize, len: usize) -> isize;

    /// Ends the current task and switches to the next one.
    fn exit_current_and_run_next(&mut self, exit_code: i32);

    /// Puts the current task back among the ready ones and switches.
    fn suspend_current_and_run_next(&mut self);

    /// Stores the time of day at user address `ts`.
    fn get_time(&mut self, ts: usize, tz: usize) -> isize;

    /// Reads or writes a user byte, or reports a call count.
    fn trace(&mut self, request: usize, id: usize, data: usize) -> isize;

    /// Maps `len` bytes from page-aligned `start` with permissions `port`.
    fn map(&mut self, start: usize, len: usize, port: usize) -> isize;

    /// Unmaps `len` bytes from page-aligned `start`.
    fn unmap(&mut self, start: usize, len: usize) -> isize;

    /// Moves the program break by `size` bytes; the old break, if it moved.
    fn change_program_brk(&mut self, size: i32) -> Option<usize>;
}

/// `port` holds read, write or execute permission bits and nothing else.
pub open spec fn valid_port(port: usize) -> bool {
    1 <= port <= 7
}

/// Position of `syscall_id` among the served system calls.
pub fn index_of_syscall(syscall_id: usize) -> (r: Option<usize>)
    ensures
        r matches Some(i) ==> i < 8 && served_ids()[i as int] == syscall_id
            && forall|j: int| 0 <= j < i ==> served_ids()[j] != syscall_id,
        r is None ==> !served_ids().contains(syscall_id),
{
    let mut i: usize = 0;
    while i < 8
        invariant
            i <= 8,
            forall|j: int| 0 <= j < i ==> served_ids()[j] != syscall_id,
        decreases 8 - i,
    {
        let id = SYSCALL_CMD_ARRAY[i];
        assert(id == served_ids()[i as int]);
        if id == syscall_id {
            return Some(i);
        }
        i += 1;
    }
    None
}

/// Ends the current task with `exit_code`.
pub fn sys_exit<K: Kernel>(kernel: &mut K, exit_code: i32) {
    kernel.exit_current_and_run_next(exit_code);
}

/// The current task gives up the processor; always 0.
pub fn sys_yield<K: Kernel>(kernel: &mut K) -> (r: isize)
    ensures
        r == 0,
{
    kernel.suspend_current_and_run_next();
    0
}

/// Maps memory: -1 for permission bits out of range or an unaligned start,
/// otherwise what the kernel's mapping returns.
pub fn sys_mmap<K: Kernel>(kernel: &mut K, start: usize, len: usize, port: usize) -> (r: isize)
    ensures
        !valid_port(port) || start % PAGE_SIZE != 0 ==> r == -1,
{
    if port & !0x7 != 0 || port & 0x7 == 0 {
        assert(!valid_port(port)) by (bit_vector)
            requires
                port & !0x7usize != 0 || port & 0x7usize == 0,
        ;
        return -1;
    }
    assert(valid_port(port)) by (bit_vector)
        requires
            port & !0x7usize == 0 && port & 0x7usize != 0,
    ;
    if start % PAGE_SIZE != 0 {
        return -1;
    }
    kernel.map(start, len, port)
}

/// Unmaps memory: -1 for an unaligned start, otherwise what the kernel's
/// unmapping returns.
pub fn sys_munmap<K: Kernel>(kernel: &mut K, start: usize, len: usize) -> (r: isize)
    ensures
        start % PAGE_SIZE != 0 ==> r == -1,
{
    if start % PAGE_SIZE != 0 {
        return -1;
    }
    kernel.unmap(start, len)
}

/// Result of sbrk for what the kernel did with the break: the old break,
/// or -1 where it did not move.
pub fn sbrk_result(old_brk: Option<usize>) -> (r: isize)
    ensures
        old_brk matches Some(b) ==> r == b as isize,
        old_brk is None ==> r == -1,
{
    match old_brk {
        Some(b) => b as isize,
        None => -1,
    }
}

/// Moves the program break by `size` bytes.
pub fn sys_sbrk<K: Kernel>(kernel: &mut K, size: i32) -> (r: isize) {
    let old_brk = kernel.change_program_brk(size);
    sbrk_result(old_brk)
}

/// Handles system call `syscall_id` with its three arguments.
pub fn syscall<K: Kernel>(kernel: &mut K, syscall_id: usize, args: [usize; 3]) -> (r: isize)
    requires
        served_ids().contains(syscall_id),
    ensures
        syscall_id == SYSCALL_YIELD ==> r == 0,
        syscall_id == SYSCALL_MMAP && (!valid_port(args[2]) || args[0] % PAGE_SIZE != 0) ==> r == -1,
        syscall_id == SYSCALL_MUNMAP && args[0] % PAGE_SIZE != 0 ==> r == -1,
{
    kernel.update_syscall_times(syscall_id);
    if syscall_id == SYSCALL_WRITE {
        kernel.write(args[0], args[1], args[2])
    } else if syscall_id == SYSCALL_EXIT {
        sys_exit(kernel, args[0] as i32);
        0
    } else if syscall_id == SYSCALL_YIELD {
        sys_yield(kernel)
    } else if syscall_id == SYSCALL_GET_TIME {
        kernel.get_time(args[0], args[1])
    } else if syscall_id == SYSCALL_TRACE {
        kernel.trace(args[0], args[1], args[2])
    } else if syscall_id == SYSCALL_MMAP {
        sys_mmap(kernel, args[0], args[1], args[2])
    } else if syscall_id == SYSCALL_MUNMAP {
        sys_munmap(kernel, args[0], args[1])
    } else {
        sys_sbrk(kernel, args[0] as i32)
    }
}

} // verus!
