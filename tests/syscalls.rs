use stride_kernel::syscall::{
    index_of_syscall, sbrk_result, sys_mmap, sys_munmap, sys_sbrk, sys_yield, syscall, Kernel,
    SYSCALL_MMAP, SYSCALL_SBRK, SYSCALL_TRACE, SYSCALL_WRITE, SYSCALL_YIELD,
};

#[derive(Default)]
struct FakeKernel {
    counted: Vec<usize>,
    yields: usize,
    maps: usize,
    brk: usize,
}

impl Kernel for FakeKernel {
    fn update_syscall_times(&mut self, syscall_id: usize) {
        self.counted.push(syscall_id);
    }
    fn write(&mut self, _fd: usize, _buf: usize, len: usize) -> isize {
        len as isize
    }
    fn exit_current_and_run_next(&mut self, _exit_code: i32) {}
    fn suspend_current_and_run_next(&mut self) {
        self.yields += 1;
    }
    fn get_time(&mut self, _ts: usize, _tz: usize) -> isize {
        0
    }
    fn trace(&mut self, _request: usize, _id: usize, _data: usize) -> isize {
        -1
    }
    fn map(&mut self, _start: usize, _len: usize, _port: usize) -> isize {
        self.maps += 1;
        0
    }
    fn unmap(&mut self, _start: usize, _len: usize) -> isize {
        0
    }
    fn change_program_brk(&mut self, size: i32) -> Option<usize> {
        if size < 0 {
            None
        } else {
            let old = self.brk;
            self.brk += size as usize;
            Some(old)
        }
    }
}

#[test]
fn index_of_known_and_unknown_calls() {
    assert_eq!(index_of_syscall(SYSCALL_WRITE), Some(0));
    assert_eq!(index_of_syscall(SYSCALL_TRACE), Some(4));
    assert_eq!(index_of_syscall(SYSCALL_SBRK), Some(7));
    assert_eq!(index_of_syscall(1), None);
}

#[test]
fn mmap_rejects_bad_port_and_alignment() {
    let mut k = FakeKernel::default();
    assert_eq!(sys_mmap(&mut k, 0x1000, 0x1000, 0), -1);
    assert_eq!(sys_mmap(&mut k, 0x1000, 0x1000, 8), -1);
    assert_eq!(sys_mmap(&mut k, 0x1001, 0x1000, 3), -1);
    assert_eq!(k.maps, 0);
    assert_eq!(sys_mmap(&mut k, 0x2000, 0x1000, 7), 0);
    assert_eq!(k.maps, 1);
}

#[test]
fn munmap_rejects_unaligned_start() {
    let mut k = FakeKernel::default();
    assert_eq!(sys_munmap(&mut k, 0x10, 0x1000), -1);
    assert_eq!(sys_munmap(&mut k, 0x3000, 0x1000), 0);
}

#[test]
fn sbrk_reports_old_break_or_failure() {
    assert_eq!(sbrk_result(Some(0x8000)), 0x8000);
    assert_eq!(sbrk_result(None), -1);
    let mut k = FakeKernel { brk: 0x4000, ..FakeKernel::default() };
    assert_eq!(sys_sbrk(&mut k, 0x100), 0x4000);
    assert_eq!(sys_sbrk(&mut k, -1), -1);
}

#[test]
fn dispatch_counts_and_routes_calls() {
    let mut k = FakeKernel::default();
    assert_eq!(sys_yield(&mut k), 0);
    assert_eq!(syscall(&mut k, SYSCALL_YIELD, [0, 0, 0]), 0);
    assert_eq!(k.yields, 2);
    assert_eq!(syscall(&mut k, SYSCALL_WRITE, [1, 0, 5]), 5);
    assert_eq!(syscall(&mut k, SYSCALL_MMAP, [0x1000, 0x1000, 9]), -1);
    assert_eq!(k.counted, vec![SYSCALL_YIELD, SYSCALL_WRITE, SYSCALL_MMAP]);
}
