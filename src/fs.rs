//! The file interface and the status record of an inode.

use vstd::prelude::*;

verus! {

/// The kind of an inode, as mode bits.
#[derive(Clone, Copy, Debug, PartialEq, Eq)]
pub struct StatMode {
    pub bits: u32,
}

/// No kind.
pub const STAT_MODE_NULL: u32 = 0;
/// A directory.
pub const STAT_MODE_DIR: u32 = 0o040000;
/// A regular file.
pub const STAT_MODE_FILE: u32 = 0o100000;

/// The status of an inode.
pub struct Stat {
    /// device the file lives on
    pub dev: u64,
    /// inode number
    pub ino: u64,
    /// kind of the inode
    pub mode: StatMode,
    /// number of hard links
    pub nlink: u32,
    /// padding kept for layout compatibility
    pub pad: [u64; 7],
}

/// A file, a pipe or a terminal.
pub trait File {
    /// Whether the file can be read.
    fn readable(&self) -> bool;

    /// Whether the file can be written.
    fn writable(&self) -> bool;

    /// Reads into `buf`; the number of bytes read.
    fn read(&self, buf: &mut Vec<u8>) -> usize;

    /// Writes from `buf`; the number of bytes written.
    fn write(&self, buf: &Vec<u8>) -> usize;

    /// Fills `st` with the file's status; -1 where the file has none.
    fn fstat(&self, st: &mut Stat) -> isize {
        -1
    }
}

} // verus!
