//! A process as the monitor sees it, and the two display modes.

use vstd::prelude::*;

verus! {

/// The two ways the monitor can run: the classic blue `Lite` window and the
/// modern indigo `Full` window. Besides the look, they differ in a few rules
/// of parsing, CPU accounting, searching and labelling.
#[derive(Clone, Copy, Debug)]
pub enum Mode {
    Lite,
    Full,
}

/// One process, read from `/proc/<pid>/status` and `/proc/<pid>/stat`.
#[derive(Debug)]
pub struct ProcInfo {
    pub pid: u32,
    pub name: String,
    pub state: char,
    pub vmsize_kb: u64,
    pub rss_kb: u64,
    pub utime: u64,
    pub stime: u64,
}

/// `a + b`, or `u64::MAX` when the sum does not fit.
pub open spec fn sat_add(a: u64, b: u64) -> u64 {
    if a + b > u64::MAX {
        u64::MAX
    } else {
        (a + b) as u64
    }
}

/// `a - b`, or `0` when `b > a`.
pub open spec fn sat_sub(a: u64, b: u64) -> u64 {
    if a < b {
        0
    } else {
        (a - b) as u64
    }
}

/// `a + b` modulo 2^64.
pub open spec fn wrap_add(a: u64, b: u64) -> u64 {
    if a + b > u64::MAX {
        (a + b - 0x1_0000_0000_0000_0000) as u64
    } else {
        (a + b) as u64
    }
}

impl ProcInfo {
    /// User plus system time in clock ticks, saturating at `u64::MAX`.
    pub fn total_time(&self) -> (r: u64)
        ensures
            r == sat_add(self.utime, self.stime),
    {
        self.utime.saturating_add(self.stime)
    }
}

} // verus!
