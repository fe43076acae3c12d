//! The layout configuration: page size, internal fan-out bound and
//! per-entry data budget, fixed when a tree is created.

use vstd::prelude::*;

verus! {

/// Fixed size, in bytes, of the header every page carries.
pub const NODE_FIXED_SIZE: usize = 41;

/// Default page size in bytes.
pub const DEFAULT_PAGE_SIZE: usize = 16384;

/// Default bound on the key count of an internal node.
pub const DEFAULT_MAX_KEY: usize = 3;

/// Default per-entry data budget of a leaf page, in bytes.
pub const DEFAULT_DATA_LENGTH: usize = 256;

/// Keys are stored as 64-bit integers with a fixed eight-byte encoding.
pub const KEY_SIZE: usize = 8;

/// The process-wide layout configuration, fixed when a tree is created and
/// never mutated afterwards.
#[derive(Clone, Copy, Debug)]
pub struct Config {
    /// Size of every page in bytes.
    pub page_size: usize,
    /// An internal node holding more than this many keys is split.
    pub max_key: usize,
    /// Bytes a leaf entry may occupy before its value spills into overflow
    /// pages (length fields and key included).
    pub data_length: usize,
}

impl Config {
    /// Bytes of a value a leaf entry stores inline when the value overflows:
    /// the entry budget minus the key and the two length fields.
    pub open spec fn spec_slot_budget(self) -> int {
        self.data_length - KEY_SIZE - 16
    }

    /// The sizes are consistent: every entry shape fits its page, an overflow
    /// page can hold at least one payload byte, and an internal node can hold
    /// one key more than `max_key` while a split is in progress.
    pub open spec fn wf(self) -> bool {
        &&& self.data_length >= KEY_SIZE + 16 + 1
        &&& self.data_length + 8 + NODE_FIXED_SIZE <= self.page_size
        &&& NODE_FIXED_SIZE + 16 * (self.max_key + 2) + 8 <= self.page_size
        &&& self.page_size >= NODE_FIXED_SIZE + 16 + 8 + 1
        &&& self.page_size <= 0x1000_0000
        &&& self.max_key >= 1
    }

    /// Executable form of `spec_slot_budget`.
    pub fn slot_budget(&self) -> (r: usize)
        requires
            self.wf(),
        ensures
            r == self.spec_slot_budget(),
            r >= 1,
    {
        self.data_length - KEY_SIZE - 16
    }

    /// Checks `wf` at run time, for callers that take a configuration from
    /// outside.
    pub fn is_wf(&self) -> (r: bool)
        ensures
            r == self.wf(),
    {
        if self.page_size > 0x1000_0000 {
            return false;
        }
        if self.page_size < NODE_FIXED_SIZE + 16 + 8 + 1 {
            return false;
        }
        if self.data_length < KEY_SIZE + 16 + 1 {
            return false;
        }
        if self.data_length > self.page_size {
            return false;
        }
        if self.data_length + 8 + NODE_FIXED_SIZE > self.page_size {
            return false;
        }
        if self.max_key < 1 {
            return false;
        }
        if self.max_key > 0x100_0000 {
            return false;
        }
        if NODE_FIXED_SIZE + 16 * (self.max_key + 2) + 8 > self.page_size {
            return false;
        }
        true
    }
}

impl Default for Config {
    /// The default layout: 16384-byte pages, fan-out bound of three keys,
    /// 256-byte entry budget.
    fn default() -> (r: Self)
        ensures
            r.page_size == DEFAULT_PAGE_SIZE,
            r.max_key == DEFAULT_MAX_KEY,
            r.data_length == DEFAULT_DATA_LENGTH,
            r.wf(),
    {
        Config { page_size: DEFAULT_PAGE_SIZE, max_key: DEFAULT_MAX_KEY, data_length: DEFAULT_DATA_LENGTH }
    }
}

} // verus!
