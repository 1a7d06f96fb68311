use vstd::prelude::*;

verus! {

/// The value of one mapping: a data block and the time it was written.
#[derive(Clone, Copy, Debug, PartialEq, Eq, Structural)]
pub struct BlockTime {
    pub block: u64,
    pub time: u32,
}

/// One point mapping of a device: a thin key and its value.
pub type Entry = (u64, BlockTime);

/// A run of mappings `(thin_begin, value, len)`: the keys
/// `thin_begin .. thin_begin + len` map to the data blocks
/// `value.block .. value.block + len`, all written at `value.time`.
pub type Mapping = (u64, BlockTime, u64);

/// The first key after the run.
pub open spec fn end_of(m: Mapping) -> int {
    m.0 + m.2
}

/// The run holds the key `k`.
pub open spec fn covers(m: Mapping, k: int) -> bool {
    m.0 <= k < m.0 + m.2
}

/// What the run maps the key `k` to, for a key that it holds.
pub open spec fn value_at(m: Mapping, k: int) -> (int, u32) {
    (m.1.block + (k - m.0), m.1.time)
}

/// A run as the streams hold it: not empty, and neither its keys nor its
/// data blocks leave the 64-bit range.
pub open spec fn well_formed(m: Mapping) -> bool {
    &&& m.2 >= 1
    &&& m.0 + m.2 <= u64::MAX + 1
    &&& m.1.block + m.2 <= u64::MAX + 1
}

} // verus!
