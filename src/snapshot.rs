use vstd::prelude::*;
use crate::index::{entries_view, Entry, Index};

verus! {

/// The eight bytes of `x`, least significant first.
pub open spec fn le64(x: u64) -> Seq<u8> {
    seq![
        (x % 0x100) as u8,
        (x / 0x100 % 0x100) as u8,
        (x / 0x1_0000 % 0x100) as u8,
        (x / 0x100_0000 % 0x100) as u8,
        (x / 0x1_0000_0000 % 0x100) as u8,
        (x / 0x100_0000_0000 % 0x100) as u8,
        (x / 0x1_0000_0000_0000 % 0x100) as u8,
        (x / 0x100_0000_0000_0000 % 0x100) as u8,
    ]
}

/// A list of offsets, each as eight little-endian bytes.
pub open spec fn offsets_bytes(s: Seq<u64>) -> Seq<u8>
    decreases s.len(),
{
    if s.len() == 0 {
        Seq::empty()
    } else {
        offsets_bytes(s.drop_last()) + le64(s.last())
    }
}

/// Each entry as: the term's length, the term, the list's length, the list.
pub open spec fn entries_bytes(s: Seq<(Seq<u8>, Seq<u64>)>) -> Seq<u8>
    decreases s.len(),
{
    if s.len() == 0 {
        Seq::empty()
    } else {
        entries_bytes(s.drop_last()) + le64(s.last().0.len() as u64) + s.last().0 + le64(
            s.last().1.len() as u64,
        ) + offsets_bytes(s.last().1)
    }
}

/// The snapshot of a list of entries: their count, then each entry, every
/// length and offset as a fixed-width little-endian 64-bit integer.
pub open spec fn snapshot_bytes(s: Seq<(Seq<u8>, Seq<u64>)>) -> Seq<u8> {
    le64(s.len() as u64) + entries_bytes(s)
}

/// Relies on `bincode::serialize` with its default configuration (fixed-width
/// little-endian integers, lengths as `u64`): a vector of (bytes, offsets) pairs
/// becomes the bytes that `snapshot_bytes` describes. The default configuration
/// has no size limit and every vector reports its length, so encoding succeeds.
#[verifier::external_body]
fn bincode_serialize(entries: &Vec<Entry>) -> (r: Option<Vec<u8>>)
    ensures
        r.is_some(),
        r matches Some(b) ==> b@ == snapshot_bytes(entries_view(entries@)),
{
    bincode::serialize(entries).ok()
}

impl Index {
    /// The binary snapshot of the index, its terms in byte-wise order.
    pub fn snapshot(&self) -> (r: Option<Vec<u8>>)
        ensures
            r.is_some(),
            r matches Some(b) ==> b@ == snapshot_bytes(self.view_entries()),
    {
        bincode_serialize(&self.entries)
    }
}

} // verus!
