use vstd::prelude::*;

pub mod copyright;
pub mod layout;
pub mod pman;
pub mod round_trip;
pub mod zlib;

use layout::{header_size_spec, le_bytes_u32, le_u32};

verus! {

/// Reads the little-endian `u32` that starts at `at`.
pub fn read_u32_le(input: &[u8], at: usize) -> (r: u32)
    requires
        at + 4 <= input@.len(),
    ensures
        r == le_u32(input@, at as int),
{
    let b0 = input[at] as u32;
    let b1 = input[at + 1] as u32;
    let b2 = input[at + 2] as u32;
    let b3 = input[at + 3] as u32;
    b0 + b1 * 256 + b2 * 65536 + b3 * 16777216
}

/// Appends the little-endian bytes of `x`.
pub fn push_u32_le(buf: &mut Vec<u8>, x: u32)
    ensures
        final(buf)@ == old(buf)@ + le_bytes_u32(x as nat),
{
    buf.push((x % 256) as u8);
    buf.push((x / 256 % 256) as u8);
    buf.push((x / 65536 % 256) as u8);
    buf.push((x / 16777216) as u8);
    assert(final(buf)@ =~= old(buf)@ + le_bytes_u32(x as nat));
}

/// Whether four bytes start at `at` and hold the `u32` zero: the reserved
/// fields of an entry. Fewer than four bytes there is a failure.
pub fn u32_zero(input: &[u8], at: usize) -> (r: bool)
    ensures
        r == (at + 4 <= input@.len() && le_u32(input@, at as int) == 0),
{
    input.len() >= 4 && at <= input.len() - 4 && read_u32_le(input, at) == 0
}

/// Bytes of an entry table of `file_entry_count` records.
pub fn entry_table_size(file_entry_count: u32) -> (r: u64)
    ensures
        r == 16 * file_entry_count,
{
    file_entry_count as u64 * 16
}

/// Bytes of the header and of an entry table of `entry_count` records: the
/// offset at which the payloads of a packed archive start.
pub fn header_size_for(entry_count: u32) -> (r: u64)
    ensures
        r == header_size_spec(entry_count as nat),
        r == 64 + entry_count * 16,
{
    layout::HEADER_SIZE as u64 + entry_table_size(entry_count)
}

/// Where one payload lies, as the entry table gives it.
#[derive(Debug, Clone, Copy, PartialEq, Eq, Structural)]
pub struct FileEntry {
    pub offset: u32,
    pub size: u32,
}

impl FileEntry {
    pub fn new(offset: u32, size: u32) -> (r: FileEntry)
        ensures
            r.offset == offset,
            r.size == size,
    {
        FileEntry { offset, size }
    }

    pub fn with_size(self, size: u32) -> (r: FileEntry)
        ensures
            r.offset == self.offset,
            r.size == size,
    {
        FileEntry { offset: self.offset, size }
    }
}

} // verus!
