use vstd::prelude::*;
use vstd::utf8::*;

use super::copyright::{copyright_text_bytes, zeros};
use super::FileEntry;
use crate::error::FormatError;

verus! {

/// Bytes of the header: tag, entry count, copyright field, null terminator.
pub const HEADER_SIZE: usize = 64;

/// Bytes of one record of the entry table.
pub const ENTRY_SIZE: usize = 16;

/// The longest copyright notice, in bytes, that the header can hold.
pub const COPYRIGHT_MAX_SIZE: usize = 55;

/// The tag that starts every archive: `PMAN`.
pub open spec fn magic() -> Seq<u8> {
    seq![0x50u8, 0x4du8, 0x41u8, 0x4eu8]
}

/// Bytes of the header and of an entry table of `n` records: where the
/// payload region starts.
pub open spec fn header_size_spec(n: nat) -> nat {
    64 + 16 * n
}

/// What an archive holds: its copyright notice and its payloads, in order.
pub struct ArchiveView {
    pub copyright: Seq<char>,
    pub files: Seq<Seq<u8>>,
}

// ---- Decoding -------------------------------------------------------------

/// The entry count that the header of `b` declares.
pub open spec fn entry_count(b: Seq<u8>) -> nat {
    le_u32(b, 4)
}

/// The 55-byte copyright field of the header of `b`.
pub open spec fn copyright_field(b: Seq<u8>) -> Seq<u8> {
    b.subrange(8, 63)
}

/// The header of `b`: its copyright notice and entry count, or why it is
/// not a header.
pub open spec fn header_spec(b: Seq<u8>) -> Result<(Seq<char>, nat), FormatError> {
    if b.len() < 64 {
        Err(FormatError::TruncatedInput)
    } else if b.subrange(0, 4) != magic() {
        Err(FormatError::BadMagic)
    } else if b[63] != 0 || copyright_text_bytes(copyright_field(b)).len() > 55 {
        Err(FormatError::UnterminatedCopyright)
    } else {
        Ok((decode_utf8(copyright_text_bytes(copyright_field(b))), entry_count(b)))
    }
}

/// Field `k` (0 to 3) of record `i` of the entry table of `b`.
pub open spec fn entry_field(b: Seq<u8>, i: int, k: int) -> nat {
    le_u32(b, 64 + 16 * i + 4 * k)
}

/// Whether both reserved fields of record `i` are zero.
pub open spec fn reserved_zero(b: Seq<u8>, i: int) -> bool {
    entry_field(b, i, 0) == 0 && entry_field(b, i, 3) == 0
}

/// Record `i` of the entry table of `b`.
pub open spec fn entry_at(b: Seq<u8>, i: int) -> FileEntry {
    FileEntry { offset: entry_field(b, i, 1) as u32, size: entry_field(b, i, 2) as u32 }
}

/// The `n` records of the entry table of `b`, or why there is no such table.
pub open spec fn table_spec(b: Seq<u8>, n: nat) -> Result<Seq<FileEntry>, FormatError> {
    if b.len() < header_size_spec(n) {
        Err(FormatError::TruncatedInput)
    } else if exists|i: int| 0 <= i < n && !#[trigger] reserved_zero(b, i) {
        Err(FormatError::UnexpectedNonZeroField)
    } else {
        Ok(Seq::new(n, |i: int| entry_at(b, i)))
    }
}

/// Whether entry `i` starts before entry `i - 1` ends.
pub open spec fn overlaps(entries: Seq<FileEntry>, i: int) -> bool {
    entries[i].offset < entries[i - 1].offset + entries[i - 1].size
}

/// Where the payload of entry `i` starts in the buffer, the first payload
/// starting at `start`: the gaps between entries are skipped.
pub open spec fn payload_start(start: int, entries: Seq<FileEntry>, i: int) -> int {
    start + entries[i].offset - entries[0].offset
}

/// Where the payload of entry `i` ends in the buffer.
pub open spec fn payload_end(start: int, entries: Seq<FileEntry>, i: int) -> int {
    payload_start(start, entries, i) + entries[i].size
}

/// The payloads that `entries` locate in `b`, the first one at `start`, or
/// why they cannot be had.
pub open spec fn files_spec(b: Seq<u8>, start: int, entries: Seq<FileEntry>) -> Result<
    Seq<Seq<u8>>,
    FormatError,
> {
    if exists|i: int| 1 <= i < entries.len() && #[trigger] overlaps(entries, i) {
        Err(FormatError::OverlappingEntries)
    } else if exists|i: int|
        0 <= i < entries.len() && #[trigger] payload_end(start, entries, i) > b.len() {
        Err(FormatError::TruncatedPayload)
    } else {
        Ok(
            Seq::new(
                entries.len(),
                |i: int|
                    b.subrange(payload_start(start, entries, i), payload_end(start, entries, i)),
            ),
        )
    }
}

/// The archive that `b` holds, or why it holds none.
pub open spec fn decode_spec(b: Seq<u8>) -> Result<ArchiveView, FormatError> {
    match header_spec(b) {
        Err(e) => Err(e),
        Ok((copyright, n)) => match table_spec(b, n) {
            Err(e) => Err(e),
            Ok(entries) => match files_spec(b, header_size_spec(n) as int, entries) {
                Err(e) => Err(e),
                Ok(files) => Ok(ArchiveView { copyright, files }),
            },
        },
    }
}

// ---- Encoding -------------------------------------------------------------

/// The header of an archive of `n` entries with the copyright notice whose
/// UTF-8 bytes are `c`.
pub open spec fn header_bytes(n: nat, c: Seq<u8>) -> Seq<u8> {
    magic() + le_bytes_u32(n) + c + zeros((56 - c.len()) as nat)
}

/// The summed length of `files`.
pub open spec fn payloads_len(files: Seq<Seq<u8>>) -> nat
    decreases files.len(),
{
    if files.len() == 0 {
        0
    } else {
        payloads_len(files.drop_last()) + files.last().len()
    }
}

/// `files`, back to back.
pub open spec fn payloads_bytes(files: Seq<Seq<u8>>) -> Seq<u8>
    decreases files.len(),
{
    if files.len() == 0 {
        seq![]
    } else {
        payloads_bytes(files.drop_last()) + files.last()
    }
}

/// One record of the entry table.
pub open spec fn entry_bytes(offset: nat, size: nat) -> Seq<u8> {
    zeros(4) + le_bytes_u32(offset) + le_bytes_u32(size) + zeros(4)
}

/// The entry table of `files` packed back to back from `base` on.
pub open spec fn table_bytes(files: Seq<Seq<u8>>, base: nat) -> Seq<u8>
    decreases files.len(),
{
    if files.len() == 0 {
        seq![]
    } else {
        table_bytes(files.drop_last(), base) + entry_bytes(
            base + payloads_len(files.drop_last()),
            files.last().len(),
        )
    }
}

/// The length of the encoding of `a`.
pub open spec fn encoded_size(a: ArchiveView) -> nat {
    header_size_spec(a.files.len()) + payloads_len(a.files)
}

/// Whether the encoding of `a` fits the 32-bit offsets of its entry table.
pub open spec fn fits_u32(a: ArchiveView) -> bool {
    encoded_size(a) <= u32::MAX
}

/// The bytes of `a`: header, entry table, and the payloads packed back to
/// back with no gap between them.
#[verifier::opaque]
pub open spec fn encode_spec(a: ArchiveView) -> Seq<u8> {
    header_bytes(a.files.len(), encode_utf8(a.copyright)) + table_bytes(
        a.files,
        header_size_spec(a.files.len()),
    ) + payloads_bytes(a.files)
}

/// The little-endian `u32` stored at `b[at..at + 4]`.
pub open spec fn le_u32(b: Seq<u8>, at: int) -> nat {
    (b[at] + 256 * b[at + 1] + 65536 * b[at + 2] + 16777216 * b[at + 3]) as nat
}

/// The four little-endian bytes of `x`.
pub open spec fn le_bytes_u32(x: nat) -> Seq<u8> {
    seq![(x % 256) as u8, (x / 256 % 256) as u8, (x / 65536 % 256) as u8, (x / 16777216 % 256) as u8]
}

/// One more file extends the packed sizes, payloads and table by that file.
pub proof fn lemma_take_one_more(files: Seq<Seq<u8>>, i: int, base: nat)
    requires
        0 <= i < files.len(),
    ensures
        payloads_len(files.take(i + 1)) == payloads_len(files.take(i)) + files[i].len(),
        payloads_bytes(files.take(i + 1)) == payloads_bytes(files.take(i)) + files[i],
        table_bytes(files.take(i + 1), base) == table_bytes(files.take(i), base) + entry_bytes(
            base + payloads_len(files.take(i)),
            files[i].len(),
        ),
{
    assert(files.take(i + 1).drop_last() =~= files.take(i));
}

/// The packed size of a prefix is at most that of the whole.
pub proof fn lemma_payloads_len_prefix(files: Seq<Seq<u8>>, i: int)
    requires
        0 <= i <= files.len(),
    ensures
        payloads_len(files.take(i)) <= payloads_len(files),
    decreases files.len() - i,
{
    if i < files.len() {
        lemma_take_one_more(files, i, 0);
        lemma_payloads_len_prefix(files, i + 1);
    } else {
        assert(files.take(i) =~= files);
    }
}

/// Reading back the bytes of `x` gives `x`.
pub proof fn lemma_le_u32_of_bytes(s: Seq<u8>, at: int, x: nat)
    requires
        x <= u32::MAX,
        0 <= at,
        at + 4 <= s.len(),
        s.subrange(at, at + 4) == le_bytes_u32(x),
    ensures
        le_u32(s, at) == x,
{
    let p = at;
    assert(s[p] == s.subrange(at, at + 4)[0]);
    assert(s[p + 1] == s.subrange(at, at + 4)[1]);
    assert(s[p + 2] == s.subrange(at, at + 4)[2]);
    assert(s[p + 3] == s.subrange(at, at + 4)[3]);
    assert(x == x % 256 + 256 * (x / 256 % 256) + 65536 * (x / 65536 % 256) + 16777216 * (
    x / 16777216 % 256)) by (nonlinear_arith)
        requires
            x <= u32::MAX,
    ;
}

} // verus!
