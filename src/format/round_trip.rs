use vstd::prelude::*;
use vstd::utf8::*;

use super::copyright::{
    copyright_text_bytes, trim_trailing_zeros, lemma_trim_padded, lemma_trim_shape, lemma_trim_valid_utf8,
    lemma_zeros_valid_utf8, utf8_lossy, zeros,
};
use super::layout::{
    copyright_field, decode_spec, encode_spec, encoded_size, entry_at, entry_bytes, entry_count,
    files_spec, fits_u32, header_bytes, header_size_spec, header_spec, le_bytes_u32,
    lemma_le_u32_of_bytes, lemma_take_one_more, lemma_payloads_len_prefix, magic, overlaps,
    payload_end, payload_start, payloads_bytes, payloads_len, reserved_zero, table_bytes,
    table_spec, ArchiveView,
};
use super::FileEntry;
use crate::error::FormatError;

verus! {

/// The entry table of `files` holds 16 bytes per file, record `i` locating
/// file `i` after the files before it.
pub proof fn lemma_table_record(files: Seq<Seq<u8>>, base: nat, i: int)
    requires
        0 <= i < files.len(),
    ensures
        table_bytes(files, base).len() == 16 * files.len(),
        table_bytes(files, base).subrange(16 * i, 16 * i + 16) == entry_bytes(
            base + payloads_len(files.take(i)),
            files[i].len(),
        ),
    decreases files.len(),
{
    let last = files.len() - 1;
    let prev = files.drop_last();
    lemma_table_len(files, base);
    lemma_table_len(prev, base);
    if i < last {
        lemma_table_record(prev, base, i);
        assert(prev.take(i) =~= files.take(i));
        assert(table_bytes(files, base).subrange(16 * i, 16 * i + 16) =~= table_bytes(
            prev,
            base,
        ).subrange(16 * i, 16 * i + 16));
    } else {
        assert(files.take(i) =~= prev);
        assert(table_bytes(files, base).subrange(16 * i, 16 * i + 16) =~= entry_bytes(
            base + payloads_len(prev),
            files[i].len(),
        ));
    }
}

/// The packed payloads hold file `i` right after the files before it.
pub proof fn lemma_payload_slice(files: Seq<Seq<u8>>, i: int)
    requires
        0 <= i < files.len(),
    ensures
        payloads_bytes(files).len() == payloads_len(files),
        payloads_bytes(files).subrange(
            payloads_len(files.take(i)) as int,
            (payloads_len(files.take(i)) + files[i].len()) as int,
        ) == files[i],
    decreases files.len(),
{
    let last = files.len() - 1;
    let prev = files.drop_last();
    lemma_packed_len(files);
    if i < last {
        lemma_payload_slice(prev, i);
        assert(prev.take(i) =~= files.take(i));
        lemma_payloads_len_prefix(prev, i + 1);
        lemma_take_one_more(prev, i, 0);
        assert(payloads_bytes(files).subrange(
            payloads_len(files.take(i)) as int,
            (payloads_len(files.take(i)) + files[i].len()) as int,
        ) =~= payloads_bytes(prev).subrange(
            payloads_len(files.take(i)) as int,
            (payloads_len(files.take(i)) + files[i].len()) as int,
        ));
    } else {
        assert(files.take(i) =~= prev);
        lemma_packed_len(prev);
        assert(payloads_bytes(files).subrange(
            payloads_len(files.take(i)) as int,
            (payloads_len(files.take(i)) + files[i].len()) as int,
        ) =~= files[i]);
    }
}

/// The entry table holds 16 bytes per file.
pub proof fn lemma_table_len(files: Seq<Seq<u8>>, base: nat)
    ensures
        table_bytes(files, base).len() == 16 * files.len(),
    decreases files.len(),
{
    if files.len() > 0 {
        lemma_table_len(files.drop_last(), base);
    }
}

/// The packed payloads are as long as their summed length.
pub proof fn lemma_packed_len(files: Seq<Seq<u8>>)
    ensures
        payloads_bytes(files).len() == payloads_len(files),
    decreases files.len(),
{
    if files.len() > 0 {
        lemma_packed_len(files.drop_last());
    }
}

/// A slice within the middle part of `x + y + z`.
proof fn lemma_subrange_middle(x: Seq<u8>, y: Seq<u8>, z: Seq<u8>, lo: int, hi: int)
    requires
        0 <= lo <= hi <= y.len(),
    ensures
        (x + y + z).subrange(x.len() + lo, x.len() + hi) == y.subrange(lo, hi),
{
    assert((x + y + z).subrange(x.len() + lo, x.len() + hi) =~= y.subrange(lo, hi));
}

/// A slice within the first part of `x + y`.
proof fn lemma_subrange_prefix(x: Seq<u8>, y: Seq<u8>, lo: int, hi: int)
    requires
        0 <= lo <= hi <= x.len(),
    ensures
        (x + y).subrange(lo, hi) == x.subrange(lo, hi),
{
    assert((x + y).subrange(lo, hi) =~= x.subrange(lo, hi));
}

/// A slice of a slice.
proof fn lemma_subrange_nested(s: Seq<u8>, a: int, b: int, lo: int, hi: int)
    requires
        0 <= a <= b <= s.len(),
        0 <= lo <= hi <= b - a,
    ensures
        s.subrange(a, b).subrange(lo, hi) == s.subrange(a + lo, a + hi),
{
    assert(s.subrange(a, b).subrange(lo, hi) =~= s.subrange(a + lo, a + hi));
}

/// The four fields of an encoded record.
proof fn lemma_entry_bytes_fields(offset: nat, size: nat)
    ensures
        entry_bytes(offset, size).len() == 16,
        entry_bytes(offset, size).subrange(0, 4) == le_bytes_u32(0),
        entry_bytes(offset, size).subrange(4, 8) == le_bytes_u32(offset),
        entry_bytes(offset, size).subrange(8, 12) == le_bytes_u32(size),
        entry_bytes(offset, size).subrange(12, 16) == le_bytes_u32(0),
{
    let r = entry_bytes(offset, size);
    assert(r.subrange(0, 4) =~= le_bytes_u32(0));
    assert(r.subrange(4, 8) =~= le_bytes_u32(offset));
    assert(r.subrange(8, 12) =~= le_bytes_u32(size));
    assert(r.subrange(12, 16) =~= le_bytes_u32(0));
}

/// Record `i` of the entry table of `encode_spec(a)`: reserved fields zero,
/// the file packed after the files before it.
#[verifier::rlimit(60)]
proof fn lemma_encoded_record(a: ArchiveView, i: int)
    requires
        fits_u32(a),
        encode_utf8(a.copyright).len() <= 55,
        0 <= i < a.files.len(),
    ensures
        reserved_zero(encode_spec(a), i),
        entry_at(encode_spec(a), i) == (FileEntry {
            offset: (header_size_spec(a.files.len()) + payloads_len(a.files.take(i))) as u32,
            size: a.files[i].len() as u32,
        }),
{
    reveal(encode_spec);
    let files = a.files;
    let n = files.len();
    let base = header_size_spec(n);
    let h = header_bytes(n, encode_utf8(a.copyright));
    let t = table_bytes(files, base);
    let p = payloads_bytes(files);
    let e = encode_spec(a);
    let off = base + payloads_len(files.take(i));
    let size = files[i].len();
    lemma_table_len(files, base);
    lemma_table_record(files, base, i);
    lemma_payloads_len_prefix(files, i + 1);
    lemma_take_one_more(files, i, 0);
    assert(h.len() == 64);
    assert(16 * i + 16 <= 16 * n);
    let at = 64 + 16 * i;
    lemma_subrange_middle(h, t, p, 16 * i, 16 * i + 16);
    let rec = e.subrange(at, at + 16);
    assert(rec == entry_bytes(off, size));
    lemma_entry_bytes_fields(off, size);
    lemma_subrange_nested(e, at, at + 16, 0, 4);
    lemma_subrange_nested(e, at, at + 16, 4, 8);
    lemma_subrange_nested(e, at, at + 16, 8, 12);
    lemma_subrange_nested(e, at, at + 16, 12, 16);
    lemma_le_u32_of_bytes(e, at, 0);
    lemma_le_u32_of_bytes(e, at + 4, off);
    lemma_le_u32_of_bytes(e, at + 8, size);
    lemma_le_u32_of_bytes(e, at + 12, 0);
}

/// The encoding of `a` is `encoded_size(a)` bytes long.
pub proof fn lemma_encoded_len(a: ArchiveView)
    requires
        encode_utf8(a.copyright).len() <= 55,
    ensures
        encode_spec(a).len() == encoded_size(a),
{
    reveal(encode_spec);
    lemma_table_len(a.files, header_size_spec(a.files.len()));
    lemma_packed_len(a.files);
}

/// The header of `encode_spec(a)` decodes to the notice and entry count of `a`.
proof fn lemma_encoded_header(a: ArchiveView)
    requires
        encode_utf8(a.copyright).len() <= 55,
        encode_utf8(a.copyright).len() == 0 || encode_utf8(a.copyright).last() != 0,
        fits_u32(a),
    ensures
        header_spec(encode_spec(a)) == Ok::<(Seq<char>, nat), FormatError>(
            (a.copyright, a.files.len()),
        ),
{
    reveal(encode_spec);
    let c = encode_utf8(a.copyright);
    let files = a.files;
    let n = files.len();
    let base = header_size_spec(n);
    let h = header_bytes(n, c);
    let t = table_bytes(files, base);
    let p = payloads_bytes(files);
    let e = encode_spec(a);
    lemma_table_len(files, base);
    lemma_packed_len(files);
    assert(h.len() == 64);
    lemma_subrange_prefix(h + t, p, 0, 64);
    lemma_subrange_prefix(h, t, 0, 64);
    assert(h.subrange(0, 64) =~= h);
    let head = e.subrange(0, 64);
    assert(head == h);
    lemma_subrange_nested(e, 0, 64, 0, 4);
    lemma_subrange_nested(e, 0, 64, 4, 8);
    lemma_subrange_nested(e, 0, 64, 8, 63);
    assert(h.subrange(0, 4) =~= magic());
    assert(e[63] == head[63]);
    assert(h.subrange(4, 8) =~= le_bytes_u32(n));
    lemma_le_u32_of_bytes(e, 4, n);
    let pad = (55 - c.len()) as nat;
    let field = copyright_field(e);
    assert(h.subrange(8, 63) =~= c + zeros(pad));
    encode_utf8_valid_utf8(a.copyright);
    lemma_zeros_valid_utf8(pad);
    valid_utf8_concat(c, zeros(pad));
    lemma_trim_padded(c, pad);
    assert(copyright_text_bytes(field) == c);
    encode_utf8_decode_utf8(a.copyright);
}

/// The entries that `encode_spec(a)` holds: each file packed right after the
/// one before it.
pub open spec fn packed_entries(a: ArchiveView) -> Seq<FileEntry> {
    Seq::new(
        a.files.len(),
        |i: int|
            FileEntry {
                offset: (header_size_spec(a.files.len()) + payloads_len(a.files.take(i))) as u32,
                size: a.files[i].len() as u32,
            },
    )
}

/// The entry table of `encode_spec(a)` decodes to the packed entries.
#[verifier::rlimit(60)]
proof fn lemma_encoded_table(a: ArchiveView)
    requires
        encode_utf8(a.copyright).len() <= 55,
        fits_u32(a),
    ensures
        table_spec(encode_spec(a), a.files.len()) == Ok::<Seq<FileEntry>, FormatError>(
            packed_entries(a),
        ),
{
    let e = encode_spec(a);
    let n = a.files.len();
    lemma_encoded_len(a);
    assert forall|i: int| 0 <= i < n implies #[trigger] reserved_zero(e, i) by {
        lemma_encoded_record(a, i);
    }
    assert forall|i: int| 0 <= i < n implies #[trigger] entry_at(e, i) == packed_entries(a)[i] by {
        lemma_encoded_record(a, i);
    }
    assert(Seq::new(n, |i: int| entry_at(e, i)) =~= packed_entries(a));
}

/// The payloads that the packed entries locate in `encode_spec(a)` are the
/// files of `a`.
proof fn lemma_encoded_files(a: ArchiveView)
    requires
        encode_utf8(a.copyright).len() <= 55,
        fits_u32(a),
    ensures
        files_spec(
            encode_spec(a),
            header_size_spec(a.files.len()) as int,
            packed_entries(a),
        ) == Ok::<Seq<Seq<u8>>, FormatError>(a.files),
{
    reveal(encode_spec);
    let files = a.files;
    let n = files.len();
    let base = header_size_spec(n);
    let h = header_bytes(n, encode_utf8(a.copyright));
    let t = table_bytes(files, base);
    let p = payloads_bytes(files);
    let e = encode_spec(a);
    let entries = packed_entries(a);
    lemma_table_len(files, base);
    lemma_packed_len(files);
    assert(h.len() == 64);
    assert(files.take(0) =~= Seq::<Seq<u8>>::empty());
    assert forall|i: int| 1 <= i < n implies !#[trigger] overlaps(entries, i) by {
        lemma_take_one_more(files, i - 1, 0);
        lemma_payloads_len_prefix(files, i);
    }
    assert forall|i: int| 0 <= i < n implies #[trigger] payload_end(base as int, entries, i)
        <= e.len() && e.subrange(payload_start(base as int, entries, i), payload_end(
        base as int,
        entries,
        i,
    )) == files[i] by {
        lemma_take_one_more(files, i, 0);
        lemma_payloads_len_prefix(files, i + 1);
        lemma_payload_slice(files, i);
        let from = payloads_len(files.take(i)) as int;
        let to = from + files[i].len();
        lemma_subrange_middle(h + t, p, Seq::<u8>::empty(), from, to);
        assert((h + t) + p + Seq::<u8>::empty() =~= e);
    }
    assert(Seq::new(
        entries.len(),
        |i: int|
            e.subrange(payload_start(base as int, entries, i), payload_end(base as int, entries, i)),
    ) =~= files);
}

/// Encoding an archive and decoding the bytes gives the archive back, where
/// its copyright notice fits the header and does not end in a null, and its
/// encoding fits 32-bit offsets.
pub proof fn lemma_encode_then_decode(a: ArchiveView)
    requires
        encode_utf8(a.copyright).len() <= 55,
        encode_utf8(a.copyright).len() == 0 || encode_utf8(a.copyright).last() != 0,
        fits_u32(a),
    ensures
        decode_spec(encode_spec(a)) == Ok::<ArchiveView, FormatError>(a),
{
    lemma_encoded_header(a);
    lemma_encoded_table(a);
    lemma_encoded_files(a);
}

/// The payloads of the first `k` entries of a decoded archive take no more
/// bytes than the span from the first entry's offset to the end of entry
/// `k - 1`.
proof fn lemma_payloads_within_span(b: Seq<u8>, k: int)
    requires
        decode_spec(b) is Ok,
        1 <= k <= entry_count(b),
    ensures
        ({
            let entries = table_spec(b, entry_count(b))->Ok_0;
            payloads_len(decode_spec(b)->Ok_0.files.take(k)) <= entries[k - 1].offset
                + entries[k - 1].size - entries[0].offset
        }),
    decreases k,
{
    let n = entry_count(b);
    let entries = table_spec(b, n)->Ok_0;
    let files = decode_spec(b)->Ok_0.files;
    let start = header_size_spec(n) as int;
    assert(payload_end(start, entries, k - 1) <= b.len());
    lemma_offsets_ordered(entries, 0, k - 1);
    assert(files[k - 1].len() == entries[k - 1].size);
    lemma_take_one_more(files, k - 1, 0);
    if k == 1 {
        assert(files.take(0) =~= Seq::<Seq<u8>>::empty());
    } else {
        lemma_payloads_within_span(b, k - 1);
        assert(!overlaps(entries, k - 1));
    }
}

/// A decoded archive re-encodes to no more bytes than it was decoded from.
pub proof fn lemma_decoded_encoded_size(b: Seq<u8>)
    requires
        decode_spec(b) is Ok,
    ensures
        encoded_size(decode_spec(b)->Ok_0) <= b.len(),
{
    let n = entry_count(b);
    let a = decode_spec(b)->Ok_0;
    if n > 0 {
        let entries = table_spec(b, n)->Ok_0;
        let start = header_size_spec(n) as int;
        lemma_payloads_within_span(b, n as int);
        assert(a.files.take(n as int) =~= a.files);
        assert(payload_end(start, entries, n - 1) <= b.len());
    } else {
        assert(a.files.len() == 0);
    }
}

/// Decoding, encoding and decoding again gives the archive of the first
/// decode: the same copyright notice, entry count and payload bytes, in the
/// same order. The bytes in between may be shorter than the input, since
/// the padding between payloads is dropped. Holds wherever the encoding fits
/// 32-bit offsets. The re-encoded bytes are `64 + 16 * n` plus the summed
/// payload sizes long, never longer than the input.
pub proof fn lemma_decode_encode_decode(b: Seq<u8>)
    requires
        decode_spec(b) is Ok,
        fits_u32(decode_spec(b)->Ok_0),
    ensures
        decode_spec(encode_spec(decode_spec(b)->Ok_0)) == decode_spec(b),
        encode_spec(decode_spec(b)->Ok_0).len() == header_size_spec(
            decode_spec(b)->Ok_0.files.len(),
        ) + payloads_len(decode_spec(b)->Ok_0.files),
        encode_spec(decode_spec(b)->Ok_0).len() <= b.len(),
{
    let a = decode_spec(b)->Ok_0;
    let field = copyright_field(b);
    let text = copyright_text_bytes(field);
    let s = if valid_utf8(field) {
        field
    } else {
        encode_utf8(utf8_lossy(field))
    };
    if !valid_utf8(field) {
        encode_utf8_valid_utf8(utf8_lossy(field));
    }
    assert(text == trim_trailing_zeros(s));
    lemma_trim_valid_utf8(s);
    lemma_trim_shape(s);
    decode_utf8_encode_utf8(text);
    lemma_encode_then_decode(a);
    lemma_encoded_len(a);
    lemma_decoded_encoded_size(b);
}

/// Offsets do not decrease along the entries when no entry starts before the
/// one before it ends.
pub proof fn lemma_offsets_ordered(entries: Seq<FileEntry>, i: int, j: int)
    requires
        forall|k: int| 1 <= k < entries.len() ==> !#[trigger] overlaps(entries, k),
        0 <= i <= j < entries.len(),
    ensures
        entries[i].offset <= entries[j].offset,
    decreases j - i,
{
    if i < j {
        lemma_offsets_ordered(entries, i, j - 1);
        assert(!overlaps(entries, j));
    }
}

/// In every archive that decodes, entry offsets are non-decreasing in entry
/// order.
pub proof fn lemma_decoded_offsets_non_decreasing(b: Seq<u8>, i: int, j: int)
    requires
        decode_spec(b) is Ok,
        0 <= i <= j < entry_count(b),
    ensures
        entry_at(b, i).offset <= entry_at(b, j).offset,
{
    let entries = table_spec(b, entry_count(b))->Ok_0;
    lemma_offsets_ordered(entries, i, j);
}

/// An entry table that parses but whose offsets decrease somewhere fails to
/// decode with `OverlappingEntries`.
pub proof fn lemma_decreasing_offset_overlaps(b: Seq<u8>, i: int)
    requires
        header_spec(b) is Ok,
        table_spec(b, entry_count(b)) is Ok,
        1 <= i < entry_count(b),
        entry_at(b, i).offset < entry_at(b, i - 1).offset,
    ensures
        decode_spec(b) == Err::<ArchiveView, FormatError>(FormatError::OverlappingEntries),
{
    let entries = table_spec(b, entry_count(b))->Ok_0;
    assert(overlaps(entries, i));
}

} // verus!
