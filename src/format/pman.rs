use vstd::prelude::*;
use vstd::utf8::*;

use super::copyright::{copyright_from_field, zeros};
use super::layout::{
    copyright_field, decode_spec, encode_spec, encoded_size, entry_at, files_spec, fits_u32,
    header_bytes, header_size_spec, header_spec, le_bytes_u32, lemma_payloads_len_prefix,
    lemma_take_one_more, magic, overlaps, payload_end, payload_start, payloads_bytes,
    payloads_len, reserved_zero, table_bytes, table_spec, ArchiveView, COPYRIGHT_MAX_SIZE,
    ENTRY_SIZE, HEADER_SIZE,
};
use super::zlib::{
    declared_size, decompress_member, decompress_spec, is_zlib_member, is_zlib_member_spec,
    result_bytes,
};
use super::{push_u32_le, read_u32_le, u32_zero, FileEntry};
use crate::error::{ContractError, Error, FormatError, InvalidFormatError};

verus! {

broadcast use vstd::string::group_string_axioms;

/// The bytes of one file of an archive.
#[derive(Debug, Default, Clone, PartialEq, Eq, PartialOrd, Ord, Hash)]
pub struct PmanFileData {
    bytes: Vec<u8>,
}

impl View for PmanFileData {
    type V = Seq<u8>;

    closed spec fn view(&self) -> Seq<u8> {
        self.bytes@
    }
}

impl PmanFileData {
    /// A file holding `bytes`.
    pub fn new(bytes: Vec<u8>) -> (r: PmanFileData)
        ensures
            r@ == bytes@,
    {
        PmanFileData { bytes }
    }

    /// The raw bytes of the file.
    pub fn bytes(&self) -> (r: &[u8])
        ensures
            r@ == self@,
    {
        self.bytes.as_slice()
    }

    /// The raw bytes of the file, to edit in place.
    pub fn bytes_mut(&mut self) -> (r: &mut Vec<u8>)
        ensures
            r@ == old(self)@,
            final(self)@ == final(r)@,
    {
        &mut self.bytes
    }

    /// Whether these bytes are a zlib member: at least five bytes, starting
    /// with `ZL`.
    pub fn is_zlib_member(&self) -> (r: bool)
        ensures
            r == is_zlib_member_spec(self@),
    {
        is_zlib_member(self.bytes.as_slice())
    }

    /// The decompressed bytes of a zlib member, or `None` where these bytes
    /// are not one. A member decompresses to exactly the size that it
    /// declares, or fails with `TruncatedZlib`. The stored bytes are left
    /// as they are.
    pub fn to_zlib(&self) -> (r: Option<Result<Vec<u8>, FormatError>>)
        ensures
            !is_zlib_member_spec(self@) ==> r is None,
            is_zlib_member_spec(self@) ==> (r matches Some(d) && result_bytes(d)
                == decompress_spec(self@)),
            r matches Some(Ok(v)) ==> v@.len() == declared_size(self@),
    {
        if self.is_zlib_member() {
            Some(decompress_member(self.bytes.as_slice()))
        } else {
            None
        }
    }
}

/// An archive: a copyright notice of at most 55 bytes and an ordered
/// sequence of files.
pub struct PmanFile {
    copyright: String,
    files: Vec<PmanFileData>,
}

/// The most entries whose header and table fit 32-bit offsets.
pub const MAX_ENTRIES: usize = 268435451;

/// Whether a copyright notice fits the header: at most 55 bytes of UTF-8.
pub open spec fn copyright_fits(c: Seq<char>) -> bool {
    encode_utf8(c).len() <= 55
}

impl View for PmanFile {
    type V = ArchiveView;

    closed spec fn view(&self) -> ArchiveView {
        ArchiveView {
            copyright: self.copyright@,
            files: self.files@.map_values(|f: PmanFileData| f@),
        }
    }
}

impl PmanFile {
    /// Decodes an archive. Interior padding between payloads is dropped.
    pub fn new(bytes: Vec<u8>) -> (r: Result<PmanFile, Error>)
        ensures
            match decode_spec(bytes@) {
                Ok(a) => r matches Ok(f) && f@ == a,
                Err(k) => r == Err::<PmanFile, Error>(
                    Error::InvalidFormat((InvalidFormatError { kind: k })),
                ),
            },
            r matches Ok(f) ==> copyright_fits(f@.copyright),
    {
        match Self::decode(bytes.as_slice()) {
            Ok(f) => Ok(f),
            Err(kind) => Err(Error::InvalidFormat(InvalidFormatError { kind })),
        }
    }

    /// An archive of `files` with the notice `copyright`: at most 55 bytes
    /// of UTF-8, else `CopyrightTooLong`.
    pub fn from_parts(copyright: &str, files: Vec<PmanFileData>) -> (r: Result<
        PmanFile,
        ContractError,
    >)
        ensures
            r is Err <==> !copyright_fits(copyright@),
            r is Err ==> r == Err::<PmanFile, ContractError>(ContractError::CopyrightTooLong),
            r matches Ok(f) ==> f@ == (ArchiveView {
                copyright: copyright@,
                files: files@.map_values(|d: PmanFileData| d@),
            }),
    {
        if copyright.as_bytes().len() > COPYRIGHT_MAX_SIZE {
            return Err(ContractError::CopyrightTooLong);
        }
        Ok(PmanFile { copyright: copyright.to_owned(), files })
    }

    /// Decodes the archive that `input` holds.
    pub fn decode(input: &[u8]) -> (r: Result<PmanFile, FormatError>)
        ensures
            match decode_spec(input@) {
                Ok(a) => r matches Ok(f) && f@ == a,
                Err(k) => r == Err::<PmanFile, FormatError>(k),
            },
            r matches Ok(f) ==> copyright_fits(f@.copyright),
    {
        let (copyright, count) = match read_header(input) {
            Ok(h) => h,
            Err(e) => return Err(e),
        };
        let entries = match read_file_entries(input, count) {
            Ok(v) => v,
            Err(e) => return Err(e),
        };
        let n = count as usize;
        let len = input.len();
        assert(HEADER_SIZE + ENTRY_SIZE * n <= len);
        let start = HEADER_SIZE + ENTRY_SIZE * n;
        let files = match read_files(input, start, &entries) {
            Ok(v) => v,
            Err(e) => return Err(e),
        };
        let f = PmanFile { copyright, files };
        assert(f@.files == files@.map_values(|d: PmanFileData| d@));
        Ok(f)
    }

    /// The copyright notice.
    pub fn copyright(&self) -> (r: &str)
        ensures
            r@ == self@.copyright,
    {
        self.copyright.as_str()
    }

    /// Sets the copyright notice: at most 55 bytes of UTF-8, else
    /// `CopyrightTooLong` and the archive is left as it was.
    pub fn set_copyright(&mut self, copyright: &str) -> (r: Result<(), ContractError>)
        ensures
            r is Err <==> !copyright_fits(copyright@),
            r is Err ==> r == Err::<(), ContractError>(ContractError::CopyrightTooLong)
                && final(self)@ == old(self)@,
            r is Ok ==> final(self)@ == (ArchiveView {
                copyright: copyright@,
                files: old(self)@.files,
            }),
    {
        if copyright.as_bytes().len() > COPYRIGHT_MAX_SIZE {
            return Err(ContractError::CopyrightTooLong);
        }
        self.copyright = copyright.to_owned();
        Ok(())
    }

    /// The files of the archive, in entry order.
    pub fn files(&self) -> (r: &[PmanFileData])
        ensures
            r@.map_values(|f: PmanFileData| f@) == self@.files,
    {
        self.files.as_slice()
    }

    /// The files of the archive, to edit, add or remove; entry order is
    /// the order of this vector.
    pub fn files_mut(&mut self) -> (r: &mut Vec<PmanFileData>)
        ensures
            r@.map_values(|f: PmanFileData| f@) == old(self)@.files,
            final(self)@ == (ArchiveView {
                copyright: old(self)@.copyright,
                files: final(r)@.map_values(|f: PmanFileData| f@),
            }),
    {
        &mut self.files
    }

    /// Bytes of the header and the entry table: where the payloads start.
    pub fn size_upto_file_data(&self) -> (r: usize)
        requires
            header_size_spec(self@.files.len()) <= usize::MAX,
        ensures
            r == header_size_spec(self@.files.len()),
    {
        HEADER_SIZE + ENTRY_SIZE * self.files.len()
    }

    /// Encodes the archive: a fresh header and entry table, then the
    /// payloads back to back, with no padding between them. Fails with
    /// `ArchiveTooLarge` where the result would not fit 32-bit offsets.
    pub fn into_bytes(self) -> (r: Result<Vec<u8>, Error>)
        requires
            copyright_fits(self@.copyright),
        ensures
            !fits_u32(self@) ==> r == Err::<Vec<u8>, Error>(Error::ArchiveTooLarge),
            fits_u32(self@) ==> (r matches Ok(v) && v@ == encode_spec(self@)),
    {
        let ghost fv = self@.files;
        let n = self.files.len();
        if n > MAX_ENTRIES {
            proof {
                lemma_payloads_len_prefix(fv, 0);
            }
            return Err(Error::ArchiveTooLarge);
        }
        let base = (HEADER_SIZE + ENTRY_SIZE * n) as u32;
        let mut total: u32 = base;
        let mut i: usize = 0;
        while i < n
            invariant
                n == self.files@.len(),
                fv == self@.files,
                base == header_size_spec(n as nat),
                i <= n,
                total == base + payloads_len(fv.take(i as int)),
            decreases n - i,
        {
            let size = self.files[i].bytes.len();
            proof {
                lemma_take_one_more(fv, i as int, 0);
            }
            if size as u64 > (u32::MAX - total) as u64 {
                proof {
                    lemma_payloads_len_prefix(fv, i + 1);
                }
                return Err(Error::ArchiveTooLarge);
            }
            total = total + size as u32;
            i = i + 1;
        }
        assert(fv.take(n as int) =~= fv);
        let mut buf: Vec<u8> = Vec::new();
        buf.push(0x50);
        buf.push(0x4d);
        buf.push(0x41);
        buf.push(0x4e);
        push_u32_le(&mut buf, n as u32);
        let c = self.copyright.as_str().as_bytes();
        buf.extend_from_slice(c);
        let pad = HEADER_SIZE - 8 - c.len();
        let mut k: usize = 0;
        while k < pad
            invariant
                k <= pad,
                buf@ =~= magic() + le_bytes_u32(n as nat) + c@ + zeros(k as nat),
            decreases pad - k,
        {
            buf.push(0);
            k = k + 1;
        }
        assert(buf@ =~= header_bytes(n as nat, encode_utf8(self@.copyright)));
        let ghost header = buf@;
        let mut offset: u32 = base;
        let mut i: usize = 0;
        while i < n
            invariant
                n == self.files@.len(),
                fv == self@.files,
                base == header_size_spec(n as nat),
                i <= n,
                total == encoded_size(self@),
                total == base + payloads_len(fv),
                offset == base + payloads_len(fv.take(i as int)),
                buf@ =~= header + table_bytes(fv.take(i as int), base as nat),
            decreases n - i,
        {
            let size = self.files[i].bytes.len();
            proof {
                lemma_take_one_more(fv, i as int, base as nat);
                lemma_payloads_len_prefix(fv, i + 1);
            }
            push_u32_le(&mut buf, 0);
            push_u32_le(&mut buf, offset);
            push_u32_le(&mut buf, size as u32);
            push_u32_le(&mut buf, 0);
            assert(le_bytes_u32(0) =~= zeros(4));
            offset = offset + size as u32;
            i = i + 1;
        }
        let ghost table = buf@;
        let mut i: usize = 0;
        while i < n
            invariant
                n == self.files@.len(),
                fv == self@.files,
                i <= n,
                buf@ =~= table + payloads_bytes(fv.take(i as int)),
            decreases n - i,
        {
            proof {
                lemma_take_one_more(fv, i as int, 0);
            }
            buf.extend_from_slice(self.files[i].bytes.as_slice());
            i = i + 1;
        }
        proof {
            reveal(encode_spec);
        }
        Ok(buf)
    }
}

impl IntoIterator for PmanFile {
    type Item = PmanFileData;
    type IntoIter = std::vec::IntoIter<PmanFileData>;

    fn into_iter(self) -> std::vec::IntoIter<PmanFileData> {
        self.files.into_iter()
    }
}

/// Reads the header: the copyright notice and the entry count.
pub fn read_header(input: &[u8]) -> (r: Result<(String, u32), FormatError>)
    ensures
        match r {
            Ok((c, n)) => header_spec(input@) == Ok::<(Seq<char>, nat), FormatError>(
                (c@, n as nat),
            ) && copyright_fits(c@),
            Err(e) => header_spec(input@) == Err::<(Seq<char>, nat), FormatError>(e),
        },
{
    if input.len() < HEADER_SIZE {
        return Err(FormatError::TruncatedInput);
    }
    if !(input[0] == 0x50 && input[1] == 0x4d && input[2] == 0x41 && input[3] == 0x4e) {
        assert(input@.subrange(0, 4) != magic()) by {
            if input@.subrange(0, 4) == magic() {
                assert(input@[0] == input@.subrange(0, 4)[0]);
                assert(input@[1] == input@.subrange(0, 4)[1]);
                assert(input@[2] == input@.subrange(0, 4)[2]);
                assert(input@[3] == input@.subrange(0, 4)[3]);
            }
        }
        return Err(FormatError::BadMagic);
    }
    assert(input@.subrange(0, 4) =~= magic());
    if input[63] != 0 {
        return Err(FormatError::UnterminatedCopyright);
    }
    let copyright = copyright_from_field(&input[8..63]);
    assert(input@.subrange(8, 63) == copyright_field(input@));
    if copyright.as_str().as_bytes().len() > COPYRIGHT_MAX_SIZE {
        return Err(FormatError::UnterminatedCopyright);
    }
    let count = read_u32_le(input, 4);
    Ok((copyright, count))
}

/// Reads the `file_entry_count` records of the entry table that follows the
/// header.
pub fn read_file_entries(input: &[u8], file_entry_count: u32) -> (r: Result<
    Vec<FileEntry>,
    FormatError,
>)
    ensures
        match r {
            Ok(v) => table_spec(input@, file_entry_count as nat) == Ok::<
                Seq<FileEntry>,
                FormatError,
            >(v@),
            Err(e) => table_spec(input@, file_entry_count as nat) == Err::<
                Seq<FileEntry>,
                FormatError,
            >(e),
        },
{
    let n = file_entry_count as usize;
    if input.len() < HEADER_SIZE || (input.len() - HEADER_SIZE) / ENTRY_SIZE < n {
        return Err(FormatError::TruncatedInput);
    }
    assert(input@.len() >= header_size_spec(n as nat)) by (nonlinear_arith)
        requires
            input@.len() >= 64,
            (input@.len() - 64) / 16 >= n,
    ;
    let len = input.len();
    let mut entries: Vec<FileEntry> = Vec::new();
    let mut i: usize = 0;
    while i < n
        invariant
            len == input@.len(),
            n == file_entry_count,
            i <= n,
            input@.len() >= header_size_spec(n as nat),
            entries@ =~= Seq::new(i as nat, |j: int| entry_at(input@, j)),
            forall|j: int| 0 <= j < i ==> reserved_zero(input@, j),
        decreases n - i,
    {
        assert(64 + 16 * i + 16 <= input@.len()) by (nonlinear_arith)
            requires
                i < n,
                input@.len() >= 64 + 16 * n,
        ;
        let at = HEADER_SIZE + ENTRY_SIZE * i;
        if !u32_zero(input, at) || !u32_zero(input, at + 12) {
            assert(!reserved_zero(input@, i as int));
            return Err(FormatError::UnexpectedNonZeroField);
        }
        let offset = read_u32_le(input, at + 4);
        let size = read_u32_le(input, at + 8);
        entries.push(FileEntry::new(offset, size));
        i = i + 1;
    }
    Ok(entries)
}

/// Slices the payloads that `entries` locate out of `input`, the first one
/// starting at `start`; the gaps between entries are skipped.
pub fn read_files(input: &[u8], start: usize, entries: &Vec<FileEntry>) -> (r: Result<
    Vec<PmanFileData>,
    FormatError,
>)
    requires
        start <= input@.len(),
    ensures
        match r {
            Ok(v) => files_spec(input@, start as int, entries@) == Ok::<
                Seq<Seq<u8>>,
                FormatError,
            >(v@.map_values(|f: PmanFileData| f@)),
            Err(e) => files_spec(input@, start as int, entries@) == Err::<
                Seq<Seq<u8>>,
                FormatError,
            >(e),
        },
{
    let n = entries.len();
    let mut i: usize = 1;
    while i < n
        invariant
            n == entries@.len(),
            1 <= i,
            forall|j: int| 1 <= j < i && j < n ==> !overlaps(entries@, j),
            forall|j: int| 0 <= j < i && j < n ==> entries@[0].offset <= (#[trigger] entries@[j]).offset,
        decreases n - i,
    {
        let prev = entries[i - 1];
        let entry = entries[i];
        if (entry.offset as u64) < prev.offset as u64 + prev.size as u64 {
            assert(overlaps(entries@, i as int));
            return Err(FormatError::OverlappingEntries);
        }
        i = i + 1;
    }
    let mut files: Vec<PmanFileData> = Vec::new();
    let mut i: usize = 0;
    while i < n
        invariant
            n == entries@.len(),
            start <= input@.len(),
            forall|j: int| 1 <= j < n ==> !overlaps(entries@, j),
            forall|j: int| 0 <= j < n ==> entries@[0].offset <= (#[trigger] entries@[j]).offset,
            i <= n,
            files@.len() == i,
            forall|j: int| 0 <= j < i ==> payload_end(start as int, entries@, j) <= input@.len(),
            forall|j: int|
                0 <= j < i ==> (#[trigger] files@[j])@ == input@.subrange(
                    payload_start(start as int, entries@, j),
                    payload_end(start as int, entries@, j),
                ),
        decreases n - i,
    {
        let entry = entries[i];
        let skip = (entry.offset - entries[0].offset) as usize;
        if skip > input.len() - start || entry.size as usize > input.len() - start - skip {
            assert(payload_end(start as int, entries@, i as int) > input@.len());
            return Err(FormatError::TruncatedPayload);
        }
        let from = start + skip;
        let to = from + entry.size as usize;
        let bytes = vstd::slice::slice_to_vec(&input[from..to]);
        files.push(PmanFileData { bytes });
        i = i + 1;
    }
    assert(files@.map_values(|f: PmanFileData| f@) =~= Seq::new(
        n as nat,
        |j: int|
            input@.subrange(
                payload_start(start as int, entries@, j),
                payload_end(start as int, entries@, j),
            ),
    ));
    Ok(files)
}

} // verus!
