//! A minimal zip reader: stored entries only, no ZIP64.

use vstd::prelude::*;

use crate::text::{lossy_text, text_lossy};

verus! {

/// One entry of the central directory.
#[derive(Debug)]
pub struct ZipEntry {
    pub name: String,
    pub method: u16,
    pub compressed_size: u32,
    pub local_offset: u32,
}

/// What a `ZipEntry` says.
pub ghost struct EntryModel {
    pub name: Seq<char>,
    pub method: u16,
    pub compressed_size: u32,
    pub local_offset: u32,
}

impl ZipEntry {
    pub open spec fn view(&self) -> EntryModel {
        EntryModel {
            name: self.name@,
            method: self.method,
            compressed_size: self.compressed_size,
            local_offset: self.local_offset,
        }
    }
}

/// The models of a list of entries.
pub open spec fn entry_models(entries: Seq<ZipEntry>) -> Seq<EntryModel> {
    entries.map_values(|entry: ZipEntry| entry@)
}

/// Why an archive was refused.
#[derive(Debug)]
pub enum ZipError {
    /// The archive ends where a field was expected.
    UnexpectedEnd(u64),
    NoEndRecord,
    Zip64,
    CorruptDirectory(u64),
    /// The archive ends inside the name of a directory entry.
    DirectoryEnd,
    /// The entry is compressed, with this method.
    Compressed(String, u16),
    CorruptLocalHeader(String),
    /// The archive ends inside the data of the entry.
    DataEnd(String),
}

/// The mathematical model of a `ZipError`.
pub ghost enum ZipFault {
    UnexpectedEnd(int),
    NoEndRecord,
    Zip64,
    CorruptDirectory(int),
    DirectoryEnd,
    Compressed(Seq<char>, u16),
    CorruptLocalHeader(Seq<char>),
    DataEnd(Seq<char>),
}

impl ZipError {
    pub open spec fn view(&self) -> ZipFault {
        match self {
            ZipError::UnexpectedEnd(at) => ZipFault::UnexpectedEnd(*at as int),
            ZipError::NoEndRecord => ZipFault::NoEndRecord,
            ZipError::Zip64 => ZipFault::Zip64,
            ZipError::CorruptDirectory(at) => ZipFault::CorruptDirectory(*at as int),
            ZipError::DirectoryEnd => ZipFault::DirectoryEnd,
            ZipError::Compressed(name, method) => ZipFault::Compressed(name@, *method),
            ZipError::CorruptLocalHeader(name) => ZipFault::CorruptLocalHeader(name@),
            ZipError::DataEnd(name) => ZipFault::DataEnd(name@),
        }
    }
}

/// The signature of the end of central directory record.
pub const END_SIGNATURE: u32 = 0x0605_4b50;

/// The signature of a central directory entry.
pub const ENTRY_SIGNATURE: u32 = 0x0201_4b50;

/// The signature of a local header.
pub const LOCAL_SIGNATURE: u32 = 0x0403_4b50;

/// The length of the end of central directory record without its comment.
pub const END_LENGTH: usize = 22;

/// The greatest length of an archive comment.
pub const MAX_COMMENT: usize = 65_535;

/// The two-byte number at `at`, the least significant byte first.
pub open spec fn word16(bytes: Seq<u8>, at: int) -> int {
    bytes[at] + 0x100 * bytes[at + 1]
}

/// The four-byte number at `at`, the least significant byte first.
pub open spec fn word32(bytes: Seq<u8>, at: int) -> int {
    bytes[at] + 0x100 * bytes[at + 1] + 0x1_0000 * bytes[at + 2] + 0x100_0000 * bytes[at + 3]
}

/// Reads the two-byte number at `offset`.
pub fn read_u16_le(bytes: &[u8], offset: u64) -> (r: Result<u16, ZipError>)
    ensures
        r is Ok <==> offset + 2 <= bytes@.len(),
        r is Ok ==> r->Ok_0 == word16(bytes@, offset as int),
        r is Err ==> r->Err_0@ == ZipFault::UnexpectedEnd(offset as int),
{
    let len: u64 = bytes.len() as u64;
    if len < 2 || offset > len - 2 {
        return Err(ZipError::UnexpectedEnd(offset));
    }
    let at: usize = offset as usize;
    Ok(bytes[at] as u16 + 0x100 * bytes[at + 1] as u16)
}

/// Reads the four-byte number at `offset`.
pub fn read_u32_le(bytes: &[u8], offset: u64) -> (r: Result<u32, ZipError>)
    ensures
        r is Ok <==> offset + 4 <= bytes@.len(),
        r is Ok ==> r->Ok_0 == word32(bytes@, offset as int),
        r is Err ==> r->Err_0@ == ZipFault::UnexpectedEnd(offset as int),
{
    let len: u64 = bytes.len() as u64;
    if len < 4 || offset > len - 4 {
        return Err(ZipError::UnexpectedEnd(offset));
    }
    let at: usize = offset as usize;
    Ok(
        bytes[at] as u32 + 0x100 * bytes[at + 1] as u32 + 0x1_0000 * bytes[at + 2] as u32
            + 0x100_0000 * bytes[at + 3] as u32,
    )
}

/// The end of central directory signature stands at `at`.
pub open spec fn is_end_record(bytes: Seq<u8>, at: int) -> bool {
    at + 4 <= bytes.len() && word32(bytes, at) == END_SIGNATURE
}

/// The last place from `low` to `high` where the end signature stands.
pub open spec fn last_end_record(bytes: Seq<u8>, low: int, high: int) -> Option<int>
    decreases high - low + 1,
{
    if high < low {
        None
    } else if is_end_record(bytes, high) {
        Some(high)
    } else {
        last_end_record(bytes, low, high - 1)
    }
}

/// `n` less `by`, or zero.
pub open spec fn reduced(n: int, by: int) -> int {
    if n < by {
        0
    } else {
        n - by
    }
}

/// Where the end of central directory record stands: the last place that leaves
/// room for it and is at most the greatest comment away from the end.
pub open spec fn end_record(bytes: Seq<u8>) -> Option<int> {
    last_end_record(
        bytes,
        reduced(bytes.len() as int, END_LENGTH + MAX_COMMENT),
        reduced(bytes.len() as int, END_LENGTH as int),
    )
}

/// The directory entry at `at`, and where the next one stands.
pub open spec fn directory_entry(bytes: Seq<u8>, at: int) -> Result<(EntryModel, int), ZipFault> {
    let len = bytes.len();
    if at + 4 > len {
        Err(ZipFault::UnexpectedEnd(at))
    } else if word32(bytes, at) != ENTRY_SIGNATURE {
        Err(ZipFault::CorruptDirectory(at))
    } else if at + 12 > len {
        Err(ZipFault::UnexpectedEnd(at + 10))
    } else if at + 24 > len {
        Err(ZipFault::UnexpectedEnd(at + 20))
    } else if at + 30 > len {
        Err(ZipFault::UnexpectedEnd(at + 28))
    } else if at + 32 > len {
        Err(ZipFault::UnexpectedEnd(at + 30))
    } else if at + 34 > len {
        Err(ZipFault::UnexpectedEnd(at + 32))
    } else if at + 46 > len {
        Err(ZipFault::UnexpectedEnd(at + 42))
    } else {
        let size = word32(bytes, at + 20);
        let offset = word32(bytes, at + 42);
        let name_end = at + 46 + word16(bytes, at + 28);
        if size == u32::MAX || offset == u32::MAX {
            Err(ZipFault::Zip64)
        } else if name_end > len {
            Err(ZipFault::DirectoryEnd)
        } else {
            Ok(
                (
                    EntryModel {
                        name: lossy_text(bytes.subrange(at + 46, name_end)),
                        method: word16(bytes, at + 10) as u16,
                        compressed_size: size as u32,
                        local_offset: offset as u32,
                    },
                    name_end + word16(bytes, at + 30) + word16(bytes, at + 32),
                ),
            )
        }
    }
}

/// The entries `done`, followed by the `count` entries from `at` on.
pub open spec fn directory_from(
    bytes: Seq<u8>,
    at: int,
    count: int,
    done: Seq<EntryModel>,
) -> Result<Seq<EntryModel>, ZipFault>
    decreases count,
{
    if count <= 0 {
        Ok(done)
    } else {
        match directory_entry(bytes, at) {
            Err(fault) => Err(fault),
            Ok((entry, next)) => directory_from(bytes, next, count - 1, done.push(entry)),
        }
    }
}

/// The entries of the archive, in the order of its central directory.
pub open spec fn directory(bytes: Seq<u8>) -> Result<Seq<EntryModel>, ZipFault> {
    match end_record(bytes) {
        None => Err(ZipFault::NoEndRecord),
        Some(end) => if end + 12 > bytes.len() {
            Err(ZipFault::UnexpectedEnd(end + 10))
        } else if end + 20 > bytes.len() {
            Err(ZipFault::UnexpectedEnd(end + 16))
        } else if word16(bytes, end + 10) == u16::MAX || word32(bytes, end + 16) == u32::MAX {
            Err(ZipFault::Zip64)
        } else {
            directory_from(bytes, word32(bytes, end + 16), word16(bytes, end + 10), Seq::empty())
        },
    }
}

/// Finds the end of central directory record.
fn find_end_record(bytes: &[u8]) -> (found: Option<u64>)
    ensures
        match end_record(bytes@) {
            Some(at) => found is Some && found->0 == at && (at == 0 || at + 22 <= bytes@.len()),
            None => found is None,
        },
        found is Some ==> found->0 + 22 <= u64::MAX,
{
    let len: u64 = bytes.len() as u64;
    let room: u64 = 22 + 65_535;
    let low: u64 = if len < room {
        0
    } else {
        len - room
    };
    let mut next: u64 = if len < 22 {
        1
    } else {
        len - 22 + 1
    };
    while next > low
        invariant
            len == bytes@.len(),
            low == reduced(len as int, END_LENGTH + MAX_COMMENT),
            low <= next,
            next <= 1 || next + 21 <= len,
            end_record(bytes@) == last_end_record(bytes@, low as int, next - 1),
        decreases next,
    {
        let at: u64 = next - 1;
        if let Ok(word) = read_u32_le(bytes, at) {
            if word == END_SIGNATURE {
                return Some(at);
            }
        }
        next = at;
    }
    None
}

/// Reads the directory entry at `at`.
fn read_directory_entry(bytes: &[u8], at: u64) -> (r: Result<(ZipEntry, u64), ZipError>)
    requires
        at < 0x1_0000_0000_0000,
    ensures
        match directory_entry(bytes@, at as int) {
            Ok((entry, next)) => r is Ok && r->Ok_0.0@ == entry && r->Ok_0.1 == next,
            Err(fault) => r is Err && r->Err_0@ == fault,
        },
        r is Ok ==> r->Ok_0.1 <= at + 0x4_0000,
{
    let signature: u32 = read_u32_le(bytes, at)?;
    if signature != ENTRY_SIGNATURE {
        return Err(ZipError::CorruptDirectory(at));
    }
    let method: u16 = read_u16_le(bytes, at + 10)?;
    let compressed_size: u32 = read_u32_le(bytes, at + 20)?;
    let name_len: u64 = read_u16_le(bytes, at + 28)? as u64;
    let extra_len: u64 = read_u16_le(bytes, at + 30)? as u64;
    let comment_len: u64 = read_u16_le(bytes, at + 32)? as u64;
    let local_offset: u32 = read_u32_le(bytes, at + 42)?;
    if compressed_size == 0xffff_ffff || local_offset == 0xffff_ffff {
        return Err(ZipError::Zip64);
    }
    let start: u64 = at + 46;
    let end: u64 = start + name_len;
    if end > bytes.len() as u64 {
        return Err(ZipError::DirectoryEnd);
    }
    let raw = vstd::slice::slice_subrange(bytes, start as usize, end as usize);
    let name = text_lossy(raw);
    Ok(
        (
            ZipEntry { name, method, compressed_size, local_offset },
            end + extra_len + comment_len,
        ),
    )
}

/// Reads the central directory of the archive `bytes`.
pub fn zip_entries(bytes: &[u8]) -> (r: Result<Vec<ZipEntry>, ZipError>)
    ensures
        match directory(bytes@) {
            Ok(entries) => r is Ok && entry_models(r->Ok_0@) == entries,
            Err(fault) => r is Err && r->Err_0@ == fault,
        },
{
    let end: u64 = match find_end_record(bytes) {
        Some(at) => at,
        None => {
            return Err(ZipError::NoEndRecord);
        },
    };
    let total: u16 = read_u16_le(bytes, end + 10)?;
    let cd_offset: u32 = read_u32_le(bytes, end + 16)?;
    if total == 0xffff || cd_offset == 0xffff_ffff {
        return Err(ZipError::Zip64);
    }
    let mut entries: Vec<ZipEntry> = Vec::new();
    let mut at: u64 = cd_offset as u64;
    let mut left: u16 = total;
    assert(entry_models(entries@) =~= Seq::empty());
    while left > 0
        invariant
            left <= total,
            at <= 0x1_0000_0000 + (total - left) * 0x4_0000,
            directory(bytes@) == directory_from(
                bytes@,
                at as int,
                left as int,
                entry_models(entries@),
            ),
        decreases left,
    {
        let (entry, next) = read_directory_entry(bytes, at)?;
        let ghost before = entries@;
        let ghost model = entry@;
        entries.push(entry);
        assert(entry_models(entries@) =~= entry_models(before).push(model));
        at = next;
        left = left - 1;
    }
    Ok(entries)
}

/// Where the data of `entry` stand in the archive: their start and their end.
pub open spec fn entry_range(bytes: Seq<u8>, entry: EntryModel) -> Result<(int, int), ZipFault> {
    let at = entry.local_offset as int;
    if entry.method != 0 {
        Err(ZipFault::Compressed(entry.name, entry.method))
    } else if at + 4 > bytes.len() {
        Err(ZipFault::UnexpectedEnd(at))
    } else if word32(bytes, at) != LOCAL_SIGNATURE {
        Err(ZipFault::CorruptLocalHeader(entry.name))
    } else if at + 28 > bytes.len() {
        Err(ZipFault::UnexpectedEnd(at + 26))
    } else if at + 30 > bytes.len() {
        Err(ZipFault::UnexpectedEnd(at + 28))
    } else {
        let start = at + 30 + word16(bytes, at + 26) + word16(bytes, at + 28);
        let end = start + entry.compressed_size;
        if end > bytes.len() {
            Err(ZipFault::DataEnd(entry.name))
        } else {
            Ok((start, end))
        }
    }
}

/// The data of `entry`.
pub fn zip_entry_data<'a>(bytes: &'a [u8], entry: &ZipEntry) -> (r: Result<&'a [u8], ZipError>)
    ensures
        match entry_range(bytes@, entry@) {
            Ok((start, end)) => r is Ok && r->Ok_0@ == bytes@.subrange(start, end),
            Err(fault) => r is Err && r->Err_0@ == fault,
        },
{
    if entry.method != 0 {
        return Err(ZipError::Compressed(entry.name.clone(), entry.method));
    }
    let at: u64 = entry.local_offset as u64;
    let signature: u32 = read_u32_le(bytes, at)?;
    if signature != LOCAL_SIGNATURE {
        return Err(ZipError::CorruptLocalHeader(entry.name.clone()));
    }
    let name_len: u64 = read_u16_le(bytes, at + 26)? as u64;
    let extra_len: u64 = read_u16_le(bytes, at + 28)? as u64;
    let start: u64 = at + 30 + name_len + extra_len;
    let end: u64 = start + entry.compressed_size as u64;
    if end > bytes.len() as u64 {
        return Err(ZipError::DataEnd(entry.name.clone()));
    }
    Ok(vstd::slice::slice_subrange(bytes, start as usize, end as usize))
}

/// A file to be stored in an archive, with the parts of its headers that nothing
/// here depends on.
pub ghost struct StoredFile {
    pub name: Seq<char>,
    pub data: Seq<u8>,
    /// The other bytes of the local header.
    pub local_rest: Seq<u8>,
    pub local_extra: Seq<u8>,
    /// The other bytes of the directory entry.
    pub entry_rest: Seq<u8>,
    pub entry_extra: Seq<u8>,
    pub comment: Seq<u8>,
}

/// The byte `k` of a number, the least significant first.
pub open spec fn byte_of(n: int, k: int) -> u8 {
    if k == 0 {
        (n % 0x100) as u8
    } else if k == 1 {
        (n / 0x100 % 0x100) as u8
    } else if k == 2 {
        (n / 0x1_0000 % 0x100) as u8
    } else {
        (n / 0x100_0000 % 0x100) as u8
    }
}

/// The byte `i` of the local header of a file.
pub open spec fn local_byte(file: StoredFile, i: int) -> u8 {
    if i < 4 {
        byte_of(LOCAL_SIGNATURE as int, i)
    } else if 26 <= i < 28 {
        byte_of(vstd::utf8::encode_utf8(file.name).len() as int, i - 26)
    } else if 28 <= i {
        byte_of(file.local_extra.len() as int, i - 28)
    } else {
        file.local_rest[i]
    }
}

/// What is written for a file: its local header, its name and its data.
pub open spec fn local_part(file: StoredFile) -> Seq<u8> {
    Seq::new(30, |i: int| local_byte(file, i)) + vstd::utf8::encode_utf8(file.name)
        + file.local_extra + file.data
}

/// What is written for the first `n` files.
pub open spec fn local_parts(files: Seq<StoredFile>, n: int) -> Seq<u8>
    decreases n,
{
    if n <= 0 {
        Seq::empty()
    } else {
        local_parts(files, n - 1) + local_part(files[n - 1])
    }
}

/// The byte `i` of the directory entry of a file whose local header stands at
/// `offset`.
pub open spec fn entry_byte(file: StoredFile, offset: int, i: int) -> u8 {
    if i < 4 {
        byte_of(ENTRY_SIGNATURE as int, i)
    } else if 10 <= i < 12 {
        0
    } else if 20 <= i < 24 {
        byte_of(file.data.len() as int, i - 20)
    } else if 28 <= i < 30 {
        byte_of(vstd::utf8::encode_utf8(file.name).len() as int, i - 28)
    } else if 30 <= i < 32 {
        byte_of(file.entry_extra.len() as int, i - 30)
    } else if 32 <= i < 34 {
        byte_of(file.comment.len() as int, i - 32)
    } else if 42 <= i {
        byte_of(offset, i - 42)
    } else {
        file.entry_rest[i]
    }
}

/// The directory entry of a file whose local header stands at `offset`.
pub open spec fn entry_part(file: StoredFile, offset: int) -> Seq<u8> {
    Seq::new(46, |i: int| entry_byte(file, offset, i)) + vstd::utf8::encode_utf8(file.name)
        + file.entry_extra + file.comment
}

/// The directory entries of the first `n` files.
pub open spec fn entry_parts(files: Seq<StoredFile>, n: int) -> Seq<u8>
    decreases n,
{
    if n <= 0 {
        Seq::empty()
    } else {
        entry_parts(files, n - 1) + entry_part(
            files[n - 1],
            local_parts(files, n - 1).len() as int,
        )
    }
}

/// The byte `i` of the record that ends an archive of `count` files whose directory
/// stands at `offset`. There is no comment.
pub open spec fn end_byte(count: int, offset: int, rest: Seq<u8>, i: int) -> u8 {
    if i < 4 {
        byte_of(END_SIGNATURE as int, i)
    } else if 10 <= i < 12 {
        byte_of(count, i - 10)
    } else if 16 <= i < 20 {
        byte_of(offset, i - 16)
    } else if 20 <= i {
        0
    } else {
        rest[i]
    }
}

/// An archive of stored files: what is written for each, the directory, and the
/// record that ends it, whose other bytes are `rest`.
pub open spec fn stored_archive(files: Seq<StoredFile>, rest: Seq<u8>) -> Seq<u8> {
    let count = files.len() as int;
    local_parts(files, count) + entry_parts(files, count) + Seq::new(
        22,
        |i: int| end_byte(count, local_parts(files, count).len() as int, rest, i),
    )
}

/// Every length and every place fits into the bits that an archive has for it.
pub open spec fn can_store(files: Seq<StoredFile>) -> bool {
    &&& files.len() < u16::MAX
    &&& local_parts(files, files.len() as int).len() < u32::MAX
    &&& forall|i: int|
        0 <= i < files.len() ==> {
            &&& vstd::utf8::encode_utf8((#[trigger] files[i]).name).len() <= u16::MAX
            &&& files[i].local_extra.len() <= u16::MAX
            &&& files[i].entry_extra.len() <= u16::MAX
            &&& files[i].comment.len() <= u16::MAX
        }
}

/// The directory entry that is read for the file in the given place.
pub open spec fn stored_entry(files: Seq<StoredFile>, place: int) -> EntryModel {
    EntryModel {
        name: files[place].name,
        method: 0,
        compressed_size: files[place].data.len() as u32,
        local_offset: local_parts(files, place).len() as u32,
    }
}

/// A part of a whole reads as it does alone.
proof fn lemma_word_within(front: Seq<u8>, part: Seq<u8>, back: Seq<u8>, j: int)
    requires
        0 <= j,
        j + 2 <= part.len(),
    ensures
        word16(front + part + back, front.len() + j) == word16(part, j),
        j + 4 <= part.len() ==> word32(front + part + back, front.len() + j) == word32(part, j),
{
    let whole = front + part + back;
    assert forall|k: int| 0 <= k < part.len() implies whole[front.len() + k] == #[trigger] part[k] by {
    }
    assert(whole[front.len() + j] == part[j]);
    assert(whole[front.len() + j + 1] == part[j + 1]);
    if j + 4 <= part.len() {
        assert(whole[front.len() + j + 2] == part[j + 2]);
        assert(whole[front.len() + j + 3] == part[j + 3]);
    }
}

/// The bytes of a number make up the number.
proof fn lemma_bytes_of(n: int)
    requires
        0 <= n < 0x1_0000_0000,
    ensures
        byte_of(n, 0) + 0x100 * byte_of(n, 1) + 0x1_0000 * byte_of(n, 2) + 0x100_0000 * byte_of(
            n,
            3,
        ) == n,
        n < 0x1_0000 ==> byte_of(n, 0) + 0x100 * byte_of(n, 1) == n,
{
}

/// What stands in the directory entry of a file.
proof fn lemma_entry_words(file: StoredFile, offset: int)
    requires
        0 <= offset < u32::MAX,
        file.data.len() < u32::MAX,
        vstd::utf8::encode_utf8(file.name).len() <= u16::MAX,
        file.entry_extra.len() <= u16::MAX,
        file.comment.len() <= u16::MAX,
    ensures
        word32(entry_part(file, offset), 0) == ENTRY_SIGNATURE,
        word16(entry_part(file, offset), 10) == 0,
        word32(entry_part(file, offset), 20) == file.data.len(),
        word16(entry_part(file, offset), 28) == vstd::utf8::encode_utf8(file.name).len(),
        word16(entry_part(file, offset), 30) == file.entry_extra.len(),
        word16(entry_part(file, offset), 32) == file.comment.len(),
        word32(entry_part(file, offset), 42) == offset,
        entry_part(file, offset).len() == 46 + vstd::utf8::encode_utf8(file.name).len()
            + file.entry_extra.len() + file.comment.len(),
{
    let part = entry_part(file, offset);
    assert forall|i: int| 0 <= i < 46 implies #[trigger] part[i] == entry_byte(file, offset, i) by {
    }
    lemma_bytes_of(ENTRY_SIGNATURE as int);
    lemma_bytes_of(file.data.len() as int);
    lemma_bytes_of(vstd::utf8::encode_utf8(file.name).len() as int);
    lemma_bytes_of(file.entry_extra.len() as int);
    lemma_bytes_of(file.comment.len() as int);
    lemma_bytes_of(offset);
}

/// What stands in the local header of a file.
proof fn lemma_local_words(file: StoredFile)
    requires
        vstd::utf8::encode_utf8(file.name).len() <= u16::MAX,
        file.local_extra.len() <= u16::MAX,
    ensures
        word32(local_part(file), 0) == LOCAL_SIGNATURE,
        word16(local_part(file), 26) == vstd::utf8::encode_utf8(file.name).len(),
        word16(local_part(file), 28) == file.local_extra.len(),
        local_part(file).len() == 30 + vstd::utf8::encode_utf8(file.name).len()
            + file.local_extra.len() + file.data.len(),
{
    let part = local_part(file);
    assert forall|i: int| 0 <= i < 30 implies #[trigger] part[i] == local_byte(file, i) by {
    }
    lemma_bytes_of(LOCAL_SIGNATURE as int);
    lemma_bytes_of(vstd::utf8::encode_utf8(file.name).len() as int);
    lemma_bytes_of(file.local_extra.len() as int);
}

/// What is written for the first files comes first.
proof fn lemma_locals_front(files: Seq<StoredFile>, n: int, m: int)
    requires
        0 <= n <= m <= files.len(),
    ensures
        local_parts(files, n).len() <= local_parts(files, m).len(),
        local_parts(files, m).take(local_parts(files, n).len() as int) == local_parts(files, n),
    decreases m,
{
    if n < m {
        lemma_locals_front(files, n, m - 1);
        let front = local_parts(files, n);
        assert(local_parts(files, m).take(front.len() as int) =~= local_parts(files, m - 1).take(
            front.len() as int,
        ));
    } else {
        assert(local_parts(files, m).take(local_parts(files, n).len() as int) =~= local_parts(
            files,
            n,
        ));
    }
}

/// The entries of the first files come first.
proof fn lemma_entries_front(files: Seq<StoredFile>, n: int, m: int)
    requires
        0 <= n <= m <= files.len(),
    ensures
        entry_parts(files, n).len() <= entry_parts(files, m).len(),
        entry_parts(files, m).take(entry_parts(files, n).len() as int) == entry_parts(files, n),
    decreases m,
{
    if n < m {
        lemma_entries_front(files, n, m - 1);
        let front = entry_parts(files, n);
        assert(entry_parts(files, m).take(front.len() as int) =~= entry_parts(files, m - 1).take(
            front.len() as int,
        ));
    } else {
        assert(entry_parts(files, m).take(entry_parts(files, n).len() as int) =~= entry_parts(
            files,
            n,
        ));
    }
}

/// An archive is what is written for one file, between what comes before and after
/// it.
proof fn lemma_local_between(files: Seq<StoredFile>, rest: Seq<u8>, i: int) -> (back: Seq<u8>)
    requires
        0 <= i < files.len(),
    ensures
        stored_archive(files, rest) == local_parts(files, i) + local_part(files[i]) + back,
        local_parts(files, i).len() + local_part(files[i]).len() <= local_parts(
            files,
            files.len() as int,
        ).len(),
{
    let whole = stored_archive(files, rest);
    let count = files.len() as int;
    let front = local_parts(files, i);
    lemma_locals_front(files, i + 1, count);
    let upto = local_parts(files, i + 1);
    let back = whole.skip(upto.len() as int);
    assert(upto == front + local_part(files[i]));
    assert(whole.take(upto.len() as int) =~= local_parts(files, count).take(upto.len() as int));
    assert(whole =~= whole.take(upto.len() as int) + back);
    back
}

/// An archive is the directory entry of one file, between what comes before and
/// after it.
proof fn lemma_entry_between(files: Seq<StoredFile>, rest: Seq<u8>, i: int) -> (back: Seq<u8>)
    requires
        0 <= i < files.len(),
    ensures
        stored_archive(files, rest) == local_parts(files, files.len() as int) + entry_parts(
            files,
            i,
        ) + entry_part(files[i], local_parts(files, i).len() as int) + back,
{
    let whole = stored_archive(files, rest);
    let count = files.len() as int;
    let locals = local_parts(files, count);
    lemma_entries_front(files, i + 1, count);
    let upto = entry_parts(files, i + 1);
    let cut = locals.len() as int + upto.len();
    let back = whole.skip(cut);
    assert(whole.take(cut) =~= locals + entry_parts(files, count).take(upto.len() as int));
    assert(whole =~= whole.take(cut) + back);
    assert(locals + upto =~= locals + entry_parts(files, i) + entry_part(
        files[i],
        local_parts(files, i).len() as int,
    ));
    back
}

/// The directory entry of a stored file is read as it was written.
proof fn lemma_entry_read(files: Seq<StoredFile>, rest: Seq<u8>, i: int)
    requires
        can_store(files),
        0 <= i < files.len(),
    ensures
        directory_entry(
            stored_archive(files, rest),
            (local_parts(files, files.len() as int) + entry_parts(files, i)).len() as int,
        ) == Ok::<(EntryModel, int), ZipFault>(
            (
                stored_entry(files, i),
                (local_parts(files, files.len() as int) + entry_parts(files, i + 1)).len() as int,
            ),
        ),
{
    broadcast use vstd::utf8::encode_utf8_valid_utf8, vstd::utf8::encode_utf8_decode_utf8;

    let whole = stored_archive(files, rest);
    let file = files[i];
    let count = files.len() as int;
    let offset = local_parts(files, i).len() as int;
    let part = entry_part(file, offset);
    let front = local_parts(files, count) + entry_parts(files, i);
    let at = front.len() as int;
    let back = lemma_entry_between(files, rest, i);
    let _ = lemma_local_between(files, rest, i);
    lemma_local_words(file);
    lemma_entry_words(file, offset);
    lemma_word_within(front, part, back, 0);
    lemma_word_within(front, part, back, 10);
    lemma_word_within(front, part, back, 20);
    lemma_word_within(front, part, back, 28);
    lemma_word_within(front, part, back, 30);
    lemma_word_within(front, part, back, 32);
    lemma_word_within(front, part, back, 42);
    let name = vstd::utf8::encode_utf8(file.name);
    assert(whole.subrange(at + 46, at + 46 + name.len()) =~= name);
    assert(entry_parts(files, i + 1) == entry_parts(files, i) + part);
}

/// The directory of an archive of stored files is read from the file `i` on.
proof fn lemma_directory_from(files: Seq<StoredFile>, rest: Seq<u8>, i: int)
    requires
        can_store(files),
        0 <= i <= files.len(),
    ensures
        directory_from(
            stored_archive(files, rest),
            (local_parts(files, files.len() as int) + entry_parts(files, i)).len() as int,
            files.len() - i,
            Seq::new(i as nat, |k: int| stored_entry(files, k)),
        ) == Ok::<Seq<EntryModel>, ZipFault>(
            Seq::new(files.len(), |k: int| stored_entry(files, k)),
        ),
    decreases files.len() - i,
{
    let so_far = Seq::new(i as nat, |k: int| stored_entry(files, k));
    if i < files.len() {
        lemma_entry_read(files, rest, i);
        lemma_directory_from(files, rest, i + 1);
        assert(so_far.push(stored_entry(files, i)) =~= Seq::new(
            (i + 1) as nat,
            |k: int| stored_entry(files, k),
        ));
    } else {
        assert(so_far =~= Seq::new(files.len(), |k: int| stored_entry(files, k)));
    }
}

/// Reading an archive of stored files gives their names back, in the order of the
/// directory, and the data of each.
pub proof fn lemma_archive_round_trip(files: Seq<StoredFile>, rest: Seq<u8>, i: int)
    requires
        can_store(files),
        0 <= i < files.len(),
    ensures
        directory(stored_archive(files, rest)) == Ok::<Seq<EntryModel>, ZipFault>(
            Seq::new(files.len(), |k: int| stored_entry(files, k)),
        ),
        entry_range(stored_archive(files, rest), stored_entry(files, i)) matches Ok((start, end))
            && stored_archive(files, rest).subrange(start, end) == files[i].data,
{
    let whole = stored_archive(files, rest);
    let count = files.len() as int;
    let locals = local_parts(files, count);
    let front = locals + entry_parts(files, count);
    let last = Seq::new(22, |k: int| end_byte(count, locals.len() as int, rest, k));
    assert(whole =~= front + last + Seq::<u8>::empty());
    lemma_word_within(front, last, Seq::empty(), 0);
    lemma_word_within(front, last, Seq::empty(), 10);
    lemma_word_within(front, last, Seq::empty(), 16);
    lemma_bytes_of(END_SIGNATURE as int);
    lemma_bytes_of(count);
    lemma_bytes_of(locals.len() as int);
    assert(end_record(whole) == Some(front.len() as int));
    lemma_directory_from(files, rest, 0);
    assert(Seq::new(0, |k: int| stored_entry(files, k)) =~= Seq::empty());
    assert(locals + entry_parts(files, 0) =~= locals);

    let file = files[i];
    let before = local_parts(files, i);
    let part = local_part(file);
    let back = lemma_local_between(files, rest, i);
    lemma_local_words(file);
    lemma_word_within(before, part, back, 0);
    lemma_word_within(before, part, back, 26);
    lemma_word_within(before, part, back, 28);
    let start = before.len() as int + 30 + vstd::utf8::encode_utf8(file.name).len()
        + file.local_extra.len();
    assert(whole.subrange(start, start + file.data.len()) =~= file.data);
}

} // verus!
