//! Where an archive keeps its directory and its files.

use vstd::prelude::*;

use crate::convert::archive::{
    directory, directory_entry, directory_from, end_record, entry_range, last_end_record, word32,
    EntryModel, ZipEntry, ZipFault,
};
use crate::text::lossy_text;

verus! {

/// The four bytes at a place.
pub open spec fn has_mark(bytes: Seq<u8>, at: int, third: u8, fourth: u8) -> bool {
    &&& 0 <= at
    &&& at + 4 <= bytes.len()
    &&& bytes[at] == 0x50
    &&& bytes[at + 1] == 0x4b
    &&& bytes[at + 2] == third
    &&& bytes[at + 3] == fourth
}

proof fn lemma_mark(bytes: Seq<u8>, at: int)
    requires
        0 <= at,
        at + 4 <= bytes.len(),
    ensures
        word32(bytes, at) == 0x0605_4b50 <==> has_mark(bytes, at, 5, 6),
        word32(bytes, at) == 0x0201_4b50 <==> has_mark(bytes, at, 1, 2),
        word32(bytes, at) == 0x0403_4b50 <==> has_mark(bytes, at, 3, 4),
{
}

/// The end record of an archive is the last place with its mark, within the longest comment
/// that can follow it.
pub proof fn lemma_end_record(bytes: Seq<u8>)
    ensures
        match end_record(bytes) {
            Some(at) => {
                &&& has_mark(bytes, at, 5, 6)
                &&& at + 22 <= bytes.len() || at == 0
                &&& at + 22 + 65_535 >= bytes.len()
                &&& forall|later: int|
                    at < later && later + 22 <= bytes.len() ==> !#[trigger] has_mark(
                        bytes,
                        later,
                        5,
                        6,
                    )
            },
            None => forall|at: int|
                0 <= at && at + 22 <= bytes.len() && at + 22 + 65_535 >= bytes.len()
                    ==> !#[trigger] has_mark(bytes, at, 5, 6),
        },
{
    let len = bytes.len() as int;
    let high = if len < 22 {
        0
    } else {
        len - 22
    };
    let low = if len < 22 + 65_535 {
        0
    } else {
        len - (22 + 65_535)
    };
    lemma_last_end(bytes, low, high);
}

proof fn lemma_last_end(bytes: Seq<u8>, low: int, high: int)
    requires
        0 <= low,
    ensures
        match last_end_record(bytes, low, high) {
            Some(at) => low <= at <= high && has_mark(bytes, at, 5, 6) && forall|later: int|
                at < later <= high ==> !#[trigger] has_mark(bytes, later, 5, 6),
            None => forall|at: int| low <= at <= high ==> !#[trigger] has_mark(bytes, at, 5, 6),
        },
    decreases high - low + 1,
{
    if high >= low {
        if high + 4 <= bytes.len() {
            lemma_mark(bytes, high);
        }
        lemma_last_end(bytes, low, high - 1);
    }
}

/// The directory has as many entries as its end record says, from the place on that it says,
/// one behind the other.
pub proof fn lemma_directory(bytes: Seq<u8>, at: int)
    requires
        end_record(bytes) == Some(at),
        at + 20 <= bytes.len(),
    ensures
        ({
            let count = bytes[at + 10] + 0x100 * bytes[at + 11];
            let start = bytes[at + 16] + 0x100 * bytes[at + 17] + 0x1_0000 * bytes[at + 18]
                + 0x100_0000 * bytes[at + 19];
            &&& count == 0xffff || start == 0xffff_ffff ==> directory(bytes) == Err::<
                Seq<EntryModel>,
                ZipFault,
            >(ZipFault::Zip64)
            &&& count != 0xffff && start != 0xffff_ffff ==> directory(bytes) == directory_from(
                bytes,
                start,
                count,
                Seq::empty(),
            )
        }),
{
}

/// An entry of the directory: its method, its size, the place of its data and its name, and
/// where the next one is.
pub proof fn lemma_entry(bytes: Seq<u8>, at: int)
    requires
        0 <= at,
        at + 46 <= bytes.len(),
    ensures
        !has_mark(bytes, at, 1, 2) ==> directory_entry(bytes, at) == Err::<
            (EntryModel, int),
            ZipFault,
        >(ZipFault::CorruptDirectory(at)),
        has_mark(bytes, at, 1, 2) ==> {
            let size = bytes[at + 20] + 0x100 * bytes[at + 21] + 0x1_0000 * bytes[at + 22]
                + 0x100_0000 * bytes[at + 23];
            let offset = bytes[at + 42] + 0x100 * bytes[at + 43] + 0x1_0000 * bytes[at + 44]
                + 0x100_0000 * bytes[at + 45];
            let end = at + 46 + bytes[at + 28] + 0x100 * bytes[at + 29];
            let next = end + bytes[at + 30] + 0x100 * bytes[at + 31] + bytes[at + 32] + 0x100
                * bytes[at + 33];
            &&& size == 0xffff_ffff || offset == 0xffff_ffff ==> directory_entry(bytes, at) == Err::<
                (EntryModel, int),
                ZipFault,
            >(ZipFault::Zip64)
            &&& size != 0xffff_ffff && offset != 0xffff_ffff && end > bytes.len()
                ==> directory_entry(bytes, at) == Err::<(EntryModel, int), ZipFault>(
                ZipFault::DirectoryEnd,
            )
            &&& size != 0xffff_ffff && offset != 0xffff_ffff && end <= bytes.len()
                ==> directory_entry(bytes, at) == Ok::<(EntryModel, int), ZipFault>(
                (
                    EntryModel {
                        name: lossy_text(bytes.subrange(at + 46, end)),
                        method: (bytes[at + 10] + 0x100 * bytes[at + 11]) as u16,
                        compressed_size: size as u32,
                        local_offset: offset as u32,
                    },
                    next,
                ),
            )
        },
{
    lemma_mark(bytes, at);
}

/// The data of a file that is stored as it is begin behind its local header, its name and what
/// is added to them, and are as long as the directory says; other files are refused.
pub proof fn lemma_file_data(bytes: Seq<u8>, entry: EntryModel)
    ensures
        ({
            let at = entry.local_offset as int;
            let start = at + 30 + bytes[at + 26] + 0x100 * bytes[at + 27] + bytes[at + 28] + 0x100
                * bytes[at + 29];
            let end = start + entry.compressed_size;
            &&& entry.method != 0 ==> entry_range(bytes, entry) == Err::<(int, int), ZipFault>(
                ZipFault::Compressed(entry.name, entry.method),
            )
            &&& entry.method == 0 && at + 30 <= bytes.len() && !has_mark(bytes, at, 3, 4)
                ==> entry_range(bytes, entry) == Err::<(int, int), ZipFault>(
                ZipFault::CorruptLocalHeader(entry.name),
            )
            &&& entry.method == 0 && at + 30 <= bytes.len() && has_mark(bytes, at, 3, 4) && end
                <= bytes.len() ==> entry_range(bytes, entry) == Ok::<(int, int), ZipFault>(
                (start, end),
            )
            &&& entry.method == 0 && at + 30 <= bytes.len() && has_mark(bytes, at, 3, 4) && end
                > bytes.len() ==> entry_range(bytes, entry) == Err::<(int, int), ZipFault>(
                ZipFault::DataEnd(entry.name),
            )
        }),
{
    let at = entry.local_offset as int;
    if at + 4 <= bytes.len() {
        lemma_mark(bytes, at);
    }
}

/// An entry says what its parts say.
pub proof fn lemma_entry_view(entry: ZipEntry)
    ensures
        entry@.name == entry.name@,
        entry@.method == entry.method,
        entry@.compressed_size == entry.compressed_size,
        entry@.local_offset == entry.local_offset,
{
}

} // verus!
