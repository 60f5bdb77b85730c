//! The container format: a header magic followed by entries, each a small
//! header, a UTF-8 file name and a data blob. Entries are borrowed views
//! into the buffer.

use vstd::prelude::*;
use vstd::slice::slice_subrange;
use vstd::string::StringSliceAdditionalSpecFns;
use vstd::utf8::valid_utf8;

use crate::trusted::str_from_utf8;

verus! {

/// Magic number at the start of every container, stored little-endian.
pub const ARCHIVE_PREFIX: u32 = 0xae8f_dd01;

/// Magic number at the start of every entry header, stored little-endian.
pub const ARCHIVE_ENTRY_PREFIX: u16 = 0x1e8b;

/// Length of an entry header: magic, name length, data length.
pub const ENTRY_HEADER_LEN: usize = 8;

/// The little-endian 16-bit integer at `i`.
pub open spec fn le_u16(b: Seq<u8>, i: int) -> int {
    b[i] + b[i + 1] * 0x100
}

/// The little-endian 32-bit integer at `i`.
pub open spec fn le_u32(b: Seq<u8>, i: int) -> int {
    b[i] + b[i + 1] * 0x100 + b[i + 2] * 0x1_0000 + b[i + 3] * 0x100_0000
}

#[derive(Debug, Clone, Copy, PartialEq, Eq, Structural)]
pub enum ArchivePackageError {
    InvalidArchiveHeader,
    UnexpectedArchiveEof,
    InvalidArchiveEntryHeader,
    InvalidArchiveEntryName,
    UnexpectedEntryEof,
    TooSmallInitialBatch,
}

/// What reading the container header at `off` gives.
pub open spec fn header_result(b: Seq<u8>, off: int) -> Result<(), ArchivePackageError> {
    if b.len() < off + 4 {
        Err(ArchivePackageError::UnexpectedArchiveEof)
    } else if le_u32(b, off) == ARCHIVE_PREFIX {
        Ok(())
    } else {
        Err(ArchivePackageError::InvalidArchiveHeader)
    }
}

/// Name length of the entry whose header starts at `off`.
pub open spec fn entry_name_len(b: Seq<u8>, off: int) -> int {
    le_u16(b, off + 2)
}

/// Data length of the entry whose header starts at `off`.
pub open spec fn entry_data_len(b: Seq<u8>, off: int) -> int {
    le_u32(b, off + 4)
}

/// Where the name of the entry at `off` starts.
pub open spec fn entry_name_start(off: int) -> int {
    off + ENTRY_HEADER_LEN
}

/// Where the data of the entry at `off` starts.
pub open spec fn entry_data_start(b: Seq<u8>, off: int) -> int {
    off + ENTRY_HEADER_LEN + entry_name_len(b, off)
}

/// Where the entry at `off` ends.
pub open spec fn entry_end(b: Seq<u8>, off: int) -> int {
    entry_data_start(b, off) + entry_data_len(b, off)
}

/// What reading an entry at `off` gives: `Ok(None)` when fewer than a
/// header's bytes remain, `Ok(Some(()))` for a well-formed entry, or the
/// error that the first defect raises.
pub open spec fn entry_result(b: Seq<u8>, off: int) -> Result<Option<()>, ArchivePackageError> {
    if b.len() - off < ENTRY_HEADER_LEN {
        Ok(None)
    } else if le_u16(b, off) != ARCHIVE_ENTRY_PREFIX {
        Err(ArchivePackageError::InvalidArchiveEntryHeader)
    } else if b.len() < entry_end(b, off) {
        Err(ArchivePackageError::UnexpectedEntryEof)
    } else if !valid_utf8(b.subrange(entry_name_start(off), entry_data_start(b, off))) {
        Err(ArchivePackageError::InvalidArchiveEntryName)
    } else {
        Ok(Some(()))
    }
}

/// The reading position after an attempt to read the entry at `off`: it
/// stays put when no entry header is read, moves past the header when the
/// rest of the entry is defective, and past the whole entry otherwise.
pub open spec fn offset_after_entry(b: Seq<u8>, off: int) -> int {
    if b.len() - off < ENTRY_HEADER_LEN || le_u16(b, off) != ARCHIVE_ENTRY_PREFIX {
        off
    } else if entry_result(b, off) is Ok {
        entry_end(b, off)
    } else {
        off + ENTRY_HEADER_LEN
    }
}

/// A buffer shorter than the header, or whose first four bytes are not the
/// magic, does not open; a buffer holding just the magic opens and has no
/// entries.
pub proof fn lemma_header_rejection(b: Seq<u8>)
    ensures
        b.len() < 4 ==> header_result(b, 0) == Err::<(), ArchivePackageError>(
            ArchivePackageError::UnexpectedArchiveEof,
        ),
        b.len() >= 4 && le_u32(b, 0) != ARCHIVE_PREFIX ==> header_result(b, 0) == Err::<
            (),
            ArchivePackageError,
        >(ArchivePackageError::InvalidArchiveHeader),
        b.len() == 4 && le_u32(b, 0) == ARCHIVE_PREFIX ==> header_result(b, 0) is Ok && entry_result(
            b,
            4,
        ) == Ok::<Option<()>, ArchivePackageError>(None),
{
}

/// An entry whose declared name and data run past the end of the buffer
/// fails with the entry-eof error; fewer remaining bytes than an entry
/// header ends the entries without error.
pub proof fn lemma_entry_truncation(b: Seq<u8>, off: int)
    requires
        0 <= off <= b.len(),
    ensures
        b.len() - off < ENTRY_HEADER_LEN ==> entry_result(b, off) == Ok::<
            Option<()>,
            ArchivePackageError,
        >(None),
        b.len() - off >= ENTRY_HEADER_LEN && le_u16(b, off) == ARCHIVE_ENTRY_PREFIX && off
            + ENTRY_HEADER_LEN + entry_name_len(b, off) + entry_data_len(b, off) > b.len()
            ==> entry_result(b, off) == Err::<Option<()>, ArchivePackageError>(
            ArchivePackageError::UnexpectedEntryEof,
        ),
{
}

fn read_le_u16(b: &[u8], i: usize) -> (r: usize)
    requires
        i + 2 <= b@.len(),
    ensures
        r == le_u16(b@, i as int),
{
    b[i] as usize + (b[i + 1] as usize) * 0x100
}

fn read_le_u32(b: &[u8], i: usize) -> (r: u32)
    requires
        i + 4 <= b@.len(),
    ensures
        r == le_u32(b@, i as int),
{
    b[i] as u32 + (b[i + 1] as u32) * 0x100 + (b[i + 2] as u32) * 0x1_0000 + (b[i + 3] as u32)
        * 0x100_0000
}

/// Checks the container header at `offset` and moves past it.
pub fn read_package_header(buf: &[u8], offset: &mut usize) -> (r: Result<(), ArchivePackageError>)
    ensures
        r == header_result(buf@, *old(offset) as int),
        r is Ok ==> *final(offset) == *old(offset) + 4,
        r is Err ==> *final(offset) == *old(offset),
{
    let end = *offset;
    if buf.len() < 4 || end > buf.len() - 4 {
        return Err(ArchivePackageError::UnexpectedArchiveEof);
    }
    if read_le_u32(buf, end) == ARCHIVE_PREFIX {
        *offset = end + 4;
        Ok(())
    } else {
        Err(ArchivePackageError::InvalidArchiveHeader)
    }
}

/// One entry of a container, borrowed from its buffer.
pub struct ArchivePackageEntryView<'a> {
    pub name: &'a str,
    pub data: &'a [u8],
}

impl<'a> ArchivePackageEntryView<'a> {
    /// Reads the entry at `offset`, as `entry_result` and
    /// `offset_after_entry` describe.
    fn read_from_view(buf: &'a [u8], offset: &mut usize) -> (r: Result<
        Option<Self>,
        ArchivePackageError,
    >)
        requires
            *old(offset) <= buf@.len(),
        ensures
            *final(offset) == offset_after_entry(buf@, *old(offset) as int),
            *final(offset) <= buf@.len(),
            match r {
                Ok(Some(e)) => {
                    &&& entry_result(buf@, *old(offset) as int) == Ok::<
                        Option<()>,
                        ArchivePackageError,
                    >(Some(()))
                    &&& e.name.spec_bytes() == buf@.subrange(
                        entry_name_start(*old(offset) as int),
                        entry_data_start(buf@, *old(offset) as int),
                    )
                    &&& e.data@ == buf@.subrange(
                        entry_data_start(buf@, *old(offset) as int),
                        entry_end(buf@, *old(offset) as int),
                    )
                },
                Ok(None) => entry_result(buf@, *old(offset) as int) == Ok::<
                    Option<()>,
                    ArchivePackageError,
                >(None),
                Err(err) => entry_result(buf@, *old(offset) as int) == Err::<
                    Option<()>,
                    ArchivePackageError,
                >(err),
            },
    {
        let start = *offset;
        if buf.len() - start < ENTRY_HEADER_LEN {
            return Ok(None);
        }
        if read_le_u16(buf, start) != ARCHIVE_ENTRY_PREFIX as usize {
            return Err(ArchivePackageError::InvalidArchiveEntryHeader);
        }
        let filename_size = read_le_u16(buf, start + 2);
        let data_size = read_le_u32(buf, start + 4) as usize;
        let name_start = start + ENTRY_HEADER_LEN;
        *offset = name_start;

        let remaining = buf.len() - name_start;
        if data_size > remaining || filename_size > remaining - data_size {
            return Err(ArchivePackageError::UnexpectedEntryEof);
        }
        let data_start = name_start + filename_size;
        let end = data_start + data_size;

        let name = match str_from_utf8(slice_subrange(buf, name_start, data_start)) {
            Some(name) => name,
            None => return Err(ArchivePackageError::InvalidArchiveEntryName),
        };
        let data = slice_subrange(buf, data_start, end);
        *offset = end;

        Ok(Some(ArchivePackageEntryView { name, data }))
    }
}

/// A cursor over the entries of a container.
pub struct ArchivePackageViewReader<'a> {
    data: &'a [u8],
    offset: usize,
}

impl<'a> ArchivePackageViewReader<'a> {
    #[verifier::type_invariant]
    spec fn inv(&self) -> bool {
        self.offset <= self.data@.len()
    }

    /// The bytes being read.
    pub closed spec fn buffer(&self) -> Seq<u8> {
        self.data@
    }

    /// The position of the next entry header.
    pub closed spec fn position(&self) -> int {
        self.offset as int
    }

    /// Opens a container: checks its header and stands before the first entry.
    pub fn new(data: &'a [u8]) -> (r: Result<Self, ArchivePackageError>)
        ensures
            match r {
                Ok(reader) => header_result(data@, 0) is Ok && reader.buffer() == data@
                    && reader.position() == 4,
                Err(e) => header_result(data@, 0) == Err::<(), ArchivePackageError>(e),
            },
    {
        let mut offset: usize = 0;
        match read_package_header(data, &mut offset) {
            Ok(()) => Ok(ArchivePackageViewReader { data, offset }),
            Err(e) => Err(e),
        }
    }

    /// Reads the next entry; `Ok(None)` when fewer than a header's bytes remain.
    pub fn read_next(&mut self) -> (r: Result<Option<ArchivePackageEntryView<'a>>, ArchivePackageError>)
        ensures
            final(self).buffer() == old(self).buffer(),
            final(self).position() == offset_after_entry(old(self).buffer(), old(self).position()),
            final(self).position() <= final(self).buffer().len(),
            match r {
                Ok(Some(e)) => {
                    &&& entry_result(old(self).buffer(), old(self).position()) == Ok::<
                        Option<()>,
                        ArchivePackageError,
                    >(Some(()))
                    &&& e.name.spec_bytes() == old(self).buffer().subrange(
                        entry_name_start(old(self).position()),
                        entry_data_start(old(self).buffer(), old(self).position()),
                    )
                    &&& e.data@ == old(self).buffer().subrange(
                        entry_data_start(old(self).buffer(), old(self).position()),
                        entry_end(old(self).buffer(), old(self).position()),
                    )
                },
                Ok(None) => entry_result(old(self).buffer(), old(self).position()) == Ok::<
                    Option<()>,
                    ArchivePackageError,
                >(None),
                Err(err) => entry_result(old(self).buffer(), old(self).position()) == Err::<
                    Option<()>,
                    ArchivePackageError,
                >(err),
            },
    {
        proof {
            use_type_invariant(&*self);
        }
        let mut offset = self.offset;
        let r = ArchivePackageEntryView::read_from_view(self.data, &mut offset);
        self.offset = offset;
        r
    }
}

} // verus!
