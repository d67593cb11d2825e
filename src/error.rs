//! The loader's errors: each carries a fixed message.

use vstd::prelude::*;

verus! {

/// No extended (LBA) access, and the BIOS could not report a CHS geometry.
pub const GEOMETRY_ERROR: &'static str = "cannot read disk geometry";

/// A CHS disk's reported geometry has no sectors per track or no heads, so
/// no sector can be placed on it.
pub const GEOMETRY_UNUSABLE_ERROR: &'static str = "disk geometry has no sectors or heads";

/// The BIOS reported a failed transfer.
pub const READ_ERROR: &'static str = "disk read error";

/// A buffer is misaligned, or ends past what real mode can address.
pub const ADDRESS_ERROR: &'static str = "buffer not addressable from real mode";

/// A sector lies beyond cylinder 1023, the last one CHS addressing can name.
pub const CHS_OVERFLOW_ERROR: &'static str = "sector's cylinder exceeds 1023";

/// The boot sector does not describe a FAT32 volume this loader can use.
pub const VOLUME_ERROR: &'static str = "not a usable FAT32 volume";

/// A FAT entry is neither a cluster of the volume nor an end marker, or a
/// chain visits more clusters than the volume has.
pub const FAT_CHAIN_ERROR: &'static str = "corrupt FAT cluster chain";

/// The 8.3 name is not in the root directory.
pub const FILE_NOT_FOUND_ERROR: &'static str = "cannot find file";

/// A file's cluster chain does not hold exactly its size, rounded up to whole
/// clusters, or the destination buffer cannot hold it.
pub const FILE_SIZE_ERROR: &'static str = "file size does not match its clusters";

/// The loaded image's trailing CRC32C does not match its contents.
pub const CHECKSUM_ERROR: &'static str = "bad checksum on stage2.bin";

/// A failure of one of the loader's operations, carrying a fixed message.
#[derive(Clone, Copy, Debug, PartialEq, Eq)]
pub struct ErrorStr {
    pub msg: &'static str,
}

impl ErrorStr {
    pub fn new(msg: &'static str) -> (r: ErrorStr)
        ensures
            r.msg == msg,
    {
        ErrorStr { msg }
    }

    /// The message this error carries.
    pub fn msg(&self) -> (r: &'static str)
        ensures
            r == self.msg,
    {
        self.msg
    }
}

/// The errors are told apart by their messages.
pub proof fn lemma_error_messages_distinct()
    ensures
        GEOMETRY_ERROR != GEOMETRY_UNUSABLE_ERROR,
        GEOMETRY_ERROR != READ_ERROR,
        GEOMETRY_ERROR != ADDRESS_ERROR,
        GEOMETRY_ERROR != CHS_OVERFLOW_ERROR,
        GEOMETRY_ERROR != VOLUME_ERROR,
        GEOMETRY_ERROR != FAT_CHAIN_ERROR,
        GEOMETRY_ERROR != FILE_NOT_FOUND_ERROR,
        GEOMETRY_ERROR != FILE_SIZE_ERROR,
        GEOMETRY_ERROR != CHECKSUM_ERROR,
        GEOMETRY_UNUSABLE_ERROR != READ_ERROR,
        GEOMETRY_UNUSABLE_ERROR != ADDRESS_ERROR,
        GEOMETRY_UNUSABLE_ERROR != CHS_OVERFLOW_ERROR,
        GEOMETRY_UNUSABLE_ERROR != VOLUME_ERROR,
        GEOMETRY_UNUSABLE_ERROR != FAT_CHAIN_ERROR,
        GEOMETRY_UNUSABLE_ERROR != FILE_NOT_FOUND_ERROR,
        GEOMETRY_UNUSABLE_ERROR != FILE_SIZE_ERROR,
        GEOMETRY_UNUSABLE_ERROR != CHECKSUM_ERROR,
        READ_ERROR != ADDRESS_ERROR,
        READ_ERROR != CHS_OVERFLOW_ERROR,
        READ_ERROR != VOLUME_ERROR,
        READ_ERROR != FAT_CHAIN_ERROR,
        READ_ERROR != FILE_NOT_FOUND_ERROR,
        READ_ERROR != FILE_SIZE_ERROR,
        READ_ERROR != CHECKSUM_ERROR,
        ADDRESS_ERROR != CHS_OVERFLOW_ERROR,
        ADDRESS_ERROR != VOLUME_ERROR,
        ADDRESS_ERROR != FAT_CHAIN_ERROR,
        ADDRESS_ERROR != FILE_NOT_FOUND_ERROR,
        ADDRESS_ERROR != FILE_SIZE_ERROR,
        ADDRESS_ERROR != CHECKSUM_ERROR,
        CHS_OVERFLOW_ERROR != VOLUME_ERROR,
        CHS_OVERFLOW_ERROR != FAT_CHAIN_ERROR,
        CHS_OVERFLOW_ERROR != FILE_NOT_FOUND_ERROR,
        CHS_OVERFLOW_ERROR != FILE_SIZE_ERROR,
        CHS_OVERFLOW_ERROR != CHECKSUM_ERROR,
        VOLUME_ERROR != FAT_CHAIN_ERROR,
        VOLUME_ERROR != FILE_NOT_FOUND_ERROR,
        VOLUME_ERROR != FILE_SIZE_ERROR,
        VOLUME_ERROR != CHECKSUM_ERROR,
        FAT_CHAIN_ERROR != FILE_NOT_FOUND_ERROR,
        FAT_CHAIN_ERROR != FILE_SIZE_ERROR,
        FAT_CHAIN_ERROR != CHECKSUM_ERROR,
        FILE_NOT_FOUND_ERROR != FILE_SIZE_ERROR,
        FILE_NOT_FOUND_ERROR != CHECKSUM_ERROR,
        FILE_SIZE_ERROR != CHECKSUM_ERROR,
{
    reveal_strlit("cannot read disk geometry");
    reveal_strlit("disk geometry has no sectors or heads");
    reveal_strlit("disk read error");
    reveal_strlit("buffer not addressable from real mode");
    reveal_strlit("sector's cylinder exceeds 1023");
    reveal_strlit("not a usable FAT32 volume");
    reveal_strlit("corrupt FAT cluster chain");
    reveal_strlit("cannot find file");
    reveal_strlit("file size does not match its clusters");
    reveal_strlit("bad checksum on stage2.bin");
    assert(GEOMETRY_ERROR@.len() != GEOMETRY_UNUSABLE_ERROR@.len());
    assert(GEOMETRY_ERROR@.len() != READ_ERROR@.len());
    assert(GEOMETRY_ERROR@.len() != ADDRESS_ERROR@.len());
    assert(GEOMETRY_ERROR@.len() != CHS_OVERFLOW_ERROR@.len());
    assert(GEOMETRY_ERROR@[0] != VOLUME_ERROR@[0]);
    assert(GEOMETRY_ERROR@[1] != FAT_CHAIN_ERROR@[1]);
    assert(GEOMETRY_ERROR@.len() != FILE_NOT_FOUND_ERROR@.len());
    assert(GEOMETRY_ERROR@.len() != FILE_SIZE_ERROR@.len());
    assert(GEOMETRY_ERROR@.len() != CHECKSUM_ERROR@.len());
    assert(GEOMETRY_UNUSABLE_ERROR@.len() != READ_ERROR@.len());
    assert(GEOMETRY_UNUSABLE_ERROR@[0] != ADDRESS_ERROR@[0]);
    assert(GEOMETRY_UNUSABLE_ERROR@.len() != CHS_OVERFLOW_ERROR@.len());
    assert(GEOMETRY_UNUSABLE_ERROR@.len() != VOLUME_ERROR@.len());
    assert(GEOMETRY_UNUSABLE_ERROR@.len() != FAT_CHAIN_ERROR@.len());
    assert(GEOMETRY_UNUSABLE_ERROR@.len() != FILE_NOT_FOUND_ERROR@.len());
    assert(GEOMETRY_UNUSABLE_ERROR@[0] != FILE_SIZE_ERROR@[0]);
    assert(GEOMETRY_UNUSABLE_ERROR@.len() != CHECKSUM_ERROR@.len());
    assert(READ_ERROR@.len() != ADDRESS_ERROR@.len());
    assert(READ_ERROR@.len() != CHS_OVERFLOW_ERROR@.len());
    assert(READ_ERROR@.len() != VOLUME_ERROR@.len());
    assert(READ_ERROR@.len() != FAT_CHAIN_ERROR@.len());
    assert(READ_ERROR@.len() != FILE_NOT_FOUND_ERROR@.len());
    assert(READ_ERROR@.len() != FILE_SIZE_ERROR@.len());
    assert(READ_ERROR@.len() != CHECKSUM_ERROR@.len());
    assert(ADDRESS_ERROR@.len() != CHS_OVERFLOW_ERROR@.len());
    assert(ADDRESS_ERROR@.len() != VOLUME_ERROR@.len());
    assert(ADDRESS_ERROR@.len() != FAT_CHAIN_ERROR@.len());
    assert(ADDRESS_ERROR@.len() != FILE_NOT_FOUND_ERROR@.len());
    assert(ADDRESS_ERROR@[0] != FILE_SIZE_ERROR@[0]);
    assert(ADDRESS_ERROR@.len() != CHECKSUM_ERROR@.len());
    assert(CHS_OVERFLOW_ERROR@.len() != VOLUME_ERROR@.len());
    assert(CHS_OVERFLOW_ERROR@.len() != FAT_CHAIN_ERROR@.len());
    assert(CHS_OVERFLOW_ERROR@.len() != FILE_NOT_FOUND_ERROR@.len());
    assert(CHS_OVERFLOW_ERROR@.len() != FILE_SIZE_ERROR@.len());
    assert(CHS_OVERFLOW_ERROR@.len() != CHECKSUM_ERROR@.len());
    assert(VOLUME_ERROR@[0] != FAT_CHAIN_ERROR@[0]);
    assert(VOLUME_ERROR@.len() != FILE_NOT_FOUND_ERROR@.len());
    assert(VOLUME_ERROR@.len() != FILE_SIZE_ERROR@.len());
    assert(VOLUME_ERROR@.len() != CHECKSUM_ERROR@.len());
    assert(FAT_CHAIN_ERROR@.len() != FILE_NOT_FOUND_ERROR@.len());
    assert(FAT_CHAIN_ERROR@.len() != FILE_SIZE_ERROR@.len());
    assert(FAT_CHAIN_ERROR@.len() != CHECKSUM_ERROR@.len());
    assert(FILE_NOT_FOUND_ERROR@.len() != FILE_SIZE_ERROR@.len());
    assert(FILE_NOT_FOUND_ERROR@.len() != CHECKSUM_ERROR@.len());
    assert(FILE_SIZE_ERROR@.len() != CHECKSUM_ERROR@.len());
}

} // verus!
