//! The boot sequence: load the second stage from the FAT32 volume and check
//! its CRC32C trailer before control passes to it.

use vstd::prelude::*;

use crate::console::{is_decimal_of, print_str, print_u32, Console};
use crate::crc32c::{compute, crc32c, lemma_crc32c_detects_byte_change, table};
use crate::directory::{first_match, record_location, root_dir_bytes};
use crate::disk::{
    geometry_ok, get32, lba_cylinder, le32, new_transfers, open_disk, sector_bytes, sectors_present,
    Bios, Chs, Disk, SectorIndex, Transfer,
};
use crate::error::{
    ErrorStr, ADDRESS_ERROR, CHECKSUM_ERROR, CHS_OVERFLOW_ERROR, GEOMETRY_ERROR,
    GEOMETRY_UNUSABLE_ERROR, READ_ERROR, VOLUME_ERROR,
};
use crate::fat32::{
    volume_past_chs_limit, file_error_cause, file_loaded, open_volume, read_file_reusing_buffer_in_find, vbr_volume,
    Fat32Volume,
};
use crate::num_to_str::canonical_decimal;
use crate::reads::{lemma_failed_concat, lemma_new_transfers_concat, some_transfer_failed};
use vstd::string::StringSliceAdditionalSpecFns;

verus! {

/// The 8.3 name of the second-stage image in the root directory.
pub const STAGE2_NAME: &'static str = "STAGE2  BIN";

/// Bytes reserved for the second-stage image.
pub const STAGE2_SIZE: usize = 0x73000;

/// `buf` starts with the file named `name` in the root directory of `vol`,
/// whose size is `size`.
pub open spec fn file_found_and_loaded(
    image: Seq<u8>,
    vol: Fat32Volume,
    name: Seq<u8>,
    size: u32,
    buf: Seq<u8>,
) -> bool {
    let dir = root_dir_bytes(image, vol);
    exists|i: int|
        #[trigger] first_match(dir, i, name) && record_location(dir, i).size == size
            && file_loaded(image, vol, record_location(dir, i), buf)
}

/// The volume at `volume_lba` of the disk with BIOS number `disk_number`
/// holds the file `name`, and `buf` starts with it.
pub open spec fn volume_file_loaded(
    image: Seq<u8>,
    disk_number: u8,
    volume_lba: u32,
    name: Seq<u8>,
    size: u32,
    buf: Seq<u8>,
) -> bool {
    exists|vol: Fat32Volume|
        #[trigger] vbr_volume(vol.disk, volume_lba, sector_bytes(image, volume_lba as int, 1))
            == Some(vol) && vol.disk.bios_number == disk_number && file_found_and_loaded(
            image,
            vol,
            name,
            size,
            buf,
        )
}

/// Why loading the file `name` from the volume at `volume_lba` of disk
/// `disk_number`, whose CHS geometry is `geometry`, into a buffer of `len`
/// bytes may end in `e`: a failed transfer, an unreachable buffer address or
/// no geometry (the BIOS's answers); a geometry without sectors or heads; a
/// boot sector past cylinder 1023 or one that does not describe a usable
/// volume; or a cause the file lookup and copy give on the volume.
pub open spec fn load_error_cause(
    image: Seq<u8>,
    geometry: Chs,
    disk_number: u8,
    volume_lba: u32,
    name: Seq<u8>,
    len: int,
    e: ErrorStr,
) -> bool {
    let vbr = sector_bytes(image, volume_lba as int, 1);
    ||| e.msg == READ_ERROR
    ||| e.msg == ADDRESS_ERROR
    ||| e.msg == GEOMETRY_ERROR
    ||| (e.msg == GEOMETRY_UNUSABLE_ERROR && !geometry_ok(geometry))
    ||| (e.msg == CHS_OVERFLOW_ERROR && geometry_ok(geometry) && lba_cylinder(
        volume_lba as int,
        geometry,
    ) > 1023)
    ||| (e.msg == VOLUME_ERROR && sectors_present(image, volume_lba as int, 1) && exists|d: Disk|
        #[trigger] vbr_volume(d, volume_lba, vbr) is None && d.bios_number == disk_number)
    ||| exists|vol: Fat32Volume|
        #[trigger] vbr_volume(vol.disk, volume_lba, vbr) == Some(vol) && vol.disk.bios_number
            == disk_number && (file_error_cause(image, vol, name, len, e) || (e.msg
            == CHS_OVERFLOW_ERROR && volume_past_chs_limit(vol)))
}

/// Opens the disk and the FAT32 volume on it, and reads the second-stage
/// image into `stage2`. Returns its size in bytes.
pub fn load_stage2<B: Bios>(
    bios: &mut B,
    disk_number: u8,
    volume_lba: SectorIndex,
    stage2: &mut [u8],
) -> (r: Result<u32, ErrorStr>)
    requires
        old(stage2)@.len() >= 512,
        old(stage2)@.len() / 512 <= u32::MAX,
        volume_lba < u32::MAX,
    ensures
        final(stage2)@.len() == old(stage2)@.len(),
        match r {
            Ok(size) => size <= final(stage2)@.len() && volume_file_loaded(
                old(bios).disk_image(disk_number),
                disk_number,
                volume_lba,
                STAGE2_NAME.spec_bytes(),
                size,
                final(stage2)@,
            ),
            Err(e) => load_error_cause(
                old(bios).disk_image(disk_number),
                old(bios).geometry(disk_number),
                disk_number,
                volume_lba,
                STAGE2_NAME.spec_bytes(),
                old(stage2)@.len() as int,
                e,
            ),
        },
        r matches Err(e) && e.msg == READ_ERROR ==> some_transfer_failed(
            new_transfers(*old(bios), *final(bios)),
        ),
{
    proof {
        crate::error::lemma_error_messages_distinct();
    }
    let ghost image = bios.disk_image(disk_number);
    let ghost len = stage2@.len() as int;
    let ghost b0 = *bios;
    let disk = match open_disk(bios, disk_number) {
        Ok(d) => d,
        Err(e) => {
            return Err(e);
        },
    };
    let ghost b1 = *bios;
    proof {
        assert(b1.transfers().subrange(0, b0.transfers().len() as int) =~= b0.transfers());
        assert(new_transfers(b0, b1) =~= Seq::<Transfer>::empty());
    }
    let volume = match open_volume(bios, &disk, volume_lba) {
        Ok(v) => v,
        Err(e) => {
            proof {
                lemma_new_transfers_concat(b0, b1, *bios);
                lemma_failed_concat(new_transfers(b0, b1), new_transfers(b1, *bios));
                if e.msg == VOLUME_ERROR {
                    assert(vbr_volume(disk, volume_lba, sector_bytes(image, volume_lba as int, 1)) is None);
                }
            }
            return Err(e);
        },
    };
    let ghost b2 = *bios;
    proof {
        lemma_new_transfers_concat(b0, b1, b2);
    }
    let size = match read_file_reusing_buffer_in_find(&volume, STAGE2_NAME, stage2, bios) {
        Ok(s) => s,
        Err(e) => {
            proof {
                lemma_new_transfers_concat(b0, b2, *bios);
                lemma_failed_concat(new_transfers(b0, b2), new_transfers(b2, *bios));
                assert(vbr_volume(volume.disk, volume_lba, sector_bytes(image, volume_lba as int, 1))
                    == Some(volume));
            }
            return Err(e);
        },
    };
    proof {
        assert(bios.disk_image(disk_number) == image);
        assert(vbr_volume(volume.disk, volume_lba, sector_bytes(image, volume_lba as int, 1)) == Some(
            volume,
        ));
        assert(file_found_and_loaded(image, volume, STAGE2_NAME.spec_bytes(), size, stage2@));
    }
    Ok(size)
}

/// Checks the trailer of a loaded image of `file_size` bytes: its last four
/// bytes hold, little-endian, the CRC32C of all the bytes before them.
/// Returns that checksum.
pub fn check_stage2(stage2: &[u8], file_size: u32) -> (r: Result<u32, ErrorStr>)
    requires
        file_size <= stage2@.len(),
    ensures
        match r {
            Ok(c) => {
                &&& file_size >= 4
                &&& c == crc32c(stage2@.subrange(0, file_size - 4))
                &&& c == le32(stage2@, file_size - 4)
            },
            Err(e) => e.msg == CHECKSUM_ERROR && (file_size < 4 || crc32c(
                stage2@.subrange(0, file_size - 4),
            ) != le32(stage2@, file_size - 4)),
        },
{
    if file_size < 4 {
        return Err(ErrorStr::new(CHECKSUM_ERROR));
    }
    let checksum_offset = (file_size - 4) as usize;
    let expected_checksum = get32(stage2, checksum_offset);
    let (body, trailer) = stage2.split_at(checksum_offset);
    let actual_checksum = compute(&table(), body);
    if expected_checksum != actual_checksum {
        return Err(ErrorStr::new(CHECKSUM_ERROR));
    }
    Ok(actual_checksum)
}

/// An image that passes the trailer check fails it once any single byte
/// before the trailer is changed.
pub proof fn lemma_changed_byte_fails_check(s1: Seq<u8>, s2: Seq<u8>, size: int, p: int)
    requires
        4 <= size <= s1.len(),
        s1.len() == s2.len(),
        crc32c(s1.subrange(0, size - 4)) == le32(s1, size - 4),
        0 <= p < size - 4,
        s1[p] != s2[p],
        forall|i: int| 0 <= i < s1.len() && i != p ==> s1[i] == s2[i],
    ensures
        crc32c(s2.subrange(0, size - 4)) != le32(s2, size - 4),
{
    let b1 = s1.subrange(0, size - 4);
    let b2 = s2.subrange(0, size - 4);
    assert forall|i: int| 0 <= i < b1.len() && i != p implies b1[i] == b2[i] by {}
    lemma_crc32c_detects_byte_change(b1, b2, p);
    assert(le32(s1, size - 4) == le32(s2, size - 4)) by {
        assert(s1[size - 4] == s2[size - 4]);
        assert(s1[size - 3] == s2[size - 3]);
        assert(s1[size - 2] == s2[size - 2]);
        assert(s1[size - 1] == s2[size - 1]);
    }
}

/// `after` is `before` followed by the report of an image whose trailer does
/// not match: the load message, its size, and the checksum error.
pub open spec fn checksum_failure_reported(before: Seq<u8>, after: Seq<u8>) -> bool {
    exists|digits: Seq<u8>|
        #[trigger] canonical_decimal(digits) && after == before + "pcboot loading...\r\n".spec_bytes()
            + "read ".spec_bytes() + digits + " bytes".spec_bytes()
            + "\r\npcboot error: bad checksum on stage2.bin!".spec_bytes()
}

/// The boot sequence: loads the second stage from the volume at `volume_lba`
/// of BIOS disk `disk_number` into `stage2`, reporting progress on the
/// console, and checks its trailer. On any failure the error is reported and
/// the machine halted; on success the caller transfers control to the image,
/// whose size is returned.
pub fn pcboot_main<B: Bios, C: Console>(
    bios: &mut B,
    console: &mut C,
    disk_number: u8,
    volume_lba: u32,
    stage2: &mut [u8],
) -> (r: Result<u32, ErrorStr>)
    requires
        old(stage2)@.len() >= 512,
        old(stage2)@.len() / 512 <= u32::MAX,
        volume_lba < u32::MAX,
        !old(console).halted(),
    ensures
        final(stage2)@.len() == old(stage2)@.len(),
        r is Err <==> final(console).halted(),
        match r {
            Ok(size) => {
                &&& volume_file_loaded(
                    old(bios).disk_image(disk_number),
                    disk_number,
                    volume_lba,
                    STAGE2_NAME.spec_bytes(),
                    size,
                    final(stage2)@,
                )
                &&& size >= 4
                &&& crc32c(final(stage2)@.subrange(0, size - 4)) == le32(final(stage2)@, size - 4)
                &&& exists|d1: Seq<u8>, d2: Seq<u8>|
                    #![trigger is_decimal_of(d1, size as int), is_decimal_of(d2, le32(final(stage2)@, size - 4) as int)]
                    is_decimal_of(d1, size as int) && is_decimal_of(
                        d2,
                        le32(final(stage2)@, size - 4) as int,
                    ) && final(console).output() == old(console).output()
                        + "pcboot loading...\r\n".spec_bytes() + "read ".spec_bytes() + d1
                        + " bytes".spec_bytes() + " (crc32c:".spec_bytes() + d2
                        + ")\r\n".spec_bytes()
            },
            Err(e) => {
                ||| (load_error_cause(
                    old(bios).disk_image(disk_number),
                    old(bios).geometry(disk_number),
                    disk_number,
                    volume_lba,
                    STAGE2_NAME.spec_bytes(),
                    old(stage2)@.len() as int,
                    e,
                ) && final(console).output() == old(console).output()
                    + "pcboot loading...\r\n".spec_bytes() + "pcboot error: ".spec_bytes()
                    + e.msg.spec_bytes())
                ||| (e.msg == CHECKSUM_ERROR && checksum_failure_reported(
                    old(console).output(),
                    final(console).output(),
                ) && exists|size: u32|
                    #[trigger] volume_file_loaded(
                        old(bios).disk_image(disk_number),
                        disk_number,
                        volume_lba,
                        STAGE2_NAME.spec_bytes(),
                        size,
                        final(stage2)@,
                    ) && size <= final(stage2)@.len() && (size < 4 || crc32c(
                        final(stage2)@.subrange(0, size - 4),
                    ) != le32(final(stage2)@, size - 4)))
            },
        },
        r matches Err(e) && e.msg == READ_ERROR ==> some_transfer_failed(
            new_transfers(*old(bios), *final(bios)),
        ),
{
    proof {
        crate::error::lemma_error_messages_distinct();
    }
    print_str(console, "pcboot loading...\r\n");
    let file_size = match load_stage2(bios, disk_number, volume_lba, stage2) {
        Ok(s) => s,
        Err(e) => {
            print_str(console, "pcboot error: ");
            print_str(console, e.msg);
            console.halt();
            proof {
                assert(console.output() =~= old(console).output() + "pcboot loading...\r\n".spec_bytes()
                    + "pcboot error: ".spec_bytes() + e.msg.spec_bytes());
            }
            return Err(e);
        },
    };
    let checked = check_stage2(stage2, file_size);
    print_str(console, "read ");
    let ghost out1 = console.output();
    print_u32(console, file_size);
    let ghost d1 = choose|d: Seq<u8>|
        #[trigger] is_decimal_of(d, file_size as int) && console.output() == out1 + d;
    print_str(console, " bytes");
    match checked {
        Ok(checksum) => {
            print_str(console, " (crc32c:");
            let ghost out2 = console.output();
            print_u32(console, checksum);
            let ghost d2 = choose|d: Seq<u8>|
                #[trigger] is_decimal_of(d, checksum as int) && console.output() == out2 + d;
            print_str(console, ")\r\n");
            proof {
                assert(console.output() =~= old(console).output() + "pcboot loading...\r\n".spec_bytes()
                    + "read ".spec_bytes() + d1 + " bytes".spec_bytes() + " (crc32c:".spec_bytes()
                    + d2 + ")\r\n".spec_bytes());
            }
            Ok(file_size)
        },
        Err(e) => {
            print_str(console, "\r\npcboot error: bad checksum on stage2.bin!");
            console.halt();
            proof {
                assert(canonical_decimal(d1));
                assert(console.output() =~= old(console).output() + "pcboot loading...\r\n".spec_bytes()
                    + "read ".spec_bytes() + d1 + " bytes".spec_bytes()
                    + "\r\npcboot error: bad checksum on stage2.bin!".spec_bytes());
            }
            Err(e)
        },
    }
}

} // verus!
