//! A FAT32 volume: its geometry from the boot sector, the cached FAT, and
//! copying a file's data out along its cluster chain.

use vstd::prelude::*;


use crate::chain::{
    lemma_first_run, runs,
    data_end,cluster_chain, iterate_fragments, sectors_of, step_keeps, table_ok};
use crate::directory::{
    all_present, bytes_of_sectors, find_file, first_match, lemma_bytes_concat, lemma_run_bytes,
    record_location, record_matches, root_dir_bytes, FileLocation,
};
use crate::disk::{
    geometry_ok, lba_cylinder, lemma_cylinder_monotone, all_ok, disk_failure, disk_matches, follows_plan, get16, get32, le16, le32, log_extends,
    new_transfers, read_disk_sectors, same_disks, sector_bytes, sectors_present, transfer_plan,
    Bios, Disk, IoMethod, SectorIndex, Transfer,
};
use crate::error::{
    ErrorStr, ADDRESS_ERROR, CHS_OVERFLOW_ERROR, GEOMETRY_UNUSABLE_ERROR, FAT_CHAIN_ERROR, FILE_NOT_FOUND_ERROR, FILE_SIZE_ERROR, READ_ERROR, VOLUME_ERROR,
};
use crate::reads::{
    lemma_plan_of_runs_push, lemma_requests_below, lemma_requests_concat, lemma_requests_plan,
    plan_of_runs, requests_from,
    lemma_plan_covers, lemma_sectors_read_below, lemma_sectors_read_concat, lemma_sectors_read_plan,
    lemma_failed_concat, lemma_new_transfers_concat, reads_below, sector_run, sectors_read_from,
    some_transfer_failed,
};
use vstd::string::StringSliceAdditionalSpecFns;

verus! {


/// The geometry of a FAT32 volume, derived from its boot sector.
#[derive(Clone, Copy, Debug, PartialEq, Eq, Structural)]
pub struct Fat32Volume {
    pub disk: Disk,
    pub fsinfo_sec: u32,
    pub start_fat_sector: u32,
    pub start_data_sector: u32,
    pub fat_count: u8,
    pub sec_per_fat: u32,
    pub root_dir_clust: u32,
    pub sec_per_clust: u8,
    pub total_clusters: u32,
}

impl Fat32Volume {
    /// Every cluster's sectors lie in the 32-bit sector range, and the root
    /// directory starts at a cluster of the volume.
    pub open spec fn wf(self) -> bool {
        &&& self.disk.wf()
        &&& self.sec_per_clust > 0
        &&& self.start_fat_sector <= self.start_data_sector
        &&& self.start_data_sector + self.total_clusters * self.sec_per_clust <= u32::MAX
        &&& 2 <= self.root_dir_clust < self.total_clusters + 2
    }

    /// The volume has a FAT, and the first FAT holds an entry for every
    /// cluster, so that no FAT lookup reads from the data area.
    pub open spec fn fat_holds_all(self) -> bool {
        &&& self.fat_count >= 1
        &&& self.start_fat_sector + self.sec_per_fat <= self.start_data_sector
        &&& (self.total_clusters + 2) * 4 <= self.sec_per_fat * 512
    }

    /// Cluster `c`'s FAT window lies within the 32-bit sector range.
    pub open spec fn entry_addressable(self, c: int) -> bool {
        self.start_fat_sector + fat_window(c) + 2 <= u32::MAX
    }

    /// `c` names a cluster of the data area.
    pub open spec fn is_cluster(self, c: int) -> bool {
        2 <= c < self.total_clusters + 2
    }
}

/// The volume a FAT32 boot sector `b` describes, when it lies at `sector` of
/// `disk`; `None` where the boot sector breaks a rule the loader relies on.
pub open spec fn vbr_volume(disk: Disk, sector: u32, b: Seq<u8>) -> Option<Fat32Volume> {
    let bytes_per_sec = le16(b, 11);
    let spc = b[13];
    let reserved = le16(b, 14);
    let fat_count = b[16];
    let total16 = le16(b, 19);
    let spf16 = le16(b, 22);
    let total32 = le32(b, 32);
    let spf32 = le32(b, 36);
    let root = le32(b, 44);
    let fsinfo = le16(b, 48);
    let signature = le16(b, 510);
    let fat_area = fat_count * spf32;
    let data_sectors = total32 - reserved - fat_area;
    if signature == 0xaa55 && bytes_per_sec == 512 && spf16 == 0 && total16 == 0 && spc != 0
        && reserved + fat_area <= total32 && sector + total32 <= u32::MAX {
        let total = data_sectors / spc as int;
        if 2 <= root < total + 2 {
            Some(
                Fat32Volume {
                    disk,
                    fsinfo_sec: vstd::wrapping::u32_specs::wrapping_add(sector, fsinfo as u32),
                    start_fat_sector: (sector + reserved) as u32,
                    start_data_sector: (sector + reserved + fat_area) as u32,
                    fat_count,
                    sec_per_fat: spf32,
                    root_dir_clust: root,
                    sec_per_clust: spc,
                    total_clusters: total as u32,
                },
            )
        } else {
            None
        }
    } else {
        None
    }
}

proof fn lemma_volume_wf(disk: Disk, sector: u32, b: Seq<u8>)
    requires
        disk.wf(),
        vbr_volume(disk, sector, b) is Some,
    ensures
        vbr_volume(disk, sector, b).unwrap().wf(),
{
    let v = vbr_volume(disk, sector, b).unwrap();
    let spc = b[13] as int;
    let data_sectors = le32(b, 32) - le16(b, 14) - b[16] * le32(b, 36);
    let total = data_sectors / spc;
    vstd::arithmetic::div_mod::lemma_fundamental_div_mod(data_sectors, spc);
    vstd::arithmetic::div_mod::lemma_mod_bound(data_sectors, spc);
    assert(total * spc <= data_sectors) by (nonlinear_arith)
        requires
            data_sectors == spc * total + data_sectors % spc,
            data_sectors % spc >= 0,
    ;
    assert(0 <= b[16] * le32(b, 36)) by (nonlinear_arith);
}

/// The volume is on a disk read by CHS whose geometry puts the end of the
/// data area past cylinder 1023, so a read near the end may not be placed.
pub open spec fn volume_past_chs_limit(vol: Fat32Volume) -> bool {
    match vol.disk.io_method {
        IoMethod::Chs(g) => geometry_ok(g) && lba_cylinder(data_end(vol), g) > 1023,
        IoMethod::Lba => false,
    }
}

/// A disk failure a traversal of `vol` may end with: a failed transfer, an
/// address the BIOS reported that real mode cannot reach, or a CHS overflow
/// on a volume that reaches past cylinder 1023.
pub open spec fn volume_read_failure(vol: Fat32Volume, e: ErrorStr) -> bool {
    ||| e.msg == READ_ERROR
    ||| e.msg == ADDRESS_ERROR
    ||| (e.msg == CHS_OVERFLOW_ERROR && volume_past_chs_limit(vol))
}

/// Every FAT window of a cluster of the volume ends within the data area's
/// end.
proof fn lemma_window_before_end(vol: Fat32Volume, c: int)
    requires
        vol.wf(),
        vol.is_cluster(c),
    ensures
        vol.start_fat_sector + fat_window(c) + 1 <= data_end(vol),
{
    vstd::arithmetic::div_mod::lemma_fundamental_div_mod(c * 4, 1024);
    vstd::arithmetic::div_mod::lemma_mod_bound(c * 4, 1024);
    assert(fat_window(c) * 512 <= c * 4);
    assert(vol.total_clusters <= vol.total_clusters * vol.sec_per_clust) by (nonlinear_arith)
        requires
            vol.sec_per_clust >= 1,
    ;
}

/// Reads the boot sector at `sector` of `disk` and derives the volume's
/// geometry from it.
pub fn open_volume<B: Bios>(bios: &mut B, disk: &Disk, sector: SectorIndex) -> (r: Result<
    Fat32Volume,
    ErrorStr,
>)
    requires
        disk_matches(*disk, *old(bios)),
        sector < u32::MAX,
    ensures
        same_disks(*final(bios), *old(bios)),
        match r {
            Ok(v) => {
                &&& sectors_present(old(bios).disk_image(disk.bios_number), sector as int, 1)
                &&& vbr_volume(*disk, sector, sector_bytes(old(bios).disk_image(disk.bios_number), sector as int, 1))
                    == Some(v)
                &&& v.wf()
            },
            Err(e) => e.msg == VOLUME_ERROR ==> {
                &&& sectors_present(old(bios).disk_image(disk.bios_number), sector as int, 1)
                &&& vbr_volume(*disk, sector, sector_bytes(old(bios).disk_image(disk.bios_number), sector as int, 1))
                    is None
            },
        },
        log_extends(*old(bios), *final(bios)),
        follows_plan(new_transfers(*old(bios), *final(bios)), transfer_plan(*disk, sector as int, 1)),
        (r is Ok || (r matches Err(e) && e.msg == VOLUME_ERROR)) ==> new_transfers(
            *old(bios),
            *final(bios),
        ).len() == transfer_plan(*disk, sector as int, 1).len() && all_ok(
            new_transfers(*old(bios), *final(bios)),
        ),
        match r {
            Err(e) => e.msg != VOLUME_ERROR ==> {
                ||| e.msg == READ_ERROR
                ||| e.msg == ADDRESS_ERROR
                ||| (e.msg == GEOMETRY_UNUSABLE_ERROR && !disk.wf())
                ||| (e.msg == CHS_OVERFLOW_ERROR && match disk.io_method {
                    IoMethod::Chs(g) => geometry_ok(g) && lba_cylinder(sector as int, g) > 1023,
                    IoMethod::Lba => false,
                })
            },
            Ok(_) => true,
        },
        r matches Err(e) && e.msg == READ_ERROR ==> some_transfer_failed(
            new_transfers(*old(bios), *final(bios)),
        ),
{
    proof {
        crate::error::lemma_error_messages_distinct();
    }
    let mut vbr_data: Vec<u8> = vec![0u8; 512];
    let ghost zeros = vbr_data@;
    let read = read_disk_sectors(bios, disk, sector, vbr_data.as_mut_slice());
    proof {
        assert(zeros =~= Seq::new(512, |i: int| 0u8));
    }
    if let Err(e) = read {
        proof {
            crate::error::lemma_error_messages_distinct();
        }
        return Err(e);
    }
    let b = vbr_data.as_slice();
    let bytes_per_sec = get16(b, 11);
    let spc = b[13];
    let reserved = get16(b, 14);
    let fat_count = b[16];
    let total16 = get16(b, 19);
    let spf16 = get16(b, 22);
    let total32 = get32(b, 32);
    let spf32 = get32(b, 36);
    let root = get32(b, 44);
    let fsinfo = get16(b, 48);
    let signature = get16(b, 510);
    proof {
        assert(b@ == sector_bytes(bios.disk_image(disk.bios_number), sector as int, 1));
        assert(fat_count as int * spf32 as int <= 255 * 0xffff_ffff) by (nonlinear_arith)
            requires
                fat_count <= 255,
                spf32 <= 0xffff_ffff,
        ;
    }
    let fat_area: u64 = fat_count as u64 * spf32 as u64;
    if signature != 0xaa55 || bytes_per_sec != 512 || spf16 != 0 || total16 != 0 || spc == 0
        || reserved as u64 + fat_area > total32 as u64 || sector as u64
        + total32 as u64 > u32::MAX as u64 {
        return Err(ErrorStr::new(VOLUME_ERROR));
    }
    let data_sectors: u64 = total32 as u64 - reserved as u64 - fat_area;
    let total: u64 = data_sectors / spc as u64;
    if root < 2 || root as u64 >= total + 2 {
        return Err(ErrorStr::new(VOLUME_ERROR));
    }
    let v = Fat32Volume {
        disk: *disk,
        fsinfo_sec: sector.wrapping_add(fsinfo as u32),
        start_fat_sector: sector + reserved as u32,
        start_data_sector: sector + reserved as u32 + fat_area as u32,
        fat_count,
        sec_per_fat: spf32,
        root_dir_clust: root,
        sec_per_clust: spc,
        total_clusters: total as u32,
    };
    proof {
        lemma_volume_wf(*disk, sector, b@);
        assert(vbr_volume(*disk, sector, b@) == Some(v));
    }
    Ok(v)
}

/// Bytes of the FAT the cache holds at a time.
pub const FAT_TABLE_CACHE_SIZE: usize = 1024;

/// The first sector, counted from the start of the FAT, of the cache window
/// that holds cluster `c`'s entry.
pub open spec fn fat_window(c: int) -> int {
    (c * 4) / 1024 * 2
}

/// Cluster `c`'s entry in the first FAT of the volume.
pub open spec fn fat_entry(image: Seq<u8>, vol: Fat32Volume, c: int) -> u32 {
    le32(image, vol.start_fat_sector * 512 + c * 4)
}

/// A read-through cache of one 1024-byte window of the FAT.
pub struct FatTable {
    pub volume: Fat32Volume,
    pub cache_lba: Option<u32>,
    pub cache_buffer: Vec<u8>,
}

impl FatTable {
    /// The cached window, if any, holds what the disk holds there.
    pub open spec fn wf(self, image: Seq<u8>) -> bool {
        &&& self.volume.wf()
        &&& self.cache_buffer@.len() == FAT_TABLE_CACHE_SIZE
        &&& match self.cache_lba {
            Some(w) => {
                &&& sectors_present(image, self.volume.start_fat_sector + w, 2)
                &&& self.cache_buffer@ == sector_bytes(image, self.volume.start_fat_sector + w, 2)
            },
            None => true,
        }
    }
}

/// What a lookup of cluster `c` in table `t0`, on BIOS state `b0`, leaves
/// behind: a window already cached answers without a transfer; any other
/// window is read once, as one sector read of its two sectors.
pub open spec fn entry_outcome<B: Bios>(
    t0: FatTable,
    b0: B,
    c: int,
    r: Result<u32, ErrorStr>,
    t1: FatTable,
    b1: B,
) -> bool {
    let image = b0.disk_image(t0.volume.disk.bios_number);
    let w = fat_window(c);
    &&& t1.volume == t0.volume
    &&& same_disks(b1, b0)
    &&& log_extends(b0, b1)
    &&& if t0.cache_lba == Some(w as u32) {
        &&& r == Ok::<u32, ErrorStr>(fat_entry(image, t0.volume, c))
        &&& b1.transfers() == b0.transfers()
        &&& t1.cache_lba == t0.cache_lba
    } else {
        &&& follows_plan(
            new_transfers(b0, b1),
            transfer_plan(t0.volume.disk, t0.volume.start_fat_sector + w, 2),
        )
        &&& match r {
            Ok(v) => {
                &&& v == fat_entry(image, t0.volume, c)
                &&& t1.cache_lba == Some(w as u32)
                &&& new_transfers(b0, b1).len() == transfer_plan(
                    t0.volume.disk,
                    t0.volume.start_fat_sector + w,
                    2,
                ).len()
                &&& all_ok(new_transfers(b0, b1))
            },
            Err(e) => disk_failure(e),
        }
    }
}

pub fn fat_table(volume: &Fat32Volume) -> (t: FatTable)
    requires
        volume.wf(),
    ensures
        t.volume == *volume,
        t.cache_lba is None,
        forall|image: Seq<u8>| #[trigger] t.wf(image),
{
    FatTable { volume: *volume, cache_lba: None, cache_buffer: vec![0u8; FAT_TABLE_CACHE_SIZE] }
}

impl FatTable {
    /// Cluster `cluster`'s FAT entry, read through the cache.
    pub fn entry<B: Bios>(&mut self, bios: &mut B, cluster: u32) -> (r: Result<u32, ErrorStr>)
        requires
            old(self).wf(old(bios).disk_image(old(self).volume.disk.bios_number)),
            disk_matches(old(self).volume.disk, *old(bios)),
            old(self).volume.is_cluster(cluster as int),
            old(self).volume.entry_addressable(cluster as int),
        ensures
            final(self).wf(final(bios).disk_image(final(self).volume.disk.bios_number)),
            disk_matches(final(self).volume.disk, *final(bios)),
            entry_outcome(*old(self), *old(bios), cluster as int, r, *final(self), *final(bios)),
            old(self).volume.disk.io_method == IoMethod::Lba && old(self).volume.fat_holds_all()
                ==> reads_below(
                old(self).volume.start_data_sector as int,
                new_transfers(*old(bios), *final(bios)),
            ),
            r matches Err(e) && e.msg == READ_ERROR ==> some_transfer_failed(
                new_transfers(*old(bios), *final(bios)),
            ),
            match r {
                Err(e) => disk_failure(e) ==> volume_read_failure(old(self).volume, e),
                Ok(_) => true,
            },
    {
        proof {
            crate::error::lemma_error_messages_distinct();
        }
        let ghost image = bios.disk_image(self.volume.disk.bios_number);
        let ghost b0 = *bios;
        let ghost t0 = *self;
        let vol = self.volume;
        proof {
            lemma_window_in_fat(vol, cluster as int);
        }
        let fat_offset: u64 = cluster as u64 * 4;
        let cache_size: u64 = FAT_TABLE_CACHE_SIZE as u64;
        let sector: u32 = (fat_offset / cache_size * (cache_size / 512)) as u32;
        let offset: u64 = fat_offset % cache_size;
        let cache_hit = match self.cache_lba {
            None => false,
            Some(cache_lba) => cache_lba == sector,
        };
        if !cache_hit {
            self.cache_lba = None;
            let read = read_disk_sectors(
                bios,
                &vol.disk,
                vol.start_fat_sector + sector,
                self.cache_buffer.as_mut_slice(),
            );
            if let Err(e) = read {
                proof {
                    if vol.disk.io_method == IoMethod::Lba {
                        lemma_lba_window_plan(vol.disk, vol.start_fat_sector + sector as int);
                    }
                    if let IoMethod::Chs(g) = vol.disk.io_method {
                        if e.msg == CHS_OVERFLOW_ERROR {
                            lemma_window_before_end(vol, cluster as int);
                            lemma_cylinder_monotone(
                                vol.start_fat_sector + sector + 1,
                                data_end(vol),
                                g,
                            );
                        }
                    }
                }
                return Err(e);
            }
            self.cache_lba = Some(sector);
        }
        proof {
            if vol.disk.io_method == IoMethod::Lba && !cache_hit {
                lemma_lba_window_plan(vol.disk, vol.start_fat_sector + sector as int);
            }
            if cache_hit {
                assert(new_transfers(b0, *bios) =~= Seq::<Transfer>::empty());
            }
            lemma_entry_in_window(vol, cluster as int, image, self.cache_buffer@);
            assert(log_extends(b0, *bios)) by {
                if cache_hit {
                    assert(bios.transfers().subrange(0, b0.transfers().len() as int) =~= b0.transfers());
                }
            }
        }
        Ok(get32(self.cache_buffer.as_slice(), offset as usize))
    }
}

proof fn lemma_window_in_fat(vol: Fat32Volume, c: int)
    requires
        vol.wf(),
        vol.is_cluster(c),
    ensures
        fat_window(c) == (c * 4) / 1024 * 2,
        0 <= fat_window(c),
        vol.fat_holds_all() ==> fat_window(c) + 1 <= vol.sec_per_fat,
        vol.fat_holds_all() ==> vol.start_fat_sector + fat_window(c) < vol.start_data_sector,
{
    assert(c * 4 < (vol.total_clusters + 2) * 4);
    vstd::arithmetic::div_mod::lemma_fundamental_div_mod(c * 4, 1024);
    vstd::arithmetic::div_mod::lemma_mod_bound(c * 4, 1024);
    assert((c * 4) / 1024 * 2 * 512 <= c * 4);
}

proof fn lemma_entry_in_window(vol: Fat32Volume, c: int, image: Seq<u8>, window: Seq<u8>)
    requires
        vol.wf(),
        vol.is_cluster(c),
        sectors_present(image, vol.start_fat_sector + fat_window(c), 2),
        window == sector_bytes(image, vol.start_fat_sector + fat_window(c), 2),
    ensures
        (c * 4) % 1024 + 4 <= 1024,
        le32(window, (c * 4) % 1024) == fat_entry(image, vol, c),
{
    vstd::arithmetic::div_mod::lemma_fundamental_div_mod(c * 4, 1024);
    vstd::arithmetic::div_mod::lemma_mod_bound(c * 4, 1024);
    assert((c * 4) % 1024 == ((c % 256) * 4)) by {
        vstd::arithmetic::div_mod::lemma_fundamental_div_mod(c, 256);
        vstd::arithmetic::div_mod::lemma_mod_bound(c, 256);
        vstd::arithmetic::div_mod::lemma_fundamental_div_mod_converse(c * 4, 1024, c / 256, (c % 256) * 4);
    }
    let base = (vol.start_fat_sector + fat_window(c)) * 512;
    let o = (c * 4) % 1024;
    assert(base + o == vol.start_fat_sector * 512 + c * 4);
    assert(window[o] == image[base + o]);
    assert(window[o + 1] == image[base + o + 1]);
    assert(window[o + 2] == image[base + o + 2]);
    assert(window[o + 3] == image[base + o + 3]);
}

/// Reading two sectors by LBA takes a single transfer.
proof fn lemma_lba_window_plan(disk: Disk, lba: int)
    requires
        disk.io_method == IoMethod::Lba,
    ensures
        transfer_plan(disk, lba, 2).len() == 1,
        transfer_plan(disk, lba, 2)[0] == (lba, 2int),
{
    assert(transfer_plan(disk, lba + 2, 0) == Seq::<(int, int)>::empty());
    assert(transfer_plan(disk, lba, 2) == seq![(lba, 2int)] + transfer_plan(disk, lba + 2, 0));
}

/// How many of the first `n` lookups of clusters `cs` go to a window other
/// than the one before them (the first lookup always does).
pub open spec fn window_changes(cs: Seq<int>, n: int) -> int
    decreases n,
{
    if n <= 0 {
        0
    } else {
        window_changes(cs, n - 1) + if n == 1 || fat_window(cs[n - 1]) != fat_window(cs[n - 2]) {
            1int
        } else {
            0int
        }
    }
}

/// Successive lookups `cs` through one cache that starts empty, on a disk
/// read by LBA, each answering (`ts` and `bs` are the table and BIOS states
/// between them): each answers with the entry the FAT on disk holds, as a
/// direct read of that entry would; and over the first `n` lookups the disk is
/// read exactly once for every lookup whose window differs from the one
/// before it, so lookups that stay in one 1024-byte window cost one read in
/// all, and crossing into another window costs exactly one more.
pub proof fn lemma_fat_cache_lookups<B: Bios>(
    ts: Seq<FatTable>,
    bs: Seq<B>,
    cs: Seq<int>,
    rs: Seq<Result<u32, ErrorStr>>,
    n: int,
)
    requires
        0 <= n <= cs.len(),
        ts.len() == cs.len() + 1,
        bs.len() == cs.len() + 1,
        rs.len() == cs.len(),
        ts[0].volume.wf(),
        ts[0].volume.disk.io_method == IoMethod::Lba,
        ts[0].cache_lba is None,
        forall|j: int|
            0 <= j < cs.len() ==> #[trigger] entry_outcome(
                ts[j],
                bs[j],
                cs[j],
                rs[j],
                ts[j + 1],
                bs[j + 1],
            ),
        forall|j: int| 0 <= j < cs.len() ==> (#[trigger] rs[j]) is Ok,
        forall|j: int|
            0 <= j < cs.len() ==> ts[0].volume.is_cluster(#[trigger] cs[j])
                && ts[0].volume.entry_addressable(cs[j]),
    ensures
        new_transfers(bs[0], bs[n]).len() == window_changes(cs, n),
        log_extends(bs[0], bs[n]),
        ts[n].volume == ts[0].volume,
        same_disks(bs[n], bs[0]),
        n > 0 ==> ts[n].cache_lba == Some(fat_window(cs[n - 1]) as u32),
        forall|j: int|
            0 <= j < n ==> #[trigger] rs[j] == Ok::<u32, ErrorStr>(
                fat_entry(bs[0].disk_image(ts[0].volume.disk.bios_number), ts[0].volume, cs[j]),
            ),
    decreases n,
{
    let vol = ts[0].volume;
    if n == 0 {
        assert(bs[0].transfers().subrange(0, bs[0].transfers().len() as int) =~= bs[0].transfers());
        assert(new_transfers(bs[0], bs[0]) =~= Seq::<Transfer>::empty());
    } else {
        let j = n - 1;
        lemma_fat_cache_lookups(ts, bs, cs, rs, j);
        assert(entry_outcome(ts[j], bs[j], cs[j], rs[j], ts[j + 1], bs[j + 1]));
        assert(rs[j] is Ok);
        assert(vol.is_cluster(cs[j]) && vol.entry_addressable(cs[j]));
        lemma_window_in_fat(vol, cs[j]);
        lemma_lba_window_plan(vol.disk, vol.start_fat_sector + fat_window(cs[j]));
        if j > 0 {
            assert(vol.is_cluster(cs[j - 1]) && vol.entry_addressable(cs[j - 1]));
            lemma_window_in_fat(vol, cs[j - 1]);
        }
        if ts[j].cache_lba == Some(fat_window(cs[j]) as u32) {
            assert(new_transfers(bs[j], bs[n]) =~= Seq::<Transfer>::empty());
        }
        lemma_new_transfers_concat(bs[0], bs[j], bs[n]);
        assert forall|i: int| 0 <= i < n implies #[trigger] rs[i] == Ok::<u32, ErrorStr>(
            fat_entry(bs[0].disk_image(vol.disk.bios_number), vol, cs[i]),
        ) by {
            if i == j {
                assert(bs[j].disk_image(vol.disk.bios_number) == bs[0].disk_image(vol.disk.bios_number));
            }
        }
    }
}

/// `base` rounded up to a multiple of `multiplier`.
pub open spec fn round_up_spec(base: int, multiplier: int) -> int {
    (base + multiplier - 1) / multiplier * multiplier
}

fn round_up(base: u64, multiplier: u64) -> (r: u64)
    requires
        multiplier > 0,
        base + multiplier <= u64::MAX,
    ensures
        r == round_up_spec(base as int, multiplier as int),
        base <= r <= base + multiplier,
{
    proof {
        let q = (base + multiplier - 1) / multiplier as int;
        vstd::arithmetic::div_mod::lemma_fundamental_div_mod(base + multiplier - 1, multiplier as int);
        vstd::arithmetic::div_mod::lemma_mod_bound(base + multiplier - 1, multiplier as int);
        assert(q * multiplier <= base + multiplier - 1) by (nonlinear_arith)
            requires
                base + multiplier - 1 == multiplier * q + (base + multiplier - 1) % multiplier as int,
                (base + multiplier - 1) % multiplier as int >= 0,
        ;
        assert(q * multiplier >= base) by (nonlinear_arith)
            requires
                base + multiplier - 1 == multiplier * q + (base + multiplier - 1) % multiplier as int,
                (base + multiplier - 1) % multiplier as int <= multiplier - 1,
        ;
    }
    (base + multiplier - 1) / multiplier * multiplier
}

/// The bytes a file occupies on disk: its size rounded up to whole clusters.
pub open spec fn file_span(vol: Fat32Volume, size: int) -> int {
    round_up_spec(size, vol.sec_per_clust * 512)
}

/// The sectors of the file whose chain starts at `cluster`, and whether its
/// chain is complete.
pub open spec fn file_sectors(image: Seq<u8>, vol: Fat32Volume, cluster: int) -> (Seq<u32>, bool) {
    let ch = cluster_chain(image, vol, cluster);
    (sectors_of(vol, ch.0), ch.1)
}

/// `buf` starts with the whole data of the file at `loc`: its chain is
/// complete and holds exactly its size rounded up to whole clusters.
pub open spec fn file_loaded(image: Seq<u8>, vol: Fat32Volume, loc: FileLocation, buf: Seq<u8>) -> bool {
    let fs = file_sectors(image, vol, loc.cluster as int);
    let span = file_span(vol, loc.size as int);
    &&& vol.is_cluster(loc.cluster as int)
    &&& fs.1
    &&& fs.0.len() * 512 == span
    &&& span <= buf.len()
    &&& buf.subrange(0, span) == bytes_of_sectors(image, fs.0)
}

/// The file at `loc` can be copied into a buffer of `len` bytes: it starts at
/// a cluster of the volume, its chain is complete and holds exactly its size
/// rounded up to whole clusters, and that fits the buffer.
pub open spec fn file_fits(image: Seq<u8>, vol: Fat32Volume, loc: FileLocation, len: int) -> bool {
    let fs = file_sectors(image, vol, loc.cluster as int);
    let span = file_span(vol, loc.size as int);
    vol.is_cluster(loc.cluster as int) && fs.1 && fs.0.len() * 512 == span && span <= len
}

/// Why looking up the file `name` on `vol` and copying it into a buffer of
/// `len` bytes may end in `e`, other than a disk failure: the name is absent
/// from a complete root directory; the root chain is broken, or the file's
/// start cluster or chain is; or the file's chain does not fit its size or
/// the buffer.
pub open spec fn file_error_cause(image: Seq<u8>, vol: Fat32Volume, name: Seq<u8>, len: int, e: ErrorStr) -> bool {
    let dir = root_dir_bytes(image, vol);
    let root_complete = cluster_chain(image, vol, vol.root_dir_clust as int).1;
    ||| (e.msg == FILE_NOT_FOUND_ERROR && root_complete && forall|j: int|
        0 <= j && (j + 1) * 32 <= dir.len() ==> !#[trigger] record_matches(dir, j, name))
    ||| (e.msg == FAT_CHAIN_ERROR && (!root_complete || exists|i: int| #[trigger]
        first_match(dir, i, name) && (!vol.is_cluster(record_location(dir, i).cluster as int)
            || !file_sectors(image, vol, record_location(dir, i).cluster as int).1)))
    ||| (e.msg == FILE_SIZE_ERROR && exists|i: int| #[trigger]
        first_match(dir, i, name) && vol.is_cluster(record_location(dir, i).cluster as int)
            && !file_fits(image, vol, record_location(dir, i), len))
}

/// Copies the data of the file at `location` into the start of `buffer`,
/// fragment by fragment. The chain must hold exactly the file's size rounded
/// up to whole clusters.
pub fn read_node_data<B: Bios>(
    volume: &Fat32Volume,
    location: FileLocation,
    buffer: &mut [u8],
    fat_table: &mut FatTable,
    bios: &mut B,
) -> (r: Result<(), ErrorStr>)
    requires
        table_ok(*old(fat_table), *old(bios)),
        old(fat_table).volume == *volume,
    ensures
        step_keeps(*old(fat_table), *old(bios), *final(fat_table), *final(bios)),
        final(buffer)@.len() == old(buffer)@.len(),
        ({
            let image = old(bios).disk_image(volume.disk.bios_number);
            let fs = file_sectors(image, *volume, location.cluster as int);
            let span = file_span(*volume, location.size as int);
            let fits = file_fits(image, *volume, location, old(buffer)@.len() as int);
            match r {
                Ok(()) => {
                    &&& fits
                    &&& location.size <= span
                    &&& final(buffer)@.subrange(0, span) == bytes_of_sectors(image, fs.0)
                    &&& final(buffer)@.subrange(span, old(buffer)@.len() as int) == old(
                        buffer,
                    )@.subrange(span, old(buffer)@.len() as int)
                },
                Err(e) => {
                    ||| (e.msg == FAT_CHAIN_ERROR && (!volume.is_cluster(location.cluster as int) || !fs.1))
                    ||| (e.msg == FILE_SIZE_ERROR && volume.is_cluster(location.cluster as int) && !fits)
                    ||| disk_failure(e)
                },
            }
        }),
        !volume.is_cluster(location.cluster as int) ==> (r matches Err(e) && e.msg == FAT_CHAIN_ERROR)
            && final(bios).transfers() == old(bios).transfers(),
        (volume.disk.io_method == IoMethod::Lba && volume.fat_holds_all() && r is Ok)
            ==> sectors_read_from(
            volume.start_data_sector as int,
            new_transfers(*old(bios), *final(bios)),
        ) == file_sectors(
            old(bios).disk_image(volume.disk.bios_number),
            *volume,
            location.cluster as int,
        ).0,
        (volume.disk.io_method == IoMethod::Lba && volume.fat_holds_all() && r is Ok)
            ==> requests_from(
            volume.start_data_sector as int,
            new_transfers(*old(bios), *final(bios)),
        ) == plan_of_runs(
            volume.disk,
            runs(
                file_sectors(
                    old(bios).disk_image(volume.disk.bios_number),
                    *volume,
                    location.cluster as int,
                ).0,
                0xffff_ffff,
            ),
        ),
        r matches Err(e) && e.msg == READ_ERROR ==> some_transfer_failed(
            new_transfers(*old(bios), *final(bios)),
        ),
        match r {
            Err(e) => disk_failure(e) ==> volume_read_failure(*volume, e),
            Ok(_) => true,
        },
{
    proof {
        crate::error::lemma_error_messages_distinct();
    }
    let ghost image = bios.disk_image(volume.disk.bios_number);
    let ghost vol = *volume;
    let ghost b0 = *bios;
    let ghost t0 = *fat_table;
    let ghost old_buf = buffer@;
    let cluster = location.cluster;
    if cluster < 2 || cluster - 2 >= volume.total_clusters {
        proof {
            assert(bios.transfers().subrange(0, bios.transfers().len() as int) =~= bios.transfers());
        }
        return Err(ErrorStr::new(FAT_CHAIN_ERROR));
    }
    let ghost all = file_sectors(image, vol, cluster as int);
    let mut it = iterate_fragments(fat_table, cluster, 0xffff_ffff);
    let cluster_bytes: u64 = volume.sec_per_clust as u64 * 512;
    let full_size: u64 = round_up(location.size as u64, cluster_bytes);
    let buf_len = buffer.len();
    let mut offset: u64 = 0;
    let ghost mut done: Seq<u32> = seq![];
    let ghost mut runs_done: Seq<(int, int)> = seq![];
    proof {
        assert(new_transfers(b0, *bios) =~= Seq::<Transfer>::empty());
        assert(all.0 =~= done + it.rest(image, vol).0);
        assert(runs_done + runs(all.0, 0xffff_ffff) =~= runs(all.0, 0xffff_ffff));
        assert(bios.transfers().subrange(0, bios.transfers().len() as int) =~= bios.transfers());
        assert(buffer@.subrange(0, 0) =~= bytes_of_sectors(image, done));
        assert(buffer@.subrange(0, buf_len as int) =~= old_buf.subrange(0, buf_len as int));
    }
    loop
        invariant
            b0 == *old(bios),
            t0 == *old(fat_table),
            vol == *volume,
            image == b0.disk_image(vol.disk.bios_number),
            old_buf == old(buffer)@,
            step_keeps(t0, b0, *fat_table, *bios),
            fat_table.volume == vol,
            vol.wf(),
            vol.is_cluster(cluster as int),
            cluster == location.cluster,
            it.max_sectors == 0xffff_ffff,
            it.wf(vol),
            buffer@.len() == buf_len,
            old_buf.len() == buf_len,
            full_size == file_span(vol, location.size as int),
            all == file_sectors(image, vol, cluster as int),
            all.0 == done + it.rest(image, vol).0,
            all.1 == it.rest(image, vol).1,
            all_present(image, done),
            offset == done.len() * 512,
            offset <= full_size,
            offset <= buf_len,
            buffer@.subrange(0, offset as int) == bytes_of_sectors(image, done),
            buffer@.subrange(offset as int, buf_len as int) == old_buf.subrange(
                offset as int,
                buf_len as int,
            ),
            location.size <= full_size <= location.size + cluster_bytes,
            cluster_bytes <= 255 * 512,
            vol.disk.io_method == IoMethod::Lba && vol.fat_holds_all() ==> sectors_read_from(
                vol.start_data_sector as int,
                new_transfers(b0, *bios),
            ) == done,
            runs(all.0, 0xffff_ffff) == runs_done + runs(it.rest(image, vol).0, 0xffff_ffff),
            vol.disk.io_method == IoMethod::Lba && vol.fat_holds_all() ==> requests_from(
                vol.start_data_sector as int,
                new_transfers(b0, *bios),
            ) == plan_of_runs(vol.disk, runs_done),
        ensures
            it.rest(image, vol) == (Seq::<u32>::empty(), true),
        decreases it.rest(image, vol).0.len(),
    {
        let ghost b1 = *bios;
        let ghost rest0 = it.rest(image, vol);
        let fragment = match it.next(fat_table, bios) {
            Err(e) => {
                proof {
                    lemma_new_transfers_concat(b0, b1, *bios);
                    lemma_failed_concat(new_transfers(b0, b1), new_transfers(b1, *bios));
                }
                return Err(e);
            },
            Ok(None) => {
                proof {
                    lemma_new_transfers_concat(b0, b1, *bios);
                    lemma_failed_concat(new_transfers(b0, b1), new_transfers(b1, *bios));
                    assert(all.0 =~= done);
                    if vol.disk.io_method == IoMethod::Lba && vol.fat_holds_all() {
                        lemma_sectors_read_below(vol.start_data_sector as int, new_transfers(b1, *bios));
                        lemma_sectors_read_concat(
                            vol.start_data_sector as int,
                            new_transfers(b0, b1),
                            new_transfers(b1, *bios),
                        );
                        assert(done + Seq::<u32>::empty() =~= done);
                        lemma_requests_below(vol.start_data_sector as int, new_transfers(b1, *bios));
                        lemma_requests_concat(
                            vol.start_data_sector as int,
                            new_transfers(b0, b1),
                            new_transfers(b1, *bios),
                        );
                        assert(plan_of_runs(vol.disk, runs_done) + Seq::<(int, int)>::empty()
                            =~= plan_of_runs(vol.disk, runs_done));
                    }
                }
                break;
            },
            Ok(Some(f)) => f,
        };
        proof {
            lemma_new_transfers_concat(b0, b1, *bios);
            lemma_failed_concat(new_transfers(b0, b1), new_transfers(b1, *bios));
            if vol.disk.io_method == IoMethod::Lba && vol.fat_holds_all() {
                lemma_sectors_read_below(vol.start_data_sector as int, new_transfers(b1, *bios));
                lemma_sectors_read_concat(
                    vol.start_data_sector as int,
                    new_transfers(b0, b1),
                    new_transfers(b1, *bios),
                );
                assert(done + Seq::<u32>::empty() =~= done);
                lemma_requests_below(vol.start_data_sector as int, new_transfers(b1, *bios));
                lemma_requests_concat(
                    vol.start_data_sector as int,
                    new_transfers(b0, b1),
                    new_transfers(b1, *bios),
                );
                assert(plan_of_runs(vol.disk, runs_done) + Seq::<(int, int)>::empty()
                    =~= plan_of_runs(vol.disk, runs_done));
            }
        }
        let ghost run = sector_run(fragment.start_sector as int, fragment.sector_count as int);
        let ghost rest = it.rest(image, vol).0;
        let fragment_bytes: u64 = fragment.sector_count as u64 * 512;
        if offset + fragment_bytes > full_size || offset + fragment_bytes > buf_len as u64 {
            proof {
                assert(all.0 =~= done + (run + rest));
                lemma_bytes_concat(image, done, run + rest);
            }
            return Err(ErrorStr::new(FILE_SIZE_ERROR));
        }
        let ghost b2 = *bios;
        let ghost buf_before = buffer@;
        let (lo, hi) = buffer.split_at_mut(offset as usize);
        let (dest, tail) = hi.split_at_mut(fragment_bytes as usize);
        let read = read_disk_sectors(bios, &volume.disk, fragment.start_sector, dest);
        if let Err(e) = read {
            proof {
                lemma_new_transfers_concat(b0, b2, *bios);
                lemma_failed_concat(new_transfers(b0, b2), new_transfers(b2, *bios));
                if let IoMethod::Chs(g) = vol.disk.io_method {
                    if e.msg == CHS_OVERFLOW_ERROR {
                        lemma_cylinder_monotone(
                            fragment.start_sector + fragment.sector_count - 1,
                            data_end(vol),
                            g,
                        );
                    }
                }
            }
            return Err(e);
        }
        proof {
            lemma_new_transfers_concat(b0, b2, *bios);
            lemma_failed_concat(new_transfers(b0, b2), new_transfers(b2, *bios));
            lemma_run_bytes(image, fragment.start_sector as int, fragment.sector_count as int);
            lemma_bytes_concat(image, done, run);
            if vol.disk.io_method == IoMethod::Lba && vol.fat_holds_all() {
                let plan = transfer_plan(
                    vol.disk,
                    fragment.start_sector as int,
                    fragment.sector_count as int,
                );
                lemma_plan_covers(vol.disk, fragment.start_sector as int, fragment.sector_count as int);
                lemma_sectors_read_plan(vol.start_data_sector as int, new_transfers(b2, *bios), plan);
                lemma_sectors_read_concat(
                    vol.start_data_sector as int,
                    new_transfers(b0, b2),
                    new_transfers(b2, *bios),
                );
                lemma_requests_plan(vol.start_data_sector as int, new_transfers(b2, *bios), plan);
                lemma_requests_concat(
                    vol.start_data_sector as int,
                    new_transfers(b0, b2),
                    new_transfers(b2, *bios),
                );
                lemma_plan_of_runs_push(
                    vol.disk,
                    runs_done,
                    (fragment.start_sector as int, fragment.sector_count as int),
                );
            }
            assert(rest0.0 == run + rest);
            assert(fragment.start_sector + fragment.sector_count <= u32::MAX);
            assert(fragment.sector_count >= 0xffff_ffff || rest.len() == 0 || rest[0]
                != fragment.start_sector + fragment.sector_count);
            lemma_first_run(
                rest0.0,
                rest,
                fragment.start_sector as int,
                fragment.sector_count as int,
                0xffff_ffff,
            );
            assert(runs_done + runs(rest0.0, 0xffff_ffff) =~= runs_done.push(
                (fragment.start_sector as int, fragment.sector_count as int),
            ) + runs(rest, 0xffff_ffff));
            assert(all.0 =~= (done + run) + rest);
            let nb = buffer@;
            let o = offset as int;
            let fb = fragment_bytes as int;
            assert(nb.subrange(0, o + fb) =~= buf_before.subrange(0, o) + bytes_of_sectors(image, run));
            assert(nb.subrange(o + fb, buf_len as int) =~= old_buf.subrange(o + fb, buf_len as int));
            assert(all_present(image, done + run)) by {
                assert forall|i: int| 0 <= i < (done + run).len() implies sectors_present(
                    image,
                    #[trigger] (done + run)[i] as int,
                    1,
                ) by {
                    if i >= done.len() {
                        assert((done + run)[i] == run[i - done.len()]);
                    }
                }
            }
            done = done + run;
            runs_done = runs_done.push((fragment.start_sector as int, fragment.sector_count as int));
        }
        offset = offset + fragment_bytes;
    }
    if offset != full_size {
        return Err(ErrorStr::new(FILE_SIZE_ERROR));
    }
    proof {
        assert(runs(it.rest(image, vol).0, 0xffff_ffff) =~= Seq::<(int, int)>::empty());
        assert(runs_done + Seq::<(int, int)>::empty() =~= runs_done);
    }
    Ok(())
}

/// Finds the file named `name` in the root directory and copies its data into
/// `buffer`, which also serves as scratch space for the search. Returns the
/// file's size in bytes.
pub fn read_file_reusing_buffer_in_find<B: Bios>(
    volume: &Fat32Volume,
    name: &str,
    buffer: &mut [u8],
    bios: &mut B,
) -> (r: Result<u32, ErrorStr>)
    requires
        volume.wf(),
        disk_matches(volume.disk, *old(bios)),
        old(buffer)@.len() >= 512,
        old(buffer)@.len() / 512 <= u32::MAX,
    ensures
        same_disks(*final(bios), *old(bios)),
        log_extends(*old(bios), *final(bios)),
        final(buffer)@.len() == old(buffer)@.len(),
        ({
            let image = old(bios).disk_image(volume.disk.bios_number);
            let dir = root_dir_bytes(image, *volume);
            match r {
                Ok(size) => size <= final(buffer)@.len() && exists|i: int| #[trigger]
                    first_match(dir, i, name.spec_bytes()) && size == record_location(dir, i).size
                        && file_loaded(image, *volume, record_location(dir, i), final(buffer)@),
                Err(e) => {
                    ||| file_error_cause(image, *volume, name.spec_bytes(), old(buffer)@.len() as int, e)
                    ||| disk_failure(e)
                },
            }
        }),
        (volume.disk.io_method == IoMethod::Lba && volume.fat_holds_all() && (r matches Err(e)
            && e.msg == FILE_NOT_FOUND_ERROR)) ==> sectors_read_from(
            volume.start_data_sector as int,
            new_transfers(*old(bios), *final(bios)),
        ) == sectors_of(
            *volume,
            cluster_chain(
                old(bios).disk_image(volume.disk.bios_number),
                *volume,
                volume.root_dir_clust as int,
            ).0,
        ),
        r matches Err(e) && e.msg == READ_ERROR ==> some_transfer_failed(
            new_transfers(*old(bios), *final(bios)),
        ),
        match r {
            Err(e) => disk_failure(e) ==> volume_read_failure(*volume, e),
            Ok(_) => true,
        },
{
    proof {
        crate::error::lemma_error_messages_distinct();
    }
    proof {
        crate::error::lemma_error_messages_distinct();
    }
    let mut table = fat_table(volume);
    let ghost b0 = *bios;
    let ghost image = bios.disk_image(volume.disk.bios_number);
    let ghost dir = root_dir_bytes(image, *volume);
    match find_file(volume, name, &mut table, bios, buffer) {
        Err(e) => Err(e),
        Ok(None) => Err(ErrorStr::new(FILE_NOT_FOUND_ERROR)),
        Ok(Some(location)) => {
            let ghost b1 = *bios;
            let ghost i = choose|i: int|
                first_match(dir, i, name.spec_bytes()) && location == record_location(dir, i);
            let read = read_node_data(volume, location, buffer, &mut table, bios);
            proof {
                lemma_new_transfers_concat(b0, b1, *bios);
                lemma_failed_concat(new_transfers(b0, b1), new_transfers(b1, *bios));
                assert(first_match(dir, i, name.spec_bytes()));
            }
            match read {
                Err(e) => Err(e),
                Ok(()) => Ok(location.size),
            }
        },
    }
}

} // verus!
