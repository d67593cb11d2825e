//! The root directory: its bytes along its cluster chain, its 32-byte
//! records, and the search for a file by its raw 8.3 name.

use vstd::prelude::*;


use crate::chain::{lemma_first_run, runs, data_end, cluster_chain, iterate_fragments, sectors_of, step_keeps, table_ok};
use crate::disk::{lemma_cylinder_monotone, 
    disk_failure, disk_matches, get16, get32, le16, le32, new_transfers, read_disk_sectors,
    sector_bytes, sectors_present, transfer_plan, Bios, IoMethod,
};
use crate::error::{ErrorStr, CHS_OVERFLOW_ERROR, FAT_CHAIN_ERROR, READ_ERROR};
use crate::fat32::{volume_read_failure, FatTable, Fat32Volume};
use crate::reads::{
    lemma_plan_of_runs_push, lemma_requests_below, lemma_requests_concat, lemma_requests_plan,
    plan_of_runs, requests_from,
    lemma_failed_concat, lemma_new_transfers_concat, lemma_plan_covers, lemma_sectors_read_below,
    lemma_sectors_read_concat, lemma_sectors_read_plan, sector_run, sectors_read_from,
    some_transfer_failed,
};
use vstd::string::StringSliceAdditionalSpecFns;

verus! {
/// The bytes of the sectors `secs`, one sector after another.
pub open spec fn bytes_of_sectors(image: Seq<u8>, secs: Seq<u32>) -> Seq<u8>
    decreases secs.len(),
{
    if secs.len() == 0 {
        seq![]
    } else {
        sector_bytes(image, secs[0] as int, 1) + bytes_of_sectors(image, secs.drop_first())
    }
}

/// Every sector of `secs` exists in the image.
pub open spec fn all_present(image: Seq<u8>, secs: Seq<u32>) -> bool {
    forall|i: int| 0 <= i < secs.len() ==> sectors_present(image, #[trigger] secs[i] as int, 1)
}

pub proof fn lemma_bytes_concat(image: Seq<u8>, a: Seq<u32>, b: Seq<u32>)
    ensures
        bytes_of_sectors(image, a + b) == bytes_of_sectors(image, a) + bytes_of_sectors(image, b),
    decreases a.len(),
{
    if a.len() == 0 {
        assert(a + b =~= b);
        assert(bytes_of_sectors(image, a) =~= Seq::<u8>::empty());
        assert(Seq::<u8>::empty() + bytes_of_sectors(image, b) =~= bytes_of_sectors(image, b));
    } else {
        lemma_bytes_concat(image, a.drop_first(), b);
        assert((a + b).drop_first() =~= a.drop_first() + b);
        assert((a + b)[0] == a[0]);
        assert(bytes_of_sectors(image, a + b) =~= sector_bytes(image, a[0] as int, 1) + (
        bytes_of_sectors(image, a.drop_first()) + bytes_of_sectors(image, b)));
    }
}

/// A run of present sectors reads as the bytes from its first sector on.
pub proof fn lemma_run_bytes(image: Seq<u8>, start: int, count: int)
    requires
        0 <= count,
        0 <= start,
        start + count <= u32::MAX + 1,
        sectors_present(image, start, count),
    ensures
        bytes_of_sectors(image, sector_run(start, count)) == sector_bytes(image, start, count),
        all_present(image, sector_run(start, count)),
    decreases count,
{
    if count == 0 {
        assert(sector_bytes(image, start, 0) =~= Seq::<u8>::empty());
    } else {
        assert(sector_run(start, count).drop_first() =~= sector_run(start + 1, count - 1));
        lemma_run_bytes(image, start + 1, count - 1);
        assert(sector_bytes(image, start, count) =~= sector_bytes(image, start, 1) + sector_bytes(
            image,
            start + 1,
            count - 1,
        ));
        assert forall|i: int| 0 <= i < count implies sectors_present(
            image,
            #[trigger] sector_run(start, count)[i] as int,
            1,
        ) by {}
    }
}

pub const ATTR_READ_ONLY: u8 = 0x01;
pub const ATTR_HIDDEN: u8 = 0x02;
pub const ATTR_SYSTEM: u8 = 0x04;
pub const ATTR_VOLUME_ID: u8 = 0x08;
pub const ATTR_DIRECTORY: u8 = 0x10;
pub const ATTR_ARCHIVE: u8 = 0x20;

/// The attributes a plain file may carry.
pub const ALL_FILE_ATTRIBUTES: u8 = 0x27;

/// Where a file's data starts, and how long it is.
#[derive(Clone, Copy, Debug, PartialEq, Eq, Structural)]
pub struct FileLocation {
    pub cluster: u32,
    pub size: u32,
}

/// Directory record `i` of `dir` is a plain file (no directory or volume-ID
/// attribute) whose raw 11-byte name is `name`.
pub open spec fn record_matches(dir: Seq<u8>, i: int, name: Seq<u8>) -> bool {
    &&& dir[i * 32 + 11] & !ALL_FILE_ATTRIBUTES == 0
    &&& dir.subrange(i * 32, i * 32 + 11) == name
}

/// The start cluster and size that directory record `i` of `dir` holds.
pub open spec fn record_location(dir: Seq<u8>, i: int) -> FileLocation {
    FileLocation {
        cluster: (le16(dir, i * 32 + 20) as int * 0x10000 + le16(dir, i * 32 + 26) as int) as u32,
        size: le32(dir, i * 32 + 28),
    }
}

/// Record `i` is the first record of `dir` that matches `name`.
pub open spec fn first_match(dir: Seq<u8>, i: int, name: Seq<u8>) -> bool {
    &&& 0 <= i
    &&& (i + 1) * 32 <= dir.len()
    &&& record_matches(dir, i, name)
    &&& forall|j: int| 0 <= j < i ==> !#[trigger] record_matches(dir, j, name)
}

/// The bytes of the root directory, as far as its cluster chain is valid.
pub open spec fn root_dir_bytes(image: Seq<u8>, vol: Fat32Volume) -> Seq<u8> {
    bytes_of_sectors(image, sectors_of(vol, cluster_chain(image, vol, vol.root_dir_clust as int).0))
}

fn name_at(buf: &[u8], off: usize, name: &[u8]) -> (r: bool)
    requires
        off + 11 <= buf@.len(),
    ensures
        r == (buf@.subrange(off as int, off + 11) == name@),
{
    if name.len() != 11 {
        return false;
    }
    let n = buf.len();
    let mut i: usize = 0;
    while i < 11
        invariant
            n == buf@.len(),
            off + 11 <= n,
            name@.len() == 11,
            i <= 11,
            forall|j: int| 0 <= j < i ==> buf@[off + j] == name@[j],
        decreases 11 - i,
    {
        if buf[off + i] != name[i] {
            assert(buf@.subrange(off as int, off + 11)[i as int] != name@[i as int]);
            return false;
        }
        i = i + 1;
    }
    assert(buf@.subrange(off as int, off + 11) =~= name@);
    true
}

/// The directory sectors `read` were read in a search that found `name`:
/// they are the root directory's sectors `dsecs` from the first up to the end
/// of a run of contiguous sectors that holds the first match, each once and in
/// order, so the scan stopped with the fragment holding the match.
pub open spec fn found_after_reads(dsecs: Seq<u32>, dir: Seq<u8>, name: Seq<u8>, read: Seq<u32>) -> bool {
    exists|k0: int, k: int|
        #![trigger dsecs.subrange(k0, k)]
        0 <= k0 < k <= dsecs.len() && read == dsecs.subrange(0, k) && dsecs.subrange(k0, k)
            == sector_run(dsecs[k0] as int, k - k0) && forall|i: int|
            #[trigger] first_match(dir, i, name) ==> k0 * 512 <= i * 32 < k * 512
}

/// Searches the root directory for the file whose raw 8.3 name is `name`,
/// reading it fragment by fragment into `tmp_buf`.
#[verifier::rlimit(60)]
pub fn find_file<B: Bios>(
    volume: &Fat32Volume,
    name: &str,
    fat_table: &mut FatTable,
    bios: &mut B,
    tmp_buf: &mut [u8],
) -> (r: Result<Option<FileLocation>, ErrorStr>)
    requires
        table_ok(*old(fat_table), *old(bios)),
        old(fat_table).volume == *volume,
        old(tmp_buf)@.len() >= 512,
        old(tmp_buf)@.len() / 512 <= u32::MAX,
    ensures
        step_keeps(*old(fat_table), *old(bios), *final(fat_table), *final(bios)),
        final(tmp_buf)@.len() == old(tmp_buf)@.len(),
        final(tmp_buf)@.subrange(
            (old(tmp_buf)@.len() / 512 * 512) as int,
            old(tmp_buf)@.len() as int,
        ) == old(tmp_buf)@.subrange((old(tmp_buf)@.len() / 512 * 512) as int, old(tmp_buf)@.len() as int),
        ({
            let image = old(bios).disk_image(volume.disk.bios_number);
            let dir = root_dir_bytes(image, *volume);
            let complete = cluster_chain(image, *volume, volume.root_dir_clust as int).1;
            match r {
                Ok(Some(loc)) => exists|i: int|
                    first_match(dir, i, name.spec_bytes()) && loc == record_location(dir, i),
                Ok(None) => complete && forall|j: int|
                    0 <= j && (j + 1) * 32 <= dir.len() ==> !#[trigger] record_matches(
                        dir,
                        j,
                        name.spec_bytes(),
                    ),
                Err(e) => (e.msg == FAT_CHAIN_ERROR && !complete) || disk_failure(e),
            }
        }),
        (volume.disk.io_method == IoMethod::Lba && volume.fat_holds_all() && r matches Ok(Some(_)))
            ==> found_after_reads(
            sectors_of(
                *volume,
                cluster_chain(
                    old(bios).disk_image(volume.disk.bios_number),
                    *volume,
                    volume.root_dir_clust as int,
                ).0,
            ),
            root_dir_bytes(old(bios).disk_image(volume.disk.bios_number), *volume),
            name.spec_bytes(),
            sectors_read_from(volume.start_data_sector as int, new_transfers(*old(bios), *final(bios))),
        ),
        (volume.disk.io_method == IoMethod::Lba && volume.fat_holds_all() && r == Ok::<Option<FileLocation>, ErrorStr>(None)) ==> sectors_read_from(
            volume.start_data_sector as int,
            new_transfers(*old(bios), *final(bios)),
        ) == sectors_of(
            *volume,
            cluster_chain(
                old(bios).disk_image(volume.disk.bios_number),
                *volume,
                volume.root_dir_clust as int,
            ).0,
        ),
        (volume.disk.io_method == IoMethod::Lba && volume.fat_holds_all() && r == Ok::<
            Option<FileLocation>,
            ErrorStr,
        >(None)) ==> requests_from(
            volume.start_data_sector as int,
            new_transfers(*old(bios), *final(bios)),
        ) == plan_of_runs(
            volume.disk,
            runs(
                sectors_of(
                    *volume,
                    cluster_chain(
                        old(bios).disk_image(volume.disk.bios_number),
                        *volume,
                        volume.root_dir_clust as int,
                    ).0,
                ),
                (old(tmp_buf)@.len() / 512) as int,
            ),
        ),
        r matches Err(e) && e.msg == READ_ERROR ==> some_transfer_failed(
            new_transfers(*old(bios), *final(bios)),
        ),
        match r {
            Err(e) => disk_failure(e) ==> volume_read_failure(*volume, e),
            Ok(_) => true,
        },
{
    proof {
        crate::error::lemma_error_messages_distinct();
    }
    let ghost image = bios.disk_image(volume.disk.bios_number);
    let ghost vol = *volume;
    let ghost all = (
        sectors_of(vol, cluster_chain(image, vol, vol.root_dir_clust as int).0),
        cluster_chain(image, vol, vol.root_dir_clust as int).1,
    );
    let ghost b0 = *bios;
    let ghost t0 = *fat_table;
    let name_bytes = name.as_bytes();
    let tmp_len = tmp_buf.len();
    let max_sectors: u32 = (tmp_len / 512) as u32;
    let mut it = iterate_fragments(fat_table, volume.root_dir_clust, max_sectors);
    let ghost mut scanned: Seq<u32> = seq![];
    let ghost mut runs_done: Seq<(int, int)> = seq![];
    proof {
        assert(all.0 =~= scanned + it.rest(image, vol).0);
        assert(runs_done + runs(all.0, max_sectors as int) =~= runs(all.0, max_sectors as int));
        assert(bios.transfers().subrange(0, bios.transfers().len() as int) =~= bios.transfers());
    }
    loop
        invariant
            b0 == *old(bios),
            t0 == *old(fat_table),
            vol == *volume,
            image == b0.disk_image(vol.disk.bios_number),
            name_bytes@ == name.spec_bytes(),
            step_keeps(t0, b0, *fat_table, *bios),
            fat_table.volume == vol,
            vol.wf(),
            it.wf(vol),
            it.max_sectors == max_sectors,
            max_sectors as int == tmp_buf@.len() / 512,
            tmp_buf@.len() == old(tmp_buf)@.len(),
            tmp_buf@.len() == tmp_len,
            tmp_buf@.subrange(max_sectors * 512, tmp_len as int) == old(tmp_buf)@.subrange(
                max_sectors * 512,
                tmp_len as int,
            ),
            tmp_len >= 512,
            all.0 == scanned + it.rest(image, vol).0,
            all.1 == it.rest(image, vol).1,
            all == (
                sectors_of(vol, cluster_chain(image, vol, vol.root_dir_clust as int).0),
                cluster_chain(image, vol, vol.root_dir_clust as int).1,
            ),
            all_present(image, scanned),
            bytes_of_sectors(image, scanned).len() == scanned.len() * 512,
            forall|j: int|
                0 <= j < bytes_of_sectors(image, scanned).len() / 32 ==> !#[trigger] record_matches(
                    bytes_of_sectors(image, scanned),
                    j,
                    name_bytes@,
                ),
            vol.disk.io_method == IoMethod::Lba && vol.fat_holds_all() ==> sectors_read_from(
                vol.start_data_sector as int,
                new_transfers(b0, *bios),
            ) == scanned,
            runs(all.0, max_sectors as int) == runs_done + runs(it.rest(image, vol).0, max_sectors as int),
            vol.disk.io_method == IoMethod::Lba && vol.fat_holds_all() ==> requests_from(
                vol.start_data_sector as int,
                new_transfers(b0, *bios),
            ) == plan_of_runs(vol.disk, runs_done),
        decreases it.rest(image, vol).0.len(),
    {
        let ghost b1 = *bios;
        let ghost rest0 = it.rest(image, vol);
        let fragment = match it.next(fat_table, bios) {
            Err(e) => {
                proof {
                    lemma_new_transfers_concat(b0, b1, *bios);
                    lemma_failed_concat(new_transfers(b0, b1), new_transfers(b1, *bios));
                }
                return Err(e);
            },
            Ok(None) => {
                proof {
                    lemma_new_transfers_concat(b0, b1, *bios);
                    lemma_failed_concat(new_transfers(b0, b1), new_transfers(b1, *bios));
                    assert(all.0 =~= scanned);
                    assert(runs(it.rest(image, vol).0, max_sectors as int) =~= Seq::<(int, int)>::empty());
                    assert(runs_done + Seq::<(int, int)>::empty() =~= runs_done);
                    if vol.disk.io_method == IoMethod::Lba && vol.fat_holds_all() {
                        lemma_sectors_read_below(vol.start_data_sector as int, new_transfers(b1, *bios));
                        lemma_sectors_read_concat(
                            vol.start_data_sector as int,
                            new_transfers(b0, b1),
                            new_transfers(b1, *bios),
                        );
                        assert(scanned + Seq::<u32>::empty() =~= scanned);
                        lemma_requests_below(vol.start_data_sector as int, new_transfers(b1, *bios));
                        lemma_requests_concat(
                            vol.start_data_sector as int,
                            new_transfers(b0, b1),
                            new_transfers(b1, *bios),
                        );
                        assert(plan_of_runs(vol.disk, runs_done) + Seq::<(int, int)>::empty()
                            =~= plan_of_runs(vol.disk, runs_done));
                    }
                }
                return Ok(None);
            },
            Ok(Some(f)) => f,
        };
        let ghost run = sector_run(fragment.start_sector as int, fragment.sector_count as int);
        proof {
            lemma_new_transfers_concat(b0, b1, *bios);
            lemma_failed_concat(new_transfers(b0, b1), new_transfers(b1, *bios));
            if vol.disk.io_method == IoMethod::Lba && vol.fat_holds_all() {
                lemma_sectors_read_below(vol.start_data_sector as int, new_transfers(b1, *bios));
                lemma_sectors_read_concat(
                    vol.start_data_sector as int,
                    new_transfers(b0, b1),
                    new_transfers(b1, *bios),
                );
                assert(scanned + Seq::<u32>::empty() =~= scanned);
                lemma_requests_below(vol.start_data_sector as int, new_transfers(b1, *bios));
                lemma_requests_concat(
                    vol.start_data_sector as int,
                    new_transfers(b0, b1),
                    new_transfers(b1, *bios),
                );
                assert(plan_of_runs(vol.disk, runs_done) + Seq::<(int, int)>::empty()
                    =~= plan_of_runs(vol.disk, runs_done));
            }
        }
        proof {
            assert(fragment.sector_count * 512 <= tmp_len);
        }
        let read_buffer_size: usize = fragment.sector_count as usize * 512;
        let ghost b2 = *bios;
        let ghost scratch_before = tmp_buf@;
        let (read_buffer, unused) = tmp_buf.split_at_mut(read_buffer_size);
        let read = read_disk_sectors(bios, &volume.disk, fragment.start_sector, read_buffer);
        proof {
            assert(disk_matches(volume.disk, *bios));
            assert(fat_table.wf(bios.disk_image(vol.disk.bios_number)));
        }
        if let Err(e) = read {
            proof {
                lemma_new_transfers_concat(b0, b2, *bios);
                lemma_failed_concat(new_transfers(b0, b2), new_transfers(b2, *bios));
                if let IoMethod::Chs(g) = vol.disk.io_method {
                    if e.msg == CHS_OVERFLOW_ERROR {
                        lemma_cylinder_monotone(
                            fragment.start_sector + fragment.sector_count - 1,
                            data_end(vol),
                            g,
                        );
                    }
                }
            }
            return Err(e);
        }
        proof {
            lemma_new_transfers_concat(b0, b2, *bios);
            lemma_failed_concat(new_transfers(b0, b2), new_transfers(b2, *bios));
            lemma_run_bytes(image, fragment.start_sector as int, fragment.sector_count as int);
            let plan = transfer_plan(vol.disk, fragment.start_sector as int, fragment.sector_count as int);
            lemma_plan_covers(vol.disk, fragment.start_sector as int, fragment.sector_count as int);
            lemma_sectors_read_plan(vol.start_data_sector as int, new_transfers(b2, *bios), plan);
            lemma_sectors_read_concat(
                vol.start_data_sector as int,
                new_transfers(b0, b2),
                new_transfers(b2, *bios),
            );
            lemma_requests_plan(vol.start_data_sector as int, new_transfers(b2, *bios), plan);
            lemma_requests_concat(
                vol.start_data_sector as int,
                new_transfers(b0, b2),
                new_transfers(b2, *bios),
            );
            lemma_plan_of_runs_push(
                vol.disk,
                runs_done,
                (fragment.start_sector as int, fragment.sector_count as int),
            );
        }
        let ghost buf = read_buffer@;
        let ghost rest = it.rest(image, vol).0;
        proof {
            assert(rest0.0 == run + rest);
            assert(all.0 =~= scanned + (run + rest));
            lemma_bytes_concat(image, scanned, run + rest);
            lemma_bytes_concat(image, run, rest);
            lemma_bytes_concat(image, scanned, run);
        }
        match scan_records(read_buffer, name_bytes) {
            Some(k) => {
                let off: usize = k * 32;
                let cluster_hi = get16(read_buffer, off + 20);
                let cluster_lo = get16(read_buffer, off + 26);
                let size = get32(read_buffer, off + 28);
                let location = FileLocation {
                    cluster: (cluster_hi as u32) * 0x10000 + cluster_lo as u32,
                    size,
                };
                proof {
                    let pre = bytes_of_sectors(image, scanned);
                    let post = bytes_of_sectors(image, rest);
                    lemma_found_in_dir(pre, buf, post, k as int, name_bytes@);
                    let dir = root_dir_bytes(image, vol);
                    assert(dir == pre + (buf + post));
                    let i = pre.len() / 32 + k;
                    assert(first_match(dir, i, name.spec_bytes()));
                    assert(location == record_location(dir, i));
                    let kk = scanned.len() + run.len();
                    let k0 = scanned.len() as int;
                    assert(all.0.subrange(0, kk as int) =~= scanned + run);
                    assert(all.0.subrange(k0, kk as int) =~= run);
                    assert(all.0[k0] == run[0]);
                    assert forall|j: int| #[trigger] first_match(dir, j, name.spec_bytes()) implies k0
                        * 512 <= j * 32 < kk * 512 by {
                        lemma_first_match_unique(dir, i, j, name.spec_bytes());
                    }
                    if vol.disk.io_method == IoMethod::Lba && vol.fat_holds_all() {
                        assert(found_after_reads(
                            all.0,
                            dir,
                            name.spec_bytes(),
                            sectors_read_from(vol.start_data_sector as int, new_transfers(b0, *bios)),
                        ));
                    }
                }
                return Ok(Some(location));
            },
            None => {},
        }
        proof {
            lemma_none_in_prefix(bytes_of_sectors(image, scanned), buf, name_bytes@);
            assert(all.0 =~= (scanned + run) + rest);
            assert(all_present(image, scanned + run)) by {
                assert forall|i: int| 0 <= i < (scanned + run).len() implies sectors_present(
                    image,
                    #[trigger] (scanned + run)[i] as int,
                    1,
                ) by {
                    if i >= scanned.len() {
                        assert((scanned + run)[i] == run[i - scanned.len()]);
                    }
                }
            }
            lemma_first_run(
                rest0.0,
                rest,
                fragment.start_sector as int,
                fragment.sector_count as int,
                max_sectors as int,
            );
            assert(runs_done + runs(rest0.0, max_sectors as int) =~= runs_done.push(
                (fragment.start_sector as int, fragment.sector_count as int),
            ) + runs(rest, max_sectors as int));
            scanned = scanned + run;
            runs_done = runs_done.push((fragment.start_sector as int, fragment.sector_count as int));
        }
    }
}

/// A directory has at most one first match.
proof fn lemma_first_match_unique(dir: Seq<u8>, i: int, j: int, name: Seq<u8>)
    requires
        first_match(dir, i, name),
        first_match(dir, j, name),
    ensures
        i == j,
{
    if i < j {
        assert(!record_matches(dir, i, name));
    } else if j < i {
        assert(!record_matches(dir, j, name));
    }
}

/// The first record of `buf` whose name is `name` and that is a plain file.
fn scan_records(buf: &[u8], name: &[u8]) -> (r: Option<usize>)
    ensures
        match r {
            Some(k) => {
                &&& (k + 1) * 32 <= buf@.len()
                &&& record_matches(buf@, k as int, name@)
                &&& forall|j: int| 0 <= j < k ==> !#[trigger] record_matches(buf@, j, name@)
            },
            None => forall|j: int|
                0 <= j && (j + 1) * 32 <= buf@.len() ==> !#[trigger] record_matches(buf@, j, name@),
        },
{
    let n = buf.len();
    let entries: usize = n / 32;
    let mut k: usize = 0;
    while k < entries
        invariant
            n == buf@.len(),
            entries == n / 32,
            k <= entries,
            forall|j: int| 0 <= j < k ==> !#[trigger] record_matches(buf@, j, name@),
        decreases entries - k,
    {
        assert(k * 32 + 32 <= n) by {
            vstd::arithmetic::div_mod::lemma_fundamental_div_mod(n as int, 32);
        }
        let off: usize = k * 32;
        let attr = buf[off + 11];
        if (attr & !ALL_FILE_ATTRIBUTES) == 0 && name_at(buf, off, name) {
            return Some(k);
        }
        k = k + 1;
    }
    None
}

proof fn lemma_record_shift(a: Seq<u8>, b: Seq<u8>, c: Seq<u8>, j: int, name: Seq<u8>)
    requires
        0 <= j,
        (j + 1) * 32 <= b.len(),
        a.len() % 32 == 0,
    ensures
        record_matches(a + b + c, a.len() / 32 + j, name) == record_matches(b, j, name),
        record_location(a + b + c, a.len() / 32 + j) == record_location(b, j),
{
    let d = a + b + c;
    let i = a.len() / 32 + j;
    assert(i * 32 == a.len() + j * 32);
    assert forall|t: int| 0 <= t < 32 implies #[trigger] d[i * 32 + t] == b[j * 32 + t] by {}
    assert(d.subrange(i * 32, i * 32 + 11) =~= b.subrange(j * 32, j * 32 + 11));
    assert(d[i * 32 + 11] == b[j * 32 + 11]);
    assert(d[i * 32 + 20] == b[j * 32 + 20]);
    assert(d[i * 32 + 21] == b[j * 32 + 21]);
    assert(d[i * 32 + 26] == b[j * 32 + 26]);
    assert(d[i * 32 + 27] == b[j * 32 + 27]);
    assert(d[i * 32 + 28] == b[j * 32 + 28]);
    assert(d[i * 32 + 29] == b[j * 32 + 29]);
    assert(d[i * 32 + 30] == b[j * 32 + 30]);
    assert(d[i * 32 + 31] == b[j * 32 + 31]);
}

proof fn lemma_record_prefix(a: Seq<u8>, b: Seq<u8>, j: int, name: Seq<u8>)
    requires
        0 <= j,
        (j + 1) * 32 <= a.len(),
    ensures
        record_matches(a + b, j, name) == record_matches(a, j, name),
{
    let d = a + b;
    assert(d.subrange(j * 32, j * 32 + 11) =~= a.subrange(j * 32, j * 32 + 11));
    assert(d[j * 32 + 11] == a[j * 32 + 11]);
}

/// A match at record `k` of a fragment `buf`, read after the bytes `pre` in
/// which no record matched, is the first match of the whole directory.
proof fn lemma_found_in_dir(pre: Seq<u8>, buf: Seq<u8>, post: Seq<u8>, k: int, name: Seq<u8>)
    requires
        pre.len() % 32 == 0,
        buf.len() % 32 == 0,
        0 <= k,
        (k + 1) * 32 <= buf.len(),
        record_matches(buf, k, name),
        forall|j: int| 0 <= j < k ==> !#[trigger] record_matches(buf, j, name),
        forall|j: int| 0 <= j < pre.len() / 32 ==> !#[trigger] record_matches(pre, j, name),
    ensures
        first_match(pre + (buf + post), pre.len() / 32 + k, name),
        record_location(pre + (buf + post), pre.len() / 32 + k) == record_location(buf, k),
{
    let d = pre + (buf + post);
    assert(d =~= pre + buf + post);
    lemma_record_shift(pre, buf, post, k, name);
    assert forall|j: int| 0 <= j < pre.len() / 32 + k implies !#[trigger] record_matches(d, j, name) by {
        if j < pre.len() / 32 {
            lemma_record_prefix(pre, buf + post, j, name);
        } else {
            lemma_record_shift(pre, buf, post, j - pre.len() / 32, name);
        }
    }
}

/// When no record of `pre` nor of `buf` matches, none of `pre + buf` does.
proof fn lemma_none_in_prefix(pre: Seq<u8>, buf: Seq<u8>, name: Seq<u8>)
    requires
        pre.len() % 32 == 0,
        buf.len() % 32 == 0,
        forall|j: int| 0 <= j < pre.len() / 32 ==> !#[trigger] record_matches(pre, j, name),
        forall|j: int| 0 <= j && (j + 1) * 32 <= buf.len() ==> !#[trigger] record_matches(buf, j, name),
    ensures
        forall|j: int| 0 <= j < (pre + buf).len() / 32 ==> !#[trigger] record_matches(pre + buf, j, name),
{
    assert forall|j: int| 0 <= j < (pre + buf).len() / 32 implies !#[trigger] record_matches(pre + buf, j, name) by {
        if j < pre.len() / 32 {
            lemma_record_prefix(pre, buf, j, name);
        } else {
            lemma_record_shift(pre, buf, Seq::<u8>::empty(), j - pre.len() / 32, name);
            assert(pre + buf + Seq::<u8>::empty() =~= pre + buf);
        }
    }
}

} // verus!
