//! Lazy traversals of a cluster chain: its clusters, their sectors, and the
//! runs of contiguous sectors they form.

use vstd::prelude::*;


use crate::disk::{
    disk_failure, disk_matches, log_extends, new_transfers, same_disks, Bios, IoMethod,
};
use crate::error::{ErrorStr, FAT_CHAIN_ERROR, READ_ERROR};
use crate::fat32::{fat_entry, fat_window, volume_read_failure, Fat32Volume, FatTable};
use crate::reads::{
    lemma_failed_concat, lemma_new_transfers_concat, lemma_reads_below_concat, reads_below,
    sector_run, some_transfer_failed,
};

verus! {
/// The entry value from which on a FAT entry marks the end of a chain.
pub const END_OF_CHAIN: u32 = 0x0fff_fff8;

/// The clusters of the chain that starts at `c`, taking at most `fuel` of
/// them, and whether the chain ended at an end marker. A cluster whose entry
/// is neither a cluster of the volume nor an end marker ends the walk, as
/// do an entry past the 32-bit sector range and running out of fuel: all
/// leave the walk incomplete.
pub open spec fn cluster_walk(image: Seq<u8>, vol: Fat32Volume, c: int, fuel: nat) -> (Seq<u32>, bool)
    decreases fuel,
{
    if fuel == 0 || !vol.entry_addressable(c) {
        (seq![], false)
    } else {
        let next = fat_entry(image, vol, c) & 0x0fff_ffff;
        if vol.is_cluster(next as int) {
            let rest = cluster_walk(image, vol, next as int, (fuel - 1) as nat);
            (seq![c as u32] + rest.0, rest.1)
        } else if next >= END_OF_CHAIN {
            (seq![c as u32], true)
        } else {
            (seq![], false)
        }
    }
}

/// The chain of a file or directory that starts at cluster `c`: a chain
/// longer than the volume has clusters must loop, and counts as corrupt.
pub open spec fn cluster_chain(image: Seq<u8>, vol: Fat32Volume, c: int) -> (Seq<u32>, bool) {
    cluster_walk(image, vol, c, vol.total_clusters as nat)
}

/// A cursor over a cluster chain: the cluster it yields next, and how many
/// more clusters it may yield before the chain counts as looping.
pub struct ClusterIterator {
    pub next: Option<u32>,
    pub remaining: u32,
}

impl ClusterIterator {
    pub open spec fn wf(self, vol: Fat32Volume) -> bool {
        self.next matches Some(c) ==> vol.is_cluster(c as int)
    }

    /// The clusters still to come, and whether they end at an end marker.
    pub open spec fn rest(self, image: Seq<u8>, vol: Fat32Volume) -> (Seq<u32>, bool) {
        match self.next {
            None => (seq![], true),
            Some(c) => cluster_walk(image, vol, c as int, self.remaining as nat),
        }
    }
}

/// The state a traversal keeps valid: the table caches the disk truthfully
/// and the disk is described truthfully.
pub open spec fn table_ok<B: Bios>(table: FatTable, bios: B) -> bool {
    &&& table.wf(bios.disk_image(table.volume.disk.bios_number))
    &&& disk_matches(table.volume.disk, bios)
}

/// A step of a traversal keeps the table's volume and the BIOS's disks, and
/// only adds transfers.
pub open spec fn step_keeps<B: Bios>(t0: FatTable, b0: B, t1: FatTable, b1: B) -> bool {
    &&& t1.volume == t0.volume
    &&& same_disks(b1, b0)
    &&& log_extends(b0, b1)
    &&& table_ok(t1, b1)
}

pub fn iterate_cluster_chain(table: &FatTable, cluster: u32) -> (it: ClusterIterator)
    requires
        table.volume.is_cluster(cluster as int),
    ensures
        it.wf(table.volume),
        forall|image: Seq<u8>| #[trigger] it.rest(image, table.volume) == cluster_chain(
            image,
            table.volume,
            cluster as int,
        ),
{
    ClusterIterator { next: Some(cluster), remaining: table.volume.total_clusters }
}

impl ClusterIterator {
    /// Yields the next cluster of the chain, classifying its FAT entry on the
    /// way: a corrupt entry, or a chain longer than the volume, is an error.
    pub fn next<B: Bios>(&mut self, table: &mut FatTable, bios: &mut B) -> (r: Result<
        Option<u32>,
        ErrorStr,
    >)
        requires
            table_ok(*old(table), *old(bios)),
            old(self).wf(old(table).volume),
        ensures
            step_keeps(*old(table), *old(bios), *final(table), *final(bios)),
            old(table).volume.disk.io_method == IoMethod::Lba && old(table).volume.fat_holds_all() ==> reads_below(
                old(table).volume.start_data_sector as int,
                new_transfers(*old(bios), *final(bios)),
            ),
            final(self).wf(final(table).volume),
            old(self).next is None ==> r == Ok::<Option<u32>, ErrorStr>(None) && final(bios).transfers()
                == old(bios).transfers(),
            (old(self).next matches Some(c) && old(table).cache_lba == Some(fat_window(c as int) as u32))
                ==> final(bios).transfers() == old(bios).transfers() && !(r matches Err(e) && e.msg
                != FAT_CHAIN_ERROR),
            ({
                let image = old(bios).disk_image(old(table).volume.disk.bios_number);
                let vol = old(table).volume;
                match r {
                    Ok(Some(c)) => {
                        &&& old(self).next == Some(c)
                        &&& old(self).rest(image, vol).0 == seq![c] + final(self).rest(image, vol).0
                        &&& old(self).rest(image, vol).1 == final(self).rest(image, vol).1
                    },
                    Ok(None) => {
                        &&& old(self).rest(image, vol) == (Seq::<u32>::empty(), true)
                        &&& final(self).rest(image, vol) == (Seq::<u32>::empty(), true)
                    },
                    Err(e) => (e.msg == FAT_CHAIN_ERROR && old(self).rest(image, vol) == (
                        Seq::<u32>::empty(),
                        false,
                    )) || disk_failure(e),
                }
            }),
            r matches Err(e) && e.msg == READ_ERROR ==> some_transfer_failed(
                new_transfers(*old(bios), *final(bios)),
            ),
            match r {
                Err(e) => disk_failure(e) ==> volume_read_failure(old(table).volume, e),
                Ok(_) => true,
            },
    {
        proof {
            crate::error::lemma_error_messages_distinct();
        }
        let ghost image = bios.disk_image(table.volume.disk.bios_number);
        match self.next {
            None => {
                proof {
                    assert(bios.transfers().subrange(0, bios.transfers().len() as int) =~= bios.transfers());
                }
                Ok(None)
            },
            Some(cluster) => {
                if self.remaining == 0 || table.volume.start_fat_sector as u64 + (cluster as u64 * 4
                    / 1024 * 2) + 2 > u32::MAX as u64 {
                    proof {
                        assert(bios.transfers().subrange(0, bios.transfers().len() as int) =~= bios.transfers());
                    }
                    return Err(ErrorStr::new(FAT_CHAIN_ERROR));
                }
                let entry = match table.entry(bios, cluster) {
                    Ok(v) => v,
                    Err(e) => {
                        return Err(e);
                    },
                };
                let next = entry & 0x0fff_ffff;
                let total = table.volume.total_clusters;
                if next >= 2 && next - 2 < total {
                    self.next = Some(next);
                } else if next >= END_OF_CHAIN {
                    self.next = None;
                } else {
                    return Err(ErrorStr::new(FAT_CHAIN_ERROR));
                }
                self.remaining = self.remaining - 1;
                Ok(Some(cluster))
            },
        }
    }
}

/// The first sector of cluster `c`.
pub open spec fn cluster_first_sector(vol: Fat32Volume, c: int) -> int {
    vol.start_data_sector + (c - 2) * vol.sec_per_clust
}

/// The sectors of the clusters `cs`, cluster by cluster.
pub open spec fn sectors_of(vol: Fat32Volume, cs: Seq<u32>) -> Seq<u32>
    decreases cs.len(),
{
    if cs.len() == 0 {
        seq![]
    } else {
        sector_run(cluster_first_sector(vol, cs[0] as int), vol.sec_per_clust as int) + sectors_of(
            vol,
            cs.drop_first(),
        )
    }
}

/// The end (exclusive) of the data area.
pub open spec fn data_end(vol: Fat32Volume) -> int {
    vol.start_data_sector + vol.total_clusters * vol.sec_per_clust
}

proof fn lemma_cluster_in_data(vol: Fat32Volume, c: int)
    requires
        vol.wf(),
        vol.is_cluster(c),
    ensures
        vol.start_data_sector <= cluster_first_sector(vol, c),
        cluster_first_sector(vol, c) + vol.sec_per_clust <= data_end(vol),
{
    assert(0 <= (c - 2) * vol.sec_per_clust) by (nonlinear_arith)
        requires
            c >= 2,
    ;
    assert((c - 2) * vol.sec_per_clust + vol.sec_per_clust <= vol.total_clusters * vol.sec_per_clust)
        by (nonlinear_arith)
        requires
            c - 2 + 1 <= vol.total_clusters,
            vol.sec_per_clust >= 0,
    ;
}

/// A cursor over the sectors of a cluster chain: `next_count` more sectors of
/// the current cluster remain, the next of them being `next_ret`.
pub struct SectorIterator {
    pub clusters: ClusterIterator,
    pub next_count: u8,
    pub next_ret: u32,
}

impl SectorIterator {
    pub open spec fn wf(self, vol: Fat32Volume) -> bool {
        &&& self.clusters.wf(vol)
        &&& self.next_count > 0 ==> vol.start_data_sector <= self.next_ret && self.next_ret
            + self.next_count <= data_end(vol)
    }

    /// The sectors still to come, and whether the chain under them is complete.
    pub open spec fn rest(self, image: Seq<u8>, vol: Fat32Volume) -> (Seq<u32>, bool) {
        let cr = self.clusters.rest(image, vol);
        (sector_run(self.next_ret as int, self.next_count as int) + sectors_of(vol, cr.0), cr.1)
    }
}

pub fn iterate_node_sectors(table: &FatTable, cluster: u32) -> (it: SectorIterator)
    requires
        table.volume.is_cluster(cluster as int),
    ensures
        it.wf(table.volume),
        forall|image: Seq<u8>| #[trigger] it.rest(image, table.volume) == ({
            let ch = cluster_chain(image, table.volume, cluster as int);
            (sectors_of(table.volume, ch.0), ch.1)
        }),
{
    let it = SectorIterator {
        clusters: iterate_cluster_chain(table, cluster),
        next_count: 0,
        next_ret: 0,
    };
    proof {
        assert forall|image: Seq<u8>| #[trigger] it.rest(image, table.volume) == ({
            let ch = cluster_chain(image, table.volume, cluster as int);
            (sectors_of(table.volume, ch.0), ch.1)
        }) by {
            assert(sector_run(0, 0) =~= Seq::<u32>::empty());
            assert(it.rest(image, table.volume).0 =~= sectors_of(
                table.volume,
                cluster_chain(image, table.volume, cluster as int).0,
            ));
        }
    }
    it
}

impl SectorIterator {
    /// Yields the next sector: `sec_per_clust` consecutive sectors for each
    /// cluster of the chain.
    pub fn next<B: Bios>(&mut self, table: &mut FatTable, bios: &mut B) -> (r: Result<
        Option<u32>,
        ErrorStr,
    >)
        requires
            table_ok(*old(table), *old(bios)),
            old(self).wf(old(table).volume),
        ensures
            step_keeps(*old(table), *old(bios), *final(table), *final(bios)),
            old(table).volume.disk.io_method == IoMethod::Lba && old(table).volume.fat_holds_all() ==> reads_below(
                old(table).volume.start_data_sector as int,
                new_transfers(*old(bios), *final(bios)),
            ),
            final(self).wf(final(table).volume),
            old(self).next_count > 0 ==> r == Ok::<Option<u32>, ErrorStr>(Some(old(self).next_ret))
                && final(bios).transfers() == old(bios).transfers(),
            old(self).next_count == 0 && old(self).clusters.next is None ==> r == Ok::<
                Option<u32>,
                ErrorStr,
            >(None) && final(bios).transfers() == old(bios).transfers(),
            ({
                let image = old(bios).disk_image(old(table).volume.disk.bios_number);
                let vol = old(table).volume;
                match r {
                    Ok(Some(s)) => {
                        &&& old(self).rest(image, vol).0 == seq![s] + final(self).rest(image, vol).0
                        &&& old(self).rest(image, vol).1 == final(self).rest(image, vol).1
                        &&& vol.start_data_sector <= s < data_end(vol)
                    },
                    Ok(None) => {
                        &&& old(self).rest(image, vol) == (Seq::<u32>::empty(), true)
                        &&& final(self).rest(image, vol) == (Seq::<u32>::empty(), true)
                    },
                    Err(e) => (e.msg == FAT_CHAIN_ERROR && old(self).rest(image, vol) == (
                        Seq::<u32>::empty(),
                        false,
                    )) || disk_failure(e),
                }
            }),
            r matches Err(e) && e.msg == READ_ERROR ==> some_transfer_failed(
                new_transfers(*old(bios), *final(bios)),
            ),
            match r {
                Err(e) => disk_failure(e) ==> volume_read_failure(old(table).volume, e),
                Ok(_) => true,
            },
    {
        proof {
            crate::error::lemma_error_messages_distinct();
        }
        let ghost image = bios.disk_image(table.volume.disk.bios_number);
        let ghost vol = table.volume;
        let ghost old_self = *self;
        let ghost b0 = *bios;
        let ghost t0 = *table;
        if self.next_count == 0 {
            match self.clusters.next(table, bios) {
                Err(e) => {
                    proof {
                        assert(sector_run(self.next_ret as int, 0) =~= Seq::<u32>::empty());
                        if e.msg == FAT_CHAIN_ERROR && old_self.clusters.rest(image, vol) == (
                            Seq::<u32>::empty(),
                            false,
                        ) {
                            assert(old_self.rest(image, vol).0 =~= Seq::<u32>::empty());
                        }
                    }
                    return Err(e);
                },
                Ok(None) => {
                    proof {
                        assert(old_self.rest(image, vol).0 =~= Seq::<u32>::empty());
                        assert(self.rest(image, vol).0 =~= Seq::<u32>::empty());
                    }
                    return Ok(None);
                },
                Ok(Some(c)) => {
                    proof {
                        lemma_cluster_in_data(vol, c as int);
                        let cr0 = old_self.clusters.rest(image, vol).0;
                        assert(cr0.drop_first() =~= self.clusters.rest(image, vol).0);
                        assert(sectors_of(vol, cr0) == sector_run(
                            cluster_first_sector(vol, c as int),
                            vol.sec_per_clust as int,
                        ) + sectors_of(vol, cr0.drop_first()));
                        assert(sector_run(old_self.next_ret as int, 0) =~= Seq::<u32>::empty());
                        assert(old_self.rest(image, vol).0 =~= sectors_of(vol, cr0));
                    }
                    self.next_ret = table.volume.start_data_sector + (c - 2) * (
                    table.volume.sec_per_clust as u32);
                    self.next_count = table.volume.sec_per_clust;
                    proof {
                        assert(self.rest(image, vol).0 =~= old_self.rest(image, vol).0);
                    }
                },
            }
        } else {
            proof {
                assert(bios.transfers().subrange(0, bios.transfers().len() as int) =~= bios.transfers());
            }
        }
        let ghost mid = *self;
        let ret = self.next_ret;
        self.next_ret = self.next_ret + 1;
        self.next_count = self.next_count - 1;
        proof {
            assert(mid.rest(image, vol).0 =~= seq![ret] + self.rest(image, vol).0);
        }
        Ok(Some(ret))
    }
}

/// A run of contiguous sectors.
#[derive(Clone, Copy, Debug, PartialEq, Eq, Structural)]
pub struct Fragment {
    pub start_sector: u32,
    pub sector_count: u32,
}

/// A cursor that merges the sectors of a chain into runs of contiguous
/// sectors, each at most `max_sectors` long (at least one sector). `queued`
/// holds a sector already pulled that did not continue the previous run.
pub struct FragmentIterator {
    pub sectors: SectorIterator,
    pub max_sectors: u32,
    pub queued: Option<u32>,
}

impl FragmentIterator {
    pub open spec fn wf(self, vol: Fat32Volume) -> bool {
        &&& self.sectors.wf(vol)
        &&& self.queued matches Some(s) ==> vol.start_data_sector <= s < data_end(vol)
    }

    /// The sectors still to come, and whether the chain under them is complete.
    pub open spec fn rest(self, image: Seq<u8>, vol: Fat32Volume) -> (Seq<u32>, bool) {
        let sr = self.sectors.rest(image, vol);
        match self.queued {
            Some(s) => (seq![s] + sr.0, sr.1),
            None => sr,
        }
    }
}

pub fn iterate_fragments(table: &FatTable, cluster: u32, max_sectors: u32) -> (it:
    FragmentIterator)
    requires
        table.volume.is_cluster(cluster as int),
    ensures
        it.wf(table.volume),
        it.max_sectors == max_sectors,
        it.queued is None,
        forall|image: Seq<u8>| #[trigger] it.rest(image, table.volume) == ({
            let ch = cluster_chain(image, table.volume, cluster as int);
            (sectors_of(table.volume, ch.0), ch.1)
        }),
{
    FragmentIterator {
        sectors: iterate_node_sectors(table, cluster),
        max_sectors,
        queued: None,
    }
}

/// What a step of a fragment cursor yields, over the sectors `before` still
/// to come before it and `after` still to come after it: a run that is a
/// prefix of `before`, as long as allowed, or ended by the chain's end or by
/// a sector that does not continue it.
pub open spec fn fragment_step(
    before: (Seq<u32>, bool),
    after: (Seq<u32>, bool),
    max_sectors: u32,
    r: Result<Option<Fragment>, ErrorStr>,
) -> bool {
    match r {
        Ok(Some(f)) => {
            &&& f.sector_count >= 1
            &&& (f.sector_count <= max_sectors || f.sector_count == 1)
            &&& before.0 == sector_run(f.start_sector as int, f.sector_count as int) + after.0
            &&& before.1 == after.1
            &&& {
                ||| f.sector_count >= max_sectors
                ||| after == (Seq::<u32>::empty(), true)
                ||| (after.0.len() > 0 && after.0[0] != f.start_sector + f.sector_count)
            }
        },
        Ok(None) => before == (Seq::<u32>::empty(), true) && after == before,
        Err(e) => (e.msg == FAT_CHAIN_ERROR && !before.1) || disk_failure(e),
    }
}

impl FragmentIterator {
    /// Yields the next run of contiguous sectors.
    pub fn next<B: Bios>(&mut self, table: &mut FatTable, bios: &mut B) -> (r: Result<
        Option<Fragment>,
        ErrorStr,
    >)
        requires
            table_ok(*old(table), *old(bios)),
            old(self).wf(old(table).volume),
        ensures
            step_keeps(*old(table), *old(bios), *final(table), *final(bios)),
            old(table).volume.disk.io_method == IoMethod::Lba && old(table).volume.fat_holds_all() ==> reads_below(
                old(table).volume.start_data_sector as int,
                new_transfers(*old(bios), *final(bios)),
            ),
            final(self).wf(final(table).volume),
            old(self).max_sectors <= 1 ==> (old(self).queued matches Some(q) ==> r == Ok::<
                Option<Fragment>,
                ErrorStr,
            >(Some(Fragment { start_sector: q, sector_count: 1 })) && final(bios).transfers() == old(
                bios,
            ).transfers()),
            old(self).queued is None && old(self).sectors.next_count == 0
                && old(self).sectors.clusters.next is None ==> r == Ok::<Option<Fragment>, ErrorStr>(
                None,
            ) && final(bios).transfers() == old(bios).transfers(),
            final(self).max_sectors == old(self).max_sectors,
            fragment_step(
                old(self).rest(old(bios).disk_image(old(table).volume.disk.bios_number), old(table).volume),
                final(self).rest(old(bios).disk_image(old(table).volume.disk.bios_number), old(table).volume),
                old(self).max_sectors,
                r,
            ),
            r matches Ok(Some(f)) ==> old(table).volume.start_data_sector <= f.start_sector && f.start_sector
                + f.sector_count <= data_end(old(table).volume),
            r matches Err(e) && e.msg == READ_ERROR ==> some_transfer_failed(
                new_transfers(*old(bios), *final(bios)),
            ),
            match r {
                Err(e) => disk_failure(e) ==> volume_read_failure(old(table).volume, e),
                Ok(_) => true,
            },
    {
        proof {
            crate::error::lemma_error_messages_distinct();
        }
        let ghost image = bios.disk_image(table.volume.disk.bios_number);
        let ghost vol = table.volume;
        let ghost old_rest = self.rest(image, vol);
        let ghost b0 = *bios;
        let ghost t0 = *table;
        let start_sector: u32 = match self.queued {
            Some(s) => {
                self.queued = None;
                proof {
                    assert(bios.transfers().subrange(0, bios.transfers().len() as int) =~= bios.transfers());
                }
                s
            },
            None => match self.sectors.next(table, bios) {
                Ok(Some(s)) => s,
                Ok(None) => {
                    return Ok(None);
                },
                Err(e) => {
                    return Err(e);
                },
            },
        };
        let mut count: u32 = 1;
        let ghost b_loop = *bios;
        proof {
            assert(old_rest.0 =~= sector_run(start_sector as int, 1) + self.rest(image, vol).0);
        }
        while count < self.max_sectors
            invariant_except_break
                self.queued is None,
            invariant
                b0 == *old(bios),
                t0 == *old(table),
                old_rest == old(self).rest(image, vol),
                table_ok(*table, *bios),
                table.volume == vol,
                same_disks(*bios, b0),
                log_extends(b0, *bios),
                image == b0.disk_image(vol.disk.bios_number),
                vol == t0.volume,
                self.wf(vol),
                self.max_sectors == old(self).max_sectors,
                1 <= count,
                count <= self.max_sectors || count == 1,
                vol.start_data_sector <= start_sector,
                start_sector + count <= data_end(vol),
                old_rest.0 == sector_run(start_sector as int, count as int) + self.rest(image, vol).0,
                old_rest.1 == self.rest(image, vol).1,
                vol.disk.io_method == IoMethod::Lba && vol.fat_holds_all() ==> reads_below(
                    vol.start_data_sector as int,
                    new_transfers(b0, *bios),
                ),
                self.max_sectors <= 1 ==> count == 1 && bios.transfers() == b_loop.transfers(),
            ensures
                table_ok(*table, *bios),
                table.volume == vol,
                same_disks(*bios, b0),
                log_extends(b0, *bios),
                self.wf(vol),
                self.max_sectors == old(self).max_sectors,
                1 <= count,
                count <= self.max_sectors || count == 1,
                vol.start_data_sector <= start_sector,
                start_sector + count <= data_end(vol),
                old_rest.0 == sector_run(start_sector as int, count as int) + self.rest(image, vol).0,
                old_rest.1 == self.rest(image, vol).1,
                vol.disk.io_method == IoMethod::Lba && vol.fat_holds_all() ==> reads_below(
                    vol.start_data_sector as int,
                    new_transfers(b0, *bios),
                ),
                self.max_sectors <= 1 ==> count == 1 && bios.transfers() == b_loop.transfers(),
                count >= self.max_sectors || self.rest(image, vol) == (Seq::<u32>::empty(), true)
                    || (self.rest(image, vol).0.len() > 0 && self.rest(image, vol).0[0]
                    != start_sector + count),
            decreases self.max_sectors - count,
        {
            let ghost b1 = *bios;
            let ghost before = *self;
            match self.sectors.next(table, bios) {
                Ok(None) => {
                    proof {
                        lemma_new_transfers_concat(b0, b1, *bios);
                        lemma_failed_concat(new_transfers(b0, b1), new_transfers(b1, *bios));
                        if vol.disk.io_method == IoMethod::Lba && vol.fat_holds_all() {
                            lemma_reads_below_concat(
                                vol.start_data_sector as int,
                                new_transfers(b0, b1),
                                new_transfers(b1, *bios),
                            );
                        }
                    }
                    break;
                },
                Ok(Some(s)) => {
                    proof {
                        lemma_new_transfers_concat(b0, b1, *bios);
                        lemma_failed_concat(new_transfers(b0, b1), new_transfers(b1, *bios));
                        if vol.disk.io_method == IoMethod::Lba && vol.fat_holds_all() {
                            lemma_reads_below_concat(
                                vol.start_data_sector as int,
                                new_transfers(b0, b1),
                                new_transfers(b1, *bios),
                            );
                        }
                    }
                    if s as u64 == start_sector as u64 + count as u64 {
                        proof {
                            assert(old_rest.0 =~= sector_run(start_sector as int, count + 1)
                                + self.rest(image, vol).0);
                        }
                        count = count + 1;
                    } else {
                        self.queued = Some(s);
                        proof {
                            assert(self.rest(image, vol).0 =~= seq![s] + self.sectors.rest(image, vol).0);
                        }
                        break;
                    }
                },
                Err(e) => {
                    proof {
                        lemma_new_transfers_concat(b0, b1, *bios);
                        lemma_failed_concat(new_transfers(b0, b1), new_transfers(b1, *bios));
                        if vol.disk.io_method == IoMethod::Lba && vol.fat_holds_all() {
                            lemma_reads_below_concat(
                                vol.start_data_sector as int,
                                new_transfers(b0, b1),
                                new_transfers(b1, *bios),
                            );
                        }
                    }
                    return Err(e);
                },
            }
        }
        Ok(Some(Fragment { start_sector, sector_count: count }))
    }
}

/// How far, counted from `i`, the sectors of `secs` continue its first sector
/// contiguously, stopping at `max` sectors.
pub open spec fn run_len(secs: Seq<u32>, i: int, max: int) -> int
    decreases secs.len() - i,
{
    if 1 <= i && i < max && i < secs.len() && secs[i] == secs[0] + i {
        run_len(secs, i + 1, max)
    } else {
        i
    }
}

/// `secs` merged greedily into runs of contiguous sectors, as (first sector,
/// sector count), each at most `max` sectors long (and at least one).
pub open spec fn runs(secs: Seq<u32>, max: int) -> Seq<(int, int)>
    decreases secs.len(),
{
    if secs.len() == 0 {
        seq![]
    } else {
        let l = run_len(secs, 1, max);
        if 1 <= l <= secs.len() {
            seq![(secs[0] as int, l)] + runs(secs.subrange(l, secs.len() as int), max)
        } else {
            seq![]
        }
    }
}

proof fn lemma_run_len(before: Seq<u32>, after: Seq<u32>, s: int, c: int, max: int, i: int)
    requires
        before == sector_run(s, c) + after,
        0 <= s,
        s + c <= u32::MAX + 1,
        1 <= i <= c,
        c <= max || c == 1,
        c >= max || after.len() == 0 || after[0] != s + c,
    ensures
        run_len(before, i, max) == c,
    decreases c - i,
{
    assert(before[0] == s as u32);
    if i < c {
        assert(before[i] == (s + i) as u32);
        lemma_run_len(before, after, s, c, max, i + 1);
    } else if c < max && after.len() > 0 {
        assert(before[c] == after[0]);
    }
}

/// A maximal run at the front of a sector list is its first greedy run.
pub proof fn lemma_first_run(before: Seq<u32>, after: Seq<u32>, s: int, c: int, max: int)
    requires
        before == sector_run(s, c) + after,
        0 <= s,
        s + c <= u32::MAX + 1,
        1 <= c,
        c <= max || c == 1,
        c >= max || after.len() == 0 || after[0] != s + c,
    ensures
        runs(before, max) == seq![(s, c)] + runs(after, max),
{
    lemma_run_len(before, after, s, c, max, 1);
    assert(before.subrange(c, before.len() as int) =~= after);
    assert(before[0] == s as u32);
}

} // verus!
