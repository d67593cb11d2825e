use pcboot::disk::{open_disk, Disk, Transfer};
use pcboot::error::{FAT_CHAIN_ERROR, FILE_NOT_FOUND_ERROR, FILE_SIZE_ERROR, VOLUME_ERROR};
use pcboot::chain::{iterate_cluster_chain, iterate_fragments, iterate_node_sectors, Fragment};
use pcboot::directory::{find_file, FileLocation};
use pcboot::fat32::{fat_table, open_volume, read_file_reusing_buffer_in_find, read_node_data};
use pcboot::memdisk::MemDisk;

/// A FAT32 volume at `volume_lba` with one sector per cluster, one FAT of
/// `fat_sectors` sectors after `reserved` reserved sectors, and `clusters`
/// data clusters.
struct Layout {
    volume_lba: usize,
    reserved: usize,
    fat_sectors: usize,
    clusters: usize,
}

impl Layout {
    fn start_fat(&self) -> usize {
        self.volume_lba + self.reserved
    }
    fn start_data(&self) -> usize {
        self.start_fat() + self.fat_sectors
    }
    fn cluster_sector(&self, c: usize) -> usize {
        self.start_data() + c - 2
    }
    fn image(&self, root: u32) -> Vec<u8> {
        let total = self.reserved + self.fat_sectors + self.clusters;
        let mut image = vec![0u8; (self.volume_lba + total) * 512];
        let b = self.volume_lba * 512;
        image[b] = 0xeb;
        image[b + 11..b + 13].copy_from_slice(&512u16.to_le_bytes());
        image[b + 13] = 1;
        image[b + 14..b + 16].copy_from_slice(&(self.reserved as u16).to_le_bytes());
        image[b + 16] = 1;
        image[b + 32..b + 36].copy_from_slice(&(total as u32).to_le_bytes());
        image[b + 36..b + 40].copy_from_slice(&(self.fat_sectors as u32).to_le_bytes());
        image[b + 44..b + 48].copy_from_slice(&root.to_le_bytes());
        image[b + 48..b + 50].copy_from_slice(&1u16.to_le_bytes());
        image[b + 510] = 0x55;
        image[b + 511] = 0xaa;
        let mut layout_image = image;
        set_fat(&mut layout_image, self, 0, 0x0fff_fff8);
        set_fat(&mut layout_image, self, 1, 0x0fff_ffff);
        layout_image
    }
}

fn set_fat(image: &mut [u8], l: &Layout, cluster: usize, value: u32) {
    let at = l.start_fat() * 512 + cluster * 4;
    image[at..at + 4].copy_from_slice(&value.to_le_bytes());
}

fn chain(image: &mut [u8], l: &Layout, clusters: &[usize]) {
    for w in clusters.windows(2) {
        set_fat(image, l, w[0], w[1] as u32);
    }
    set_fat(image, l, *clusters.last().unwrap(), 0x0fff_ffff);
}

fn dir_entry(image: &mut [u8], l: &Layout, dir_cluster: usize, slot: usize, name: &[u8; 11], attr: u8, cluster: u32, size: u32) {
    let at = l.cluster_sector(dir_cluster) * 512 + slot * 32;
    image[at..at + 11].copy_from_slice(name);
    image[at + 11] = attr;
    image[at + 20..at + 22].copy_from_slice(&((cluster >> 16) as u16).to_le_bytes());
    image[at + 26..at + 28].copy_from_slice(&(cluster as u16).to_le_bytes());
    image[at + 28..at + 32].copy_from_slice(&size.to_le_bytes());
}

fn small_layout() -> Layout {
    Layout { volume_lba: 0, reserved: 4, fat_sectors: 4, clusters: 300 }
}

#[test]
fn open_volume_derives_geometry() {
    let l = Layout { volume_lba: 3, reserved: 4, fat_sectors: 4, clusters: 300 };
    let image = l.image(2);
    let mut bios = MemDisk::new(image, 0x8000);
    let disk = open_disk(&mut bios, 0x80).unwrap();
    let v = open_volume(&mut bios, &disk, 3).unwrap();
    assert_eq!(v.disk, Disk { bios_number: 0x80, io_method: pcboot::disk::IoMethod::Lba });
    assert_eq!(v.start_fat_sector, 7);
    assert_eq!(v.start_data_sector, 11);
    assert_eq!(v.fsinfo_sec, 4);
    assert_eq!(v.fat_count, 1);
    assert_eq!(v.sec_per_fat, 4);
    assert_eq!(v.root_dir_clust, 2);
    assert_eq!(v.sec_per_clust, 1);
    assert_eq!(v.total_clusters, 300);
    assert_eq!(bios.log, vec![Transfer { lba: 3, count: 1, ok: true }]);
}

#[test]
fn open_volume_rejects_bad_boot_sector() {
    let l = small_layout();
    let mut image = l.image(2);
    image[510] = 0;
    let mut bios = MemDisk::new(image, 0x8000);
    let disk = open_disk(&mut bios, 0x80).unwrap();
    assert_eq!(open_volume(&mut bios, &disk, 0).unwrap_err().msg, VOLUME_ERROR);

    let mut image = l.image(2);
    image[11] = 0;
    image[12] = 4;
    let mut bios = MemDisk::new(image, 0x8000);
    assert_eq!(open_volume(&mut bios, &disk, 0).unwrap_err().msg, VOLUME_ERROR);

    let image = l.image(1000);
    let mut bios = MemDisk::new(image, 0x8000);
    assert_eq!(open_volume(&mut bios, &disk, 0).unwrap_err().msg, VOLUME_ERROR);

    let mut image = l.image(2);
    image[13] = 0;
    let mut bios = MemDisk::new(image, 0x8000);
    assert_eq!(open_volume(&mut bios, &disk, 0).unwrap_err().msg, VOLUME_ERROR);
}

#[test]
fn fat_cache_reads_each_window_once() {
    let l = small_layout();
    let mut image = l.image(2);
    for c in 2..300usize {
        set_fat(&mut image, &l, c, (c as u32 + 1000) & 0x0fff_ffff);
    }
    let mut bios = MemDisk::new(image.clone(), 0x8000);
    let disk = open_disk(&mut bios, 0x80).unwrap();
    let v = open_volume(&mut bios, &disk, 0).unwrap();
    bios.log.clear();
    let mut table = fat_table(&v);
    assert_eq!(table.entry(&mut bios, 2).unwrap(), 1002);
    assert_eq!(table.entry(&mut bios, 100).unwrap(), 1100);
    assert_eq!(table.entry(&mut bios, 255).unwrap(), 1255);
    assert_eq!(bios.log, vec![Transfer { lba: 4, count: 2, ok: true }]);
    assert_eq!(table.entry(&mut bios, 256).unwrap(), 1256);
    assert_eq!(table.entry(&mut bios, 299).unwrap(), 1299);
    assert_eq!(
        bios.log,
        vec![Transfer { lba: 4, count: 2, ok: true }, Transfer { lba: 6, count: 2, ok: true }]
    );
    for c in [3usize, 77, 256, 298] {
        let at = l.start_fat() * 512 + c * 4;
        let direct = u32::from_le_bytes(image[at..at + 4].try_into().unwrap());
        assert_eq!(table.entry(&mut bios, c as u32).unwrap(), direct);
    }
}

fn coalescing_volume() -> (MemDisk, pcboot::fat32::Fat32Volume) {
    let l = small_layout();
    let mut image = l.image(2);
    set_fat(&mut image, &l, 2, 0x0fff_ffff);
    // clusters 4, 5, 6 lie at sectors 10, 11, 12; clusters 14, 15 at 20, 21
    chain(&mut image, &l, &[4, 5, 6, 14, 15]);
    let mut bios = MemDisk::new(image, 0x8000);
    let disk = open_disk(&mut bios, 0x80).unwrap();
    let v = open_volume(&mut bios, &disk, 0).unwrap();
    (bios, v)
}

fn all_fragments(bios: &mut MemDisk, v: &pcboot::fat32::Fat32Volume, max: u32) -> Vec<Fragment> {
    let mut table = fat_table(v);
    let mut it = iterate_fragments(&table, 4, max);
    let mut out = Vec::new();
    while let Some(f) = it.next(&mut table, bios).unwrap() {
        out.push(f);
    }
    out
}

#[test]
fn fragments_coalesce_contiguous_sectors() {
    let (mut bios, v) = coalescing_volume();
    assert_eq!(
        all_fragments(&mut bios, &v, 0xffff_ffff),
        vec![
            Fragment { start_sector: 10, sector_count: 3 },
            Fragment { start_sector: 20, sector_count: 2 },
        ]
    );
}

#[test]
fn fragments_respect_max_sectors() {
    let (mut bios, v) = coalescing_volume();
    assert_eq!(
        all_fragments(&mut bios, &v, 2),
        vec![
            Fragment { start_sector: 10, sector_count: 2 },
            Fragment { start_sector: 12, sector_count: 1 },
            Fragment { start_sector: 20, sector_count: 2 },
        ]
    );
    assert_eq!(
        all_fragments(&mut bios, &v, 0),
        vec![
            Fragment { start_sector: 10, sector_count: 1 },
            Fragment { start_sector: 11, sector_count: 1 },
            Fragment { start_sector: 12, sector_count: 1 },
            Fragment { start_sector: 20, sector_count: 1 },
            Fragment { start_sector: 21, sector_count: 1 },
        ]
    );
}

#[test]
fn cluster_and_sector_cursors_follow_the_chain() {
    let (mut bios, v) = coalescing_volume();
    let mut table = fat_table(&v);
    let mut clusters = iterate_cluster_chain(&table, 4);
    let mut seen = Vec::new();
    while let Some(c) = clusters.next(&mut table, &mut bios).unwrap() {
        seen.push(c);
    }
    assert_eq!(seen, vec![4, 5, 6, 14, 15]);
    let mut sectors = iterate_node_sectors(&table, 4);
    let mut seen = Vec::new();
    while let Some(s) = sectors.next(&mut table, &mut bios).unwrap() {
        seen.push(s);
    }
    assert_eq!(seen, vec![10, 11, 12, 20, 21]);
}

#[test]
fn sectors_of_multi_sector_clusters_are_consecutive() {
    let l = small_layout();
    let mut image = l.image(2);
    image[13] = 4;
    set_fat(&mut image, &l, 2, 3);
    set_fat(&mut image, &l, 3, 0x0fff_fff8);
    let mut bios = MemDisk::new(image, 0x8000);
    let disk = open_disk(&mut bios, 0x80).unwrap();
    let v = open_volume(&mut bios, &disk, 0).unwrap();
    assert_eq!(v.total_clusters, 75);
    let mut table = fat_table(&v);
    let mut sectors = iterate_node_sectors(&table, 2);
    let mut seen = Vec::new();
    while let Some(s) = sectors.next(&mut table, &mut bios).unwrap() {
        seen.push(s);
    }
    assert_eq!(seen, vec![8, 9, 10, 11, 12, 13, 14, 15]);
}

#[test]
fn corrupt_fat_entry_is_reported() {
    let l = small_layout();
    let mut image = l.image(2);
    set_fat(&mut image, &l, 2, 3);
    set_fat(&mut image, &l, 3, 1);
    let mut bios = MemDisk::new(image, 0x8000);
    let disk = open_disk(&mut bios, 0x80).unwrap();
    let v = open_volume(&mut bios, &disk, 0).unwrap();
    let mut table = fat_table(&v);
    let mut clusters = iterate_cluster_chain(&table, 2);
    assert_eq!(clusters.next(&mut table, &mut bios).unwrap(), Some(2));
    assert_eq!(clusters.next(&mut table, &mut bios).unwrap_err().msg, FAT_CHAIN_ERROR);
}

#[test]
fn looping_chain_is_reported() {
    let l = small_layout();
    let mut image = l.image(2);
    set_fat(&mut image, &l, 2, 3);
    set_fat(&mut image, &l, 3, 2);
    let mut bios = MemDisk::new(image, 0x8000);
    let disk = open_disk(&mut bios, 0x80).unwrap();
    let v = open_volume(&mut bios, &disk, 0).unwrap();
    let mut table = fat_table(&v);
    let mut buf = vec![0u8; 512];
    let e = find_file(&v, "NOPE    TXT", &mut table, &mut bios, &mut buf).unwrap_err();
    assert_eq!(e.msg, FAT_CHAIN_ERROR);
}

fn directory_volume() -> (MemDisk, pcboot::fat32::Fat32Volume, Layout) {
    let l = small_layout();
    let mut image = l.image(2);
    // the root directory spans clusters 2, 3 and 10
    chain(&mut image, &l, &[2, 3, 10]);
    dir_entry(&mut image, &l, 2, 0, b"PCBOOT     ", 0x08, 0, 0);
    dir_entry(&mut image, &l, 2, 1, b"BOOT       ", 0x10, 20, 0);
    dir_entry(&mut image, &l, 3, 5, b"STAGE2  BIN", 0x10, 30, 100);
    dir_entry(&mut image, &l, 10, 15, b"STAGE2  BIN", 0x21, 40, 700);
    chain(&mut image, &l, &[40, 41]);
    for i in 0..700usize {
        image[l.cluster_sector(40) * 512 + i] = (i % 199) as u8;
    }
    let mut bios = MemDisk::new(image, 0x8000);
    let disk = open_disk(&mut bios, 0x80).unwrap();
    let v = open_volume(&mut bios, &disk, 0).unwrap();
    bios.log.clear();
    (bios, v, l)
}

#[test]
fn find_file_skips_directories_and_volume_labels() {
    let (mut bios, v, _) = directory_volume();
    let mut table = fat_table(&v);
    let mut buf = vec![0u8; 4096];
    let loc = find_file(&v, "STAGE2  BIN", &mut table, &mut bios, &mut buf).unwrap();
    assert_eq!(loc, Some(FileLocation { cluster: 40, size: 700 }));
    let loc = find_file(&v, "stage2  bin", &mut table, &mut bios, &mut buf).unwrap();
    assert_eq!(loc, None);
}

#[test]
fn find_file_absent_name_reads_each_fragment_once() {
    let (mut bios, v, l) = directory_volume();
    let mut table = fat_table(&v);
    let mut buf = vec![0u8; 512];
    let loc = find_file(&v, "MISSING BIN", &mut table, &mut bios, &mut buf).unwrap();
    assert_eq!(loc, None);
    let data_reads: Vec<Transfer> = bios
        .log
        .iter()
        .copied()
        .filter(|t| t.lba as usize >= l.start_data())
        .collect();
    assert_eq!(
        data_reads,
        vec![
            Transfer { lba: l.cluster_sector(2) as u32, count: 1, ok: true },
            Transfer { lba: l.cluster_sector(3) as u32, count: 1, ok: true },
            Transfer { lba: l.cluster_sector(10) as u32, count: 1, ok: true },
        ]
    );
    let fat_reads = bios.log.len() - data_reads.len();
    assert_eq!(fat_reads, 1);
}

#[test]
fn find_file_with_larger_scratch_coalesces() {
    let (mut bios, v, l) = directory_volume();
    let mut table = fat_table(&v);
    let mut buf = vec![0u8; 4096];
    assert_eq!(find_file(&v, "MISSING BIN", &mut table, &mut bios, &mut buf).unwrap(), None);
    let data_reads: Vec<Transfer> =
        bios.log.iter().copied().filter(|t| t.lba as usize >= l.start_data()).collect();
    assert_eq!(
        data_reads,
        vec![
            Transfer { lba: l.cluster_sector(2) as u32, count: 2, ok: true },
            Transfer { lba: l.cluster_sector(10) as u32, count: 1, ok: true },
        ]
    );
}

#[test]
fn read_node_data_copies_whole_clusters() {
    let (mut bios, v, l) = directory_volume();
    let mut table = fat_table(&v);
    let mut buf = vec![0xeeu8; 2048];
    read_node_data(&v, FileLocation { cluster: 40, size: 700 }, &mut buf, &mut table, &mut bios)
        .unwrap();
    let start = l.cluster_sector(40) * 512;
    assert_eq!(&buf[..1024], &bios.image[start..start + 1024]);
    assert!(buf[1024..].iter().all(|&b| b == 0xee));
}

#[test]
fn read_node_data_rejects_size_mismatch() {
    let (mut bios, v, _) = directory_volume();
    let mut table = fat_table(&v);
    let mut buf = vec![0u8; 4096];
    let e = read_node_data(&v, FileLocation { cluster: 40, size: 300 }, &mut buf, &mut table, &mut bios)
        .unwrap_err();
    assert_eq!(e.msg, FILE_SIZE_ERROR);
    let e = read_node_data(&v, FileLocation { cluster: 40, size: 1500 }, &mut buf, &mut table, &mut bios)
        .unwrap_err();
    assert_eq!(e.msg, FILE_SIZE_ERROR);
    let mut small = vec![0u8; 512];
    let e = read_node_data(&v, FileLocation { cluster: 40, size: 700 }, &mut small, &mut table, &mut bios)
        .unwrap_err();
    assert_eq!(e.msg, FILE_SIZE_ERROR);
    let e = read_node_data(&v, FileLocation { cluster: 0, size: 0 }, &mut buf, &mut table, &mut bios)
        .unwrap_err();
    assert_eq!(e.msg, FAT_CHAIN_ERROR);
}

#[test]
fn read_file_reusing_buffer_returns_size() {
    let (mut bios, v, l) = directory_volume();
    let mut buf = vec![0u8; 4096];
    let size = read_file_reusing_buffer_in_find(&v, "STAGE2  BIN", &mut buf, &mut bios).unwrap();
    assert_eq!(size, 700);
    let start = l.cluster_sector(40) * 512;
    assert_eq!(&buf[..1024], &bios.image[start..start + 1024]);
    let e = read_file_reusing_buffer_in_find(&v, "OTHER   BIN", &mut buf, &mut bios).unwrap_err();
    assert_eq!(e.msg, FILE_NOT_FOUND_ERROR);
}

#[test]
fn open_volume_accepts_volume_without_fat() {
    let l = small_layout();
    let mut image = l.image(2);
    image[16] = 0;
    let mut bios = MemDisk::new(image, 0x8000);
    let disk = open_disk(&mut bios, 0x80).unwrap();
    let v = open_volume(&mut bios, &disk, 0).unwrap();
    assert_eq!(v.fat_count, 0);
    assert_eq!(v.start_fat_sector, 4);
    assert_eq!(v.start_data_sector, 4);
    assert_eq!(v.total_clusters, 304);
}
