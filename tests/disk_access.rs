use pcboot::disk::{
    io_method_from, read_disk_sector_at,
    addr_linear_to_segmented, convert_lba_to_chs, open_disk, read_disk_sectors,
    read_disk_sectors_at, Chs, Disk, IoMethod, Transfer,
};
use pcboot::error::{
    ADDRESS_ERROR, CHS_OVERFLOW_ERROR, GEOMETRY_ERROR, GEOMETRY_UNUSABLE_ERROR, READ_ERROR,
};
use pcboot::memdisk::MemDisk;

fn numbered_image(sectors: usize) -> Vec<u8> {
    let mut image = vec![0u8; sectors * 512];
    for s in 0..sectors {
        for i in 0..512 {
            image[s * 512 + i] = ((s * 7 + i) % 251) as u8;
        }
    }
    image
}

fn geometry(cylinders: u16, heads: u16, sectors: u8) -> Chs {
    Chs { cylinder: cylinders, head: heads, sector: sectors }
}

#[test]
fn lba_to_chs_known_values() {
    let g = geometry(1024, 16, 63);
    let c = convert_lba_to_chs(0, &g).unwrap();
    assert_eq!((c.cylinder, c.head, c.sector), (0, 0, 0));
    let c = convert_lba_to_chs(63, &g).unwrap();
    assert_eq!((c.cylinder, c.head, c.sector), (0, 1, 0));
    let c = convert_lba_to_chs(1008, &g).unwrap();
    assert_eq!((c.cylinder, c.head, c.sector), (1, 0, 0));
    let c = convert_lba_to_chs(12345, &g).unwrap();
    assert_eq!((c.cylinder, c.head, c.sector), (12, 3, 60));
}

#[test]
fn lba_to_chs_round_trips() {
    for &(heads, spt) in &[(16u16, 63u8), (255, 63), (2, 18), (1, 1), (7, 13)] {
        let g = geometry(1024, heads, spt);
        for lba in (0u32..200_000).step_by(97) {
            match convert_lba_to_chs(lba, &g) {
                Ok(c) => {
                    let back = (c.cylinder as u32 * heads as u32 + c.head as u32) * spt as u32
                        + c.sector as u32;
                    assert_eq!(back, lba);
                    assert!(c.cylinder <= 1023);
                }
                Err(e) => {
                    assert_eq!(e.msg, CHS_OVERFLOW_ERROR);
                    assert!(lba / spt as u32 / heads as u32 > 1023);
                }
            }
        }
    }
}

#[test]
fn lba_to_chs_rejects_cylinder_past_1023() {
    let g = geometry(1024, 16, 63);
    assert!(convert_lba_to_chs(1024 * 16 * 63 - 1, &g).is_ok());
    let e = convert_lba_to_chs(1024 * 16 * 63, &g).unwrap_err();
    assert_eq!(e.msg, CHS_OVERFLOW_ERROR);
}

#[test]
fn segmented_address_reconstructs_linear() {
    for x in (0u32..=0x80000).step_by(13).chain([0, 15, 16, 0x7ffff, 0x80000]) {
        let s = addr_linear_to_segmented(x);
        let segment = s >> 16;
        let offset = s & 0xffff;
        assert!(offset < 16);
        assert_eq!(segment * 16 + offset, x);
    }
    assert_eq!(addr_linear_to_segmented(0x7c00), 0x07c0_0000);
    assert_eq!(addr_linear_to_segmented(0x12345), 0x1234_0005);
}

#[test]
fn open_disk_prefers_lba() {
    let mut bios = MemDisk::new(numbered_image(4), 0x1000);
    let disk = open_disk(&mut bios, 0x80).unwrap();
    assert_eq!(disk, Disk { bios_number: 0x80, io_method: IoMethod::Lba });
}

#[test]
fn open_disk_falls_back_to_chs() {
    let g = geometry(80, 2, 18);
    let mut bios = MemDisk::with_chs(numbered_image(4), g, 0x1000);
    let disk = open_disk(&mut bios, 0).unwrap();
    assert_eq!(disk, Disk { bios_number: 0, io_method: IoMethod::Chs(g) });
}

#[test]
fn open_disk_without_geometry_fails() {
    let mut bios = MemDisk::new(numbered_image(4), 0x1000);
    bios.extensions = false;
    let e = open_disk(&mut bios, 0x80).unwrap_err();
    assert_eq!(e.msg, GEOMETRY_ERROR);
    let zero = geometry(80, 0, 18);
    bios.geometry = Some(zero);
    let disk = open_disk(&mut bios, 0x80).unwrap();
    assert_eq!(disk.io_method, IoMethod::Chs(zero));
    let mut buf = vec![0u8; 512];
    let e = read_disk_sectors(&mut bios, &disk, 0, &mut buf).unwrap_err();
    assert_eq!(e.msg, GEOMETRY_UNUSABLE_ERROR);
    assert!(bios.log.is_empty());
}

#[test]
fn lba_reads_split_into_groups_of_127() {
    let image = numbered_image(400);
    let mut bios = MemDisk::new(image.clone(), 0x10000);
    let disk = open_disk(&mut bios, 0x80).unwrap();
    let mut buf = vec![0u8; 300 * 512];
    read_disk_sectors(&mut bios, &disk, 50, &mut buf).unwrap();
    assert_eq!(&buf[..], &image[50 * 512..350 * 512]);
    assert_eq!(
        bios.log,
        vec![
            Transfer { lba: 50, count: 127, ok: true },
            Transfer { lba: 177, count: 127, ok: true },
            Transfer { lba: 304, count: 46, ok: true },
        ]
    );
    assert_eq!(
        bios.addresses,
        vec![
            addr_linear_to_segmented(0x10000),
            addr_linear_to_segmented(0x10000 + 127 * 512),
            addr_linear_to_segmented(0x10000 + 254 * 512),
        ]
    );
}

#[test]
fn chs_reads_stop_at_track_ends() {
    let image = numbered_image(200);
    let g = geometry(80, 2, 18);
    let mut bios = MemDisk::with_chs(image.clone(), g, 0x10000);
    let disk = open_disk(&mut bios, 0).unwrap();
    let mut buf = vec![0u8; 40 * 512];
    read_disk_sectors(&mut bios, &disk, 10, &mut buf).unwrap();
    assert_eq!(&buf[..], &image[10 * 512..50 * 512]);
    assert_eq!(
        bios.log,
        vec![
            Transfer { lba: 10, count: 8, ok: true },
            Transfer { lba: 18, count: 18, ok: true },
            Transfer { lba: 36, count: 14, ok: true },
        ]
    );
    assert_eq!(
        bios.addresses,
        vec![
            addr_linear_to_segmented(0x10000),
            addr_linear_to_segmented(0x10000 + 8 * 512),
            addr_linear_to_segmented(0x10000 + 26 * 512),
        ]
    );
}

#[test]
fn chs_read_past_cylinder_1023_fails() {
    let g = geometry(1024, 1, 1);
    let mut bios = MemDisk::with_chs(numbered_image(2), g, 0x10000);
    let disk = open_disk(&mut bios, 0).unwrap();
    let mut buf = vec![0u8; 512];
    let e = read_disk_sectors(&mut bios, &disk, 1024, &mut buf).unwrap_err();
    assert_eq!(e.msg, CHS_OVERFLOW_ERROR);
    assert!(bios.log.is_empty());
}

#[test]
fn buffer_past_real_mode_limit_is_refused() {
    let mut bios = MemDisk::new(numbered_image(8), 0x7fe00);
    let disk = open_disk(&mut bios, 0x80).unwrap();
    let mut buf = vec![0u8; 512];
    read_disk_sectors(&mut bios, &disk, 0, &mut buf).unwrap();
    let mut buf = vec![0u8; 1024];
    let e = read_disk_sectors(&mut bios, &disk, 0, &mut buf).unwrap_err();
    assert_eq!(e.msg, ADDRESS_ERROR);
    assert_eq!(bios.log.len(), 1);
}

#[test]
fn odd_buffer_address_is_refused() {
    let mut bios = MemDisk::new(numbered_image(8), 0x1001);
    let disk = open_disk(&mut bios, 0x80).unwrap();
    let mut buf = vec![0u8; 512];
    let e = read_disk_sectors(&mut bios, &disk, 0, &mut buf).unwrap_err();
    assert_eq!(e.msg, ADDRESS_ERROR);
    let e = read_disk_sectors_at(&mut bios, &disk, 0, &mut buf, 0x2000);
    assert!(e.is_ok());
}

#[test]
fn read_beyond_disk_end_fails() {
    let mut bios = MemDisk::new(numbered_image(8), 0x1000);
    let disk = open_disk(&mut bios, 0x80).unwrap();
    let mut buf = vec![0u8; 4 * 512];
    let e = read_disk_sectors(&mut bios, &disk, 6, &mut buf).unwrap_err();
    assert_eq!(e.msg, READ_ERROR);
    assert_eq!(bios.log, vec![Transfer { lba: 6, count: 4, ok: false }]);
}

#[test]
fn single_sector_read_uses_segment_zero() {
    let image = numbered_image(8);
    let mut bios = MemDisk::new(image.clone(), 0x7c00);
    let disk = open_disk(&mut bios, 0x80).unwrap();
    let mut buf = vec![0u8; 512];
    pcboot::disk::read_disk_sector(&mut bios, &disk, 5, &mut buf).unwrap();
    assert_eq!(&buf[..], &image[5 * 512..6 * 512]);
    assert_eq!(bios.log, vec![Transfer { lba: 5, count: 1, ok: true }]);
    bios.base_address = 0xfe00;
    let e = pcboot::disk::read_disk_sector(&mut bios, &disk, 5, &mut buf).unwrap_err();
    assert_eq!(e.msg, ADDRESS_ERROR);
    let g = geometry(80, 2, 18);
    let mut bios = MemDisk::with_chs(image.clone(), g, 0x7c00);
    let disk = open_disk(&mut bios, 0).unwrap();
    pcboot::disk::read_disk_sector(&mut bios, &disk, 7, &mut buf).unwrap();
    assert_eq!(&buf[..], &image[7 * 512..8 * 512]);
}

#[test]
fn disk_access_packet_bytes() {
    let dap = pcboot::disk::DiskAccessPacket::new(127, 0x1234_0005, 0xa1b2_c3d4);
    assert_eq!(
        dap.to_bytes(),
        vec![16, 0, 127, 0, 0x05, 0x00, 0x34, 0x12, 0xd4, 0xc3, 0xb2, 0xa1, 0, 0, 0, 0]
    );
}

#[test]
fn io_method_follows_the_bios_answers() {
    let g = geometry(80, 2, 18);
    assert_eq!(io_method_from(true, Some(g)), Ok(IoMethod::Lba));
    assert_eq!(io_method_from(true, None), Ok(IoMethod::Lba));
    assert_eq!(io_method_from(false, Some(g)), Ok(IoMethod::Chs(g)));
    assert_eq!(io_method_from(false, None).unwrap_err().msg, GEOMETRY_ERROR);
    let zero = geometry(80, 2, 0);
    assert_eq!(io_method_from(false, Some(zero)), Ok(IoMethod::Chs(zero)));
}

#[test]
fn single_sector_read_checks_segment_zero_address() {
    let image = numbered_image(4);
    let mut bios = MemDisk::new(image.clone(), 0);
    let disk = open_disk(&mut bios, 0x80).unwrap();
    let mut buf = vec![0u8; 512];
    assert_eq!(read_disk_sector_at(&mut bios, &disk, 1, &mut buf, 0xfe00).unwrap_err().msg, ADDRESS_ERROR);
    assert_eq!(read_disk_sector_at(&mut bios, &disk, 1, &mut buf, 0x7c01).unwrap_err().msg, ADDRESS_ERROR);
    assert!(bios.log.is_empty());
    read_disk_sector_at(&mut bios, &disk, 1, &mut buf, 0xfdfe).unwrap();
    assert_eq!(&buf[..], &image[512..1024]);
    let g = geometry(80, 2, 18);
    let mut bios = MemDisk::with_chs(image.clone(), g, 0);
    let disk = open_disk(&mut bios, 0).unwrap();
    read_disk_sector_at(&mut bios, &disk, 2, &mut buf, 0x7c01).unwrap();
    assert_eq!(&buf[..], &image[1024..1536]);
}
