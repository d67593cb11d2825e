use pcboot::boot::{check_stage2, load_stage2, pcboot_main, STAGE2_NAME};
use pcboot::console::{print_byte_str, print_str, print_u32, simple_panic, SimpleWriter};
use pcboot::crc32c::{compute, table};
use pcboot::error::{ErrorStr, CHECKSUM_ERROR, FILE_NOT_FOUND_ERROR, GEOMETRY_ERROR};
use pcboot::memdisk::{MemDisk, ScreenLog};
use pcboot::num_to_str::u32 as u32_to_str;

const VOLUME_LBA: usize = 2;
const RESERVED: usize = 4;
const FAT_SECTORS: usize = 2;
const CLUSTERS: usize = 60;

fn cluster_offset(c: usize) -> usize {
    (VOLUME_LBA + RESERVED + FAT_SECTORS + c - 2) * 512
}

fn set_fat(image: &mut [u8], cluster: usize, value: u32) {
    let at = (VOLUME_LBA + RESERVED) * 512 + cluster * 4;
    image[at..at + 4].copy_from_slice(&value.to_le_bytes());
}

/// A FAT32 image whose root directory holds `STAGE2  BIN`: `content`
/// followed by its little-endian CRC32C, in clusters 5 and 6.
fn boot_image(content: &[u8]) -> Vec<u8> {
    let total = RESERVED + FAT_SECTORS + CLUSTERS;
    let mut image = vec![0u8; (VOLUME_LBA + total) * 512];
    let b = VOLUME_LBA * 512;
    image[b + 11..b + 13].copy_from_slice(&512u16.to_le_bytes());
    image[b + 13] = 1;
    image[b + 14..b + 16].copy_from_slice(&(RESERVED as u16).to_le_bytes());
    image[b + 16] = 1;
    image[b + 32..b + 36].copy_from_slice(&(total as u32).to_le_bytes());
    image[b + 36..b + 40].copy_from_slice(&(FAT_SECTORS as u32).to_le_bytes());
    image[b + 44..b + 48].copy_from_slice(&2u32.to_le_bytes());
    image[b + 510] = 0x55;
    image[b + 511] = 0xaa;
    set_fat(&mut image, 0, 0x0fff_fff8);
    set_fat(&mut image, 1, 0x0fff_ffff);
    set_fat(&mut image, 2, 0x0fff_ffff);
    set_fat(&mut image, 5, 6);
    set_fat(&mut image, 6, 0x0fff_fff8);
    let size = content.len() as u32 + 4;
    let d = cluster_offset(2) + 3 * 32;
    image[d..d + 11].copy_from_slice(b"STAGE2  BIN");
    image[d + 11] = 0x20;
    image[d + 26..d + 28].copy_from_slice(&5u16.to_le_bytes());
    image[d + 28..d + 32].copy_from_slice(&size.to_le_bytes());
    let crc = compute(&table(), content);
    let f = cluster_offset(5);
    image[f..f + content.len()].copy_from_slice(content);
    image[f + content.len()..f + content.len() + 4].copy_from_slice(&crc.to_le_bytes());
    image
}

fn content(n: usize) -> Vec<u8> {
    (0..n).map(|i| (i * 31 % 256) as u8).collect()
}

#[test]
fn crc32c_check_value() {
    assert_eq!(compute(&table(), b"123456789"), 0xE306_9283);
    assert_eq!(compute(&table(), b""), 0);
    let t = table();
    assert_eq!(t.data.len(), 256);
    assert_eq!(t.data[0], 0);
    assert_eq!(t.data[1], 0xF26B_8303);
    assert_eq!(t.data[128], 0x82F6_3B78);
}

#[test]
fn stage2_loads_and_checks() {
    let data = content(700);
    let mut bios = MemDisk::new(boot_image(&data), 0x8000);
    let mut stage2 = vec![0u8; 4096];
    let size = load_stage2(&mut bios, 0x80, VOLUME_LBA as u32, &mut stage2).unwrap();
    assert_eq!(size, 704);
    assert_eq!(&stage2[..700], &data[..]);
    let crc = check_stage2(&stage2, size).unwrap();
    assert_eq!(crc, compute(&table(), &data));
}

#[test]
fn flipped_byte_fails_checksum() {
    let data = content(700);
    let mut image = boot_image(&data);
    image[cluster_offset(5) + 123] ^= 0x40;
    let mut bios = MemDisk::new(image, 0x8000);
    let mut stage2 = vec![0u8; 4096];
    let size = load_stage2(&mut bios, 0x80, VOLUME_LBA as u32, &mut stage2).unwrap();
    assert_eq!(size, 704);
    assert_eq!(check_stage2(&stage2, size).unwrap_err().msg, CHECKSUM_ERROR);
    assert_eq!(check_stage2(&stage2, 3).unwrap_err().msg, CHECKSUM_ERROR);
}

#[test]
fn boot_sequence_reports_progress() {
    let data = content(700);
    let mut bios = MemDisk::new(boot_image(&data), 0x8000);
    let mut screen = ScreenLog::new();
    let mut stage2 = vec![0u8; 4096];
    let size = pcboot_main(&mut bios, &mut screen, 0x80, VOLUME_LBA as u32, &mut stage2).unwrap();
    assert_eq!(size, 704);
    assert!(!screen.stopped);
    let crc = compute(&table(), &data);
    let expected = format!("pcboot loading...\r\nread 704 bytes (crc32c:{})\r\n", crc);
    assert_eq!(String::from_utf8(screen.text).unwrap(), expected);
}

#[test]
fn boot_sequence_halts_on_bad_checksum() {
    let data = content(700);
    let mut image = boot_image(&data);
    image[cluster_offset(5)] ^= 1;
    let mut bios = MemDisk::new(image, 0x8000);
    let mut screen = ScreenLog::new();
    let mut stage2 = vec![0u8; 4096];
    let e = pcboot_main(&mut bios, &mut screen, 0x80, VOLUME_LBA as u32, &mut stage2).unwrap_err();
    assert_eq!(e.msg, CHECKSUM_ERROR);
    assert!(screen.stopped);
    let text = String::from_utf8(screen.text).unwrap();
    assert!(text.ends_with("pcboot error: bad checksum on stage2.bin!"));
}

#[test]
fn boot_sequence_halts_when_file_is_missing() {
    let data = content(10);
    let mut image = boot_image(&data);
    let d = cluster_offset(2) + 3 * 32;
    image[d] = b'X';
    let mut bios = MemDisk::new(image, 0x8000);
    let mut screen = ScreenLog::new();
    let mut stage2 = vec![0u8; 4096];
    let e = pcboot_main(&mut bios, &mut screen, 0x80, VOLUME_LBA as u32, &mut stage2).unwrap_err();
    assert_eq!(e.msg, FILE_NOT_FOUND_ERROR);
    assert!(screen.stopped);
    let mut bios = MemDisk::new(boot_image(&data), 0x8000);
    bios.extensions = false;
    let mut screen = ScreenLog::new();
    let e = pcboot_main(&mut bios, &mut screen, 0x80, VOLUME_LBA as u32, &mut stage2).unwrap_err();
    assert_eq!(e.msg, GEOMETRY_ERROR);
    assert_eq!(STAGE2_NAME.len(), 11);
}

#[test]
fn decimal_digits() {
    let mut storage = [0u8; 10];
    let first = u32_to_str(0, &mut storage);
    assert_eq!(&storage[first..], b"0");
    let first = u32_to_str(4_294_967_295, &mut storage);
    assert_eq!(&storage[first..], b"4294967295");
    let first = u32_to_str(1_000_200, &mut storage);
    assert_eq!(&storage[first..], b"1000200");
}

#[test]
fn printing_goes_to_the_console() {
    let mut screen = ScreenLog::new();
    print_str(&mut screen, "ab");
    print_byte_str(&mut screen, b"cd");
    print_u32(&mut screen, 907);
    assert_eq!(screen.text, b"abcd907".to_vec());
    let mut w = SimpleWriter { console: ScreenLog::new() };
    assert_eq!(w.write_str("xyz"), Ok(()));
    assert_eq!(w.console.text, b"xyz".to_vec());
}

#[test]
fn panic_reports_and_halts() {
    let mut screen = ScreenLog::new();
    simple_panic(&mut screen, "fat32.rs", 42, "assert fail: ", "x == y");
    assert!(screen.stopped);
    assert_eq!(
        String::from_utf8(screen.text).unwrap(),
        "internal error: fat32.rs:42: assert fail: x == y"
    );
    let mut screen = ScreenLog::new();
    pcboot::console::panic(&mut screen, "io.rs", 7, "rust_panic_fmt", "");
    assert_eq!(String::from_utf8(screen.text).unwrap(), "internal error: io.rs:7: rust_panic_fmt");
    let e = ErrorStr::new("disk read error");
    assert_eq!(e.msg(), "disk read error");
}

#[test]
fn boot_over_chs_matches_lba() {
    let data = content(1000);
    let geometry = pcboot::disk::Chs { cylinder: 80, head: 2, sector: 9 };
    let mut bios = MemDisk::with_chs(boot_image(&data), geometry, 0x8000);
    let mut screen = ScreenLog::new();
    let mut stage2 = vec![0u8; 2048];
    let size = pcboot_main(&mut bios, &mut screen, 0, VOLUME_LBA as u32, &mut stage2).unwrap();
    assert_eq!(size, 1004);
    assert_eq!(&stage2[..1000], &data[..]);
    assert!(bios.log.iter().all(|t| t.ok && (t.lba % 9) + t.count <= 9));
}
