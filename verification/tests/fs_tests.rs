use rz_rust_os::fs::boot_sector::{BootSector, FatError};
use rz_rust_os::fs::directory::Directory;
use rz_rust_os::fs::fat_constants::{BOOT_SIG_LEAD, BOOT_SIG_TRAIL, FAT12_MAX_ROOT_DIR_ENTRIES};
use rz_rust_os::fs::fat_table::FatTable;
use rz_rust_os::fs::fs::{FileSystem, FsError};
use rz_rust_os::fs::mock_device::{MockDevice, MockDeviceFixed};

fn small_device(sectors: usize) -> MockDevice {
    MockDevice::new(vec![0u8; sectors * 512])
}

fn formatted_device() -> (MockDeviceFixed, FileSystem) {
    let mut dev = MockDeviceFixed::new();
    FileSystem::format(&mut dev, 2880).expect("format failed");
    let fs = FileSystem::mount(&dev).expect("mount failed");
    (dev, fs)
}

#[test]
fn trivial_assertion() {
    assert_eq!(1, 1);
}

#[test]
fn parse_1440_boot_sector() {
    let mut buf = [0u8; 512];
    buf[11..13].copy_from_slice(&512u16.to_le_bytes());
    buf[13] = 1;
    buf[14..16].copy_from_slice(&1u16.to_le_bytes());
    buf[16] = 1;
    buf[17..19].copy_from_slice(&FAT12_MAX_ROOT_DIR_ENTRIES.to_le_bytes());
    buf[19..21].copy_from_slice(&2880u16.to_le_bytes());
    buf[22..24].copy_from_slice(&9u16.to_le_bytes());
    buf[510] = BOOT_SIG_LEAD;
    buf[511] = BOOT_SIG_TRAIL;

    let bs = BootSector::parse(&buf).expect("parse failed");
    assert_eq!(bs.bytes_per_sector, 512);
    assert_eq!(bs.sectors_per_cluster, 1);
    assert_eq!(bs.reserved_sectors, 1);
    assert_eq!(bs.num_fats, 1);
    assert_eq!(bs.max_root_dir_entries, FAT12_MAX_ROOT_DIR_ENTRIES);
    assert_eq!(bs.total_sectors, 2880);
    assert_eq!(bs.sectors_per_fat, 9);
    assert_eq!(bs.fat_start_lba, 1);
    assert_eq!(bs.root_dir_start_lba, 1 + 9);
    let root_dir_sectors = ((FAT12_MAX_ROOT_DIR_ENTRIES as u32 * 32) + (512 - 1)) / 512;
    assert_eq!(bs.data_start_lba, bs.root_dir_start_lba + root_dir_sectors);
}

#[test]
fn serialize_and_parse_roundtrip() {
    let bs = BootSector {
        bytes_per_sector: 512,
        sectors_per_cluster: 1,
        reserved_sectors: 1,
        num_fats: 1,
        max_root_dir_entries: FAT12_MAX_ROOT_DIR_ENTRIES,
        total_sectors: 2880,
        sectors_per_fat: 9,
        fat_start_lba: 1,
        root_dir_start_lba: 10,
        data_start_lba: 20,
    };
    let mut buf = vec![0u8; 512];
    bs.serialize(&mut buf).expect("serialize failed");
    let bs2 = BootSector::parse(&buf).expect("parse failed");
    assert_eq!(bs2.bytes_per_sector, 512);
    assert_eq!(bs2.total_sectors, 2880);
    assert_eq!(bs2.sectors_per_cluster, 1);
    assert_eq!(bs2.max_root_dir_entries, FAT12_MAX_ROOT_DIR_ENTRIES);
    assert_eq!(bs2.sectors_per_fat, 9);
}

#[test]
fn parse_rejects_short_and_unsigned() {
    assert_eq!(BootSector::parse(&[0u8; 100]), Err(FatError::InvalidLength));
    assert_eq!(BootSector::parse(&[0u8; 512]), Err(FatError::InvalidSignature));
}

#[test]
fn fat12_read_write_simple() {
    let mut dev = small_device(9);
    let mut fat = FatTable::new(0, 9);
    fat.write_entry(&mut dev, 2, 3);
    fat.write_entry(&mut dev, 3, 0xFFF);
    let v2 = fat.read_entry(&mut dev, 2);
    let v3 = fat.read_entry(&mut dev, 3);
    assert_eq!(v2, 3);
    assert_eq!(v3, 0xFFF);
    let mut out = vec![0u16; 16];
    let len = fat.get_chain_nonalloc(&mut dev, 2, &mut out);
    assert_eq!(len, 2);
    assert_eq!(out[0], 2);
    assert_eq!(out[1], 3);
}

#[test]
fn fat12_write_preserves_neighbors() {
    let mut dev = small_device(9);
    let mut fat = FatTable::new(0, 9);
    for n in 2..10u16 {
        fat.write_entry(&mut dev, n, 0x100 + n);
    }
    fat.write_entry(&mut dev, 5, 0xABC);
    assert_eq!(fat.read_entry(&mut dev, 4), 0x104);
    assert_eq!(fat.read_entry(&mut dev, 5), 0xABC);
    assert_eq!(fat.read_entry(&mut dev, 6), 0x106);
    // The value is masked to twelve bits.
    fat.write_entry(&mut dev, 7, 0xFABC);
    assert_eq!(fat.read_entry(&mut dev, 7), 0xABC);
    assert_eq!(fat.read_entry(&mut dev, 8), 0x108);
}

#[test]
fn fat12_alloc_first_fit() {
    let mut dev = small_device(9);
    let mut fat = FatTable::new(0, 9);
    assert_eq!(fat.alloc_cluster(&mut dev), Some(2));
    assert_eq!(fat.alloc_cluster(&mut dev), Some(3));
    assert_eq!(fat.read_entry(&mut dev, 2), 0xFFF);
    fat.write_entry(&mut dev, 2, 0);
    assert_eq!(fat.alloc_cluster(&mut dev), Some(2));
}

#[test]
fn fat12_free_cluster_chain() {
    let mut dev = small_device(9);
    let mut fat = FatTable::new(0, 9);
    fat.write_entry(&mut dev, 2, 3);
    fat.write_entry(&mut dev, 3, 4);
    fat.write_entry(&mut dev, 4, 0xFFF);
    fat.write_entry(&mut dev, 5, 0xFFF);
    fat.free_cluster(&mut dev, 2);
    assert_eq!(fat.read_entry(&mut dev, 2), 0);
    assert_eq!(fat.read_entry(&mut dev, 3), 0);
    assert_eq!(fat.read_entry(&mut dev, 4), 0);
    assert_eq!(fat.read_entry(&mut dev, 5), 0xFFF);
}

#[test]
fn dir_create_serialize() {
    let mut dev = small_device(2);
    let dir = Directory::new(0, 32);
    dir.create(&mut dev, "FOO     TXT", 2, 12);
    dir.create(&mut dev, "BAR     TXT", 3, 7);
    let list = dir.list(&dev);
    assert_eq!(list.len(), 2);
    assert_eq!(list[0].start_cluster, 2);
    assert_eq!(list[0].file_size, 12);
    assert_eq!(list[1].start_cluster, 3);
    assert_eq!(list[1].file_size, 7);
    let mut out = vec![0u8; 32 * 32];
    dir.serialize(&dev, &mut out);
    assert_eq!(&out[0..11], b"FOO     TXT");
    assert_eq!(&out[32..43], b"BAR     TXT");
}

#[test]
fn dir_find_and_delete() {
    let mut dev = small_device(2);
    let dir = Directory::new(0, 32);
    dir.create(&mut dev, "FOO     TXT", 2, 12);
    let e = dir.find(&dev, "FOO     TXT").expect("find");
    assert_eq!(e.start_cluster, 2);
    assert!(dir.find(&dev, "NOPE").is_none());
    dir.delete(&mut dev, "FOO     TXT");
    assert!(dir.find(&dev, "FOO     TXT").is_none());
    assert_eq!(dir.list(&dev).len(), 0);
}

#[test]
fn e2e_format_write_read_list_delete() {
    let (mut dev, fs) = formatted_device();
    let data = b"hello world";
    fs.write_file(&mut dev, "HELLO   TXT", data).expect("write failed");
    let read = fs.read_file(&mut dev, "HELLO   TXT").expect("read failed");
    assert_eq!(&read[..], &data[..]);
    let list = fs.list_root(&dev);
    assert!(list.len() >= 1);
    let mut found = false;
    for e in list.iter() {
        let mut nm = [0u8; 11];
        nm[0..8].copy_from_slice(&e.name);
        nm[8..11].copy_from_slice(&e.ext);
        if &nm == b"HELLO   TXT" {
            found = true;
            assert_eq!(e.file_size, 11);
            assert_ne!(e.start_cluster, 0);
        }
    }
    assert!(found, "file not found in root listing");
    let start = list[0].start_cluster;
    fs.delete(&mut dev, "HELLO   TXT").expect("delete failed");
    let list2 = fs.list_root(&dev);
    assert_eq!(list2.len(), 0);
    // The freed clusters read back as free.
    let mut fat = FatTable::new(fs.boot_sector.fat_start_lba as u64, fs.boot_sector.sectors_per_fat);
    assert_eq!(fat.read_entry(&mut dev, start), 0);
}

#[test]
fn write_then_read_many_lengths() {
    let (mut dev, fs) = formatted_device();
    let cases: [(&str, usize); 4] =
        [("A.TXT", 0), ("B.TXT", 511), ("C.TXT", 512), ("D.TXT", 1500)];
    for (name, len) in cases.iter() {
        let data: Vec<u8> = (0..*len).map(|i| (i * 7 % 251) as u8).collect();
        fs.write_file(&mut dev, name, &data).expect("write");
        let back = fs.read_file(&mut dev, name).expect("read");
        assert_eq!(back, data, "length {}", len);
    }
}

#[test]
fn write_without_txt_extension_changes_nothing() {
    let (mut dev, fs) = formatted_device();
    let r = fs.write_file(&mut dev, "DATA.BIN", b"abc");
    assert_eq!(r, Err(FsError::InvalidName));
    // No cluster was allocated and no record created.
    let mut fat = FatTable::new(fs.boot_sector.fat_start_lba as u64, fs.boot_sector.sectors_per_fat);
    assert_eq!(fat.read_entry(&mut dev, 2), 0);
    assert_eq!(fs.list_root(&dev).len(), 0);
}

#[test]
fn write_existing_name_fails_without_mutation() {
    let (mut dev, fs) = formatted_device();
    fs.write_file(&mut dev, "HELLO   TXT", b"first").expect("write");
    let r = fs.write_file(&mut dev, "HELLO   TXT", b"second");
    assert_eq!(r, Err(FsError::FileAlreadyExists));
    let back = fs.read_file(&mut dev, "HELLO   TXT").expect("read");
    assert_eq!(&back[..], b"first");
    assert_eq!(fs.list_root(&dev).len(), 1);
}

#[test]
fn delete_then_read_fails_and_frees() {
    let (mut dev, fs) = formatted_device();
    fs.write_file(&mut dev, "GONE.TXT", &[9u8; 1024]).expect("write");
    let e = fs.list_root(&dev)[0];
    fs.delete(&mut dev, "GONE.TXT").expect("delete");
    assert_eq!(fs.read_file(&mut dev, "GONE.TXT"), Err(FsError::FileNotFound));
    let mut fat = FatTable::new(fs.boot_sector.fat_start_lba as u64, fs.boot_sector.sectors_per_fat);
    assert_eq!(fat.read_entry(&mut dev, e.start_cluster), 0);
    assert_eq!(fat.read_entry(&mut dev, e.start_cluster + 1), 0);
}

#[test]
fn delete_missing_fails() {
    let (mut dev, fs) = formatted_device();
    assert_eq!(fs.delete(&mut dev, "NO.TXT"), Err(FsError::FileNotFound));
}

#[test]
fn read_missing_fails() {
    let (mut dev, fs) = formatted_device();
    assert_eq!(fs.read_file(&mut dev, "NO.TXT"), Err(FsError::FileNotFound));
}

#[test]
fn mount_rejects_unsigned_volume() {
    let dev = small_device(4);
    match FileSystem::mount(&dev) {
        Err(e) => assert_eq!(e, FsError::Boot(FatError::InvalidSignature)),
        Ok(_) => panic!("mount unexpectedly succeeded"),
    }
}

#[test]
fn format_then_mount_lists_empty_root() {
    let (dev, fs) = formatted_device();
    assert_eq!(fs.boot_sector.bytes_per_sector, 512);
    assert_eq!(fs.boot_sector.total_sectors, 2880);
    assert_eq!(fs.boot_sector.fat_start_lba, 1);
    assert_eq!(fs.boot_sector.root_dir_start_lba, 10);
    assert_eq!(fs.boot_sector.data_start_lba, 24);
    assert_eq!(fs.list_root(&dev).len(), 0);
}

#[test]
fn write_fills_volume_until_no_space() {
    let mut dev = small_device(64);
    FileSystem::format(&mut dev, 64).expect("format");
    let fs = FileSystem::mount(&dev).expect("mount");
    let small = vec![7u8; 1024];
    fs.write_file(&mut dev, "OK.TXT", &small).expect("write");
    assert_eq!(fs.read_file(&mut dev, "OK.TXT").expect("read"), small);
    // 64 sectors leave 40 data clusters; a 25000-byte file needs 49.
    let big = vec![7u8; 25000];
    assert_eq!(fs.write_file(&mut dev, "BIG.TXT", &big), Err(FsError::NoSpace));
}

#[test]
fn empty_file_roundtrip() {
    let (mut dev, fs) = formatted_device();
    fs.write_file(&mut dev, "EMPTY.TXT", &[]).expect("write");
    let back = fs.read_file(&mut dev, "EMPTY.TXT").expect("read");
    assert!(back.is_empty());
    let list = fs.list_root(&dev);
    assert_eq!(list.len(), 1);
    assert_eq!(list[0].file_size, 0);
    assert_eq!(list[0].start_cluster, 0);
}

#[test]
fn lowercase_txt_names_accepted() {
    let (mut dev, fs) = formatted_device();
    fs.write_file(&mut dev, "note.txt", b"x").expect("write");
    assert_eq!(fs.read_file(&mut dev, "note.txt").expect("read"), b"x");
}
