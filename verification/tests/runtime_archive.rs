use system_i2::runtime::backup::{backup_file_names, build_runtime_backup_zip, zip_entry_name, zip_root_name, BackupFile};
use system_i2::runtime::zip::{calculate_crc32, SimpleZipWriter};

fn le32(bytes: &[u8], at: usize) -> u32 {
    u32::from_le_bytes([bytes[at], bytes[at + 1], bytes[at + 2], bytes[at + 3]])
}

fn le16(bytes: &[u8], at: usize) -> u16 {
    u16::from_le_bytes([bytes[at], bytes[at + 1]])
}

#[test]
fn crc32_matches_the_standard_check_value() {
    assert_eq!(calculate_crc32(b"123456789"), 0xCBF4_3926);
    assert_eq!(calculate_crc32(b""), 0);
    assert_eq!(calculate_crc32(b"a"), 0xE8B7_BE43);
}

#[test]
fn archive_records_each_file_with_its_header_data_and_directory() {
    let files = vec![
        BackupFile { zip_path: "bundle/tasks.sqlite3".to_string(), contents: b"db".to_vec() },
        BackupFile { zip_path: "bundle/log.log".to_string(), contents: vec![] },
    ];
    let bytes = build_runtime_backup_zip(&files).expect("expected archive");

    assert_eq!(le32(&bytes, 0), 0x0403_4b50);
    assert_eq!(le16(&bytes, 10), 0);
    assert_eq!(le16(&bytes, 12), 33);
    assert_eq!(le32(&bytes, 14), calculate_crc32(b"db"));
    assert_eq!(le32(&bytes, 18), 2);
    assert_eq!(le16(&bytes, 26) as usize, "bundle/tasks.sqlite3".len());
    assert_eq!(&bytes[30..50], b"bundle/tasks.sqlite3");
    assert_eq!(&bytes[50..52], b"db");
    let second = 52;
    assert_eq!(le32(&bytes, second), 0x0403_4b50);
    let end = bytes.len() - 22;
    assert_eq!(le32(&bytes, end), 0x0605_4b50);
    assert_eq!(le16(&bytes, end + 8), 2);
    assert_eq!(le16(&bytes, end + 10), 2);
    let cd_offset = le32(&bytes, end + 16) as usize;
    assert_eq!(le32(&bytes, cd_offset), 0x0201_4b50);
    assert_eq!(le32(&bytes, cd_offset + 42), 0);
    assert_eq!(le32(&bytes, end + 12) as usize, end - cd_offset);
}

#[test]
fn refuses_names_longer_than_a_zip_entry_allows() {
    let mut writer = SimpleZipWriter::new();
    let long = "x".repeat(70_000);
    let error = writer.start_file(&long, b"").unwrap_err();
    assert!(error.starts_with("runtime backup zip entry name is too long: "));
    assert!(writer.bytes.is_empty());
    let empty = SimpleZipWriter::new().finish().unwrap();
    assert_eq!(empty.len(), 22);
}

#[test]
fn names_backups_and_archive_paths() {
    let (final_name, temp_name) = backup_file_names(1700000000, 42);
    assert_eq!(final_name, "System-I2-runtime-backup-1700000000.zip");
    assert_eq!(temp_name, ".System-I2-runtime-backup-1700000000.42.tmp");
    assert_eq!(zip_entry_name("root\\sub\\file.json"), "root/sub/file.json");
    assert_eq!(zip_root_name(Some("  ".to_string())), "System-I2-runtime");
    assert_eq!(zip_root_name(None), "System-I2-runtime");
    assert_eq!(zip_root_name(Some("Data".to_string())), "Data");
}
