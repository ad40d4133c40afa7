use rpiboot_rs_lib::archive::bootfiles_read;
use rpiboot_rs_lib::error::BootError;

fn header(name: &str, size_field: &[u8]) -> Vec<u8> {
    let mut h = vec![0u8; 512];
    h[..name.len()].copy_from_slice(name.as_bytes());
    h[124..124 + size_field.len()].copy_from_slice(size_field);
    h
}

fn entry(name: &str, payload: &[u8]) -> Vec<u8> {
    let size = format!("{:011o}\0", payload.len());
    let mut e = header(name, size.as_bytes());
    e.extend_from_slice(payload);
    while e.len() % 512 != 0 {
        e.push(0);
    }
    e
}

fn sample_archive() -> Vec<u8> {
    let mut a = entry("bootcode.bin", &[7u8; 600]);
    a.extend(entry("config.txt", b"arm_64bit=1\n"));
    a.extend(entry("empty.dat", b""));
    a.extend(vec![0u8; 1024]);
    a
}

#[test]
fn lookup_returns_payload() {
    let a = sample_archive();
    assert_eq!(bootfiles_read(&a, "config.txt"), Ok(b"arm_64bit=1\n".to_vec()));
    assert_eq!(bootfiles_read(&a, "bootcode.bin"), Ok(vec![7u8; 600]));
    assert_eq!(bootfiles_read(&a, "empty.dat"), Ok(Vec::new()));
}

#[test]
fn lookup_ignores_letter_case() {
    let a = sample_archive();
    assert_eq!(bootfiles_read(&a, "CONFIG.TXT"), Ok(b"arm_64bit=1\n".to_vec()));
    assert_eq!(bootfiles_read(&a, "BootCode.Bin"), Ok(vec![7u8; 600]));
}

#[test]
fn lookup_absent_name_is_not_found() {
    let a = sample_archive();
    assert_eq!(bootfiles_read(&a, "start4.elf"), Err(BootError::NotFound));
    assert_eq!(bootfiles_read(&a, "config"), Err(BootError::NotFound));
}

#[test]
fn lookup_in_empty_archive() {
    assert_eq!(bootfiles_read(&[], "config.txt"), Err(BootError::NotFound));
    assert_eq!(bootfiles_read(&[0u8; 100], "config.txt"), Err(BootError::NotFound));
}

#[test]
fn lookup_overrunning_size_is_corrupted() {
    let mut a = header("kernel.img", b"00000001000\0");
    a.extend(vec![1u8; 100]);
    assert_eq!(bootfiles_read(&a, "kernel.img"), Err(BootError::Corrupted));
    assert_eq!(bootfiles_read(&a, "other"), Err(BootError::Corrupted));
}

#[test]
fn lookup_after_overrun_never_reached() {
    let mut a = entry("first", b"abc");
    let mut bad = header("second", b"77777777777\0");
    bad.extend(vec![0u8; 10]);
    a.extend(bad);
    assert_eq!(bootfiles_read(&a, "first"), Ok(b"abc".to_vec()));
    assert_eq!(bootfiles_read(&a, "second"), Err(BootError::Corrupted));
}

#[test]
fn size_field_is_trimmed() {
    let mut a = header("a.txt", b"\0  5 \0\0");
    a.extend(b"hello".to_vec());
    a.extend(vec![0u8; 507]);
    a.extend(vec![0u8; 1024]);
    assert_eq!(bootfiles_read(&a, "a.txt"), Ok(b"hello".to_vec()));
}

#[test]
fn unparsable_size_reads_as_zero() {
    let mut a = header("a.txt", b"12x\0");
    a.extend(vec![0u8; 1024]);
    assert_eq!(bootfiles_read(&a, "a.txt"), Ok(Vec::new()));
}

#[test]
fn empty_entry_ending_the_archive_is_found() {
    let a = header("a.txt", b"0\0");
    assert_eq!(bootfiles_read(&a, "a.txt"), Ok(Vec::new()));
    assert_eq!(bootfiles_read(&a, "b.txt"), Err(BootError::NotFound));
}

#[test]
fn header_ending_the_archive_with_payload_is_corrupted() {
    let a = header("a.txt", b"00000000005\0");
    assert_eq!(bootfiles_read(&a, "a.txt"), Err(BootError::Corrupted));
    assert_eq!(bootfiles_read(&a, "b.txt"), Err(BootError::Corrupted));
}

#[test]
fn partial_header_block_is_corrupted() {
    assert_eq!(bootfiles_read(&[0u8; 300], "a.txt"), Err(BootError::Corrupted));
}

#[test]
fn size_field_unicode_space_is_trimmed() {
    let mut field = b"17".to_vec();
    field.extend_from_slice("\u{a0}".as_bytes());
    field.extend_from_slice("\u{3000}".as_bytes());
    let mut a = header("a.txt", &field);
    a.extend(vec![5u8; 15]);
    a.extend(vec![0u8; 497]);
    a.extend(vec![0u8; 1024]);
    assert_eq!(bootfiles_read(&a, "a.txt"), Ok(vec![5u8; 15]));
}

#[test]
fn size_field_bad_bytes_read_as_zero() {
    let mut a = header("a.txt", b"17\xff");
    a.extend(vec![0u8; 1024]);
    assert_eq!(bootfiles_read(&a, "a.txt"), Ok(Vec::new()));
}
