use filestats::dir::SizeEntry;
use filestats::utils::format_bytes;

#[test]
fn formats_bytes_below_a_kib() {
    assert_eq!(format_bytes(0), "0B");
    assert_eq!(format_bytes(7), "7B");
    assert_eq!(format_bytes(1023), "1023B");
}

#[test]
fn formats_binary_units() {
    assert_eq!(format_bytes(1024), "1KiB");
    assert_eq!(format_bytes(1536), "1KiB");
    assert_eq!(format_bytes(5 * 1048576 + 3), "5MiB");
    assert_eq!(format_bytes(1073741824), "1GiB");
    assert_eq!(format_bytes(1073741823), "1023MiB");
    assert_eq!(format_bytes(u64::MAX), "17179869183GiB");
}

#[test]
fn size_entry_keeps_name_and_size() {
    let entry = SizeEntry::new("foo", 100);
    assert_eq!(entry.name, "foo");
    assert_eq!(entry.size, 100);
    assert_eq!(entry.clone(), entry);
}
