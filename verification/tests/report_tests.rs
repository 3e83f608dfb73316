use iris_mmu::report::{human_size, SizeUnit};

#[test]
fn sizes_in_the_largest_unit_reached() {
    assert_eq!(human_size(0x8000_0000), (2, SizeUnit::Gigabytes));
    assert_eq!(human_size(0x4000_0000), (1, SizeUnit::Gigabytes));
    assert_eq!(human_size(0x3fff_ffff), (1023, SizeUnit::Megabytes));
    assert_eq!(human_size(0x10_0000), (1, SizeUnit::Megabytes));
    assert_eq!(human_size(0x1800), (6, SizeUnit::Kilobytes));
    assert_eq!(human_size(1023), (1023, SizeUnit::Bytes));
    assert_eq!(human_size(0), (0, SizeUnit::Bytes));
}

#[test]
fn unit_symbols() {
    assert_eq!(SizeUnit::Gigabytes.symbol(), "GB");
    assert_eq!(SizeUnit::Megabytes.symbol(), "MB");
    assert_eq!(SizeUnit::Kilobytes.symbol(), "KB");
    assert_eq!(SizeUnit::Bytes.symbol(), "B");
}
