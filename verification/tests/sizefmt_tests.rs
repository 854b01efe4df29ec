use photo_backup::sizefmt::format_size;

#[test]
fn one_megabyte_exactly() {
    assert_eq!(format_size(1_048_576), "1.00 MB");
}

#[test]
fn zero_bytes() {
    assert_eq!(format_size(0), "0.00 B");
}

#[test]
fn just_below_one_kilobyte() {
    assert_eq!(format_size(1023), "1023.00 B");
}

#[test]
fn one_kilobyte() {
    assert_eq!(format_size(1024), "1.00 KB");
}

#[test]
fn one_and_a_half_kilobytes() {
    assert_eq!(format_size(1536), "1.50 KB");
}

#[test]
fn rounds_to_two_decimals() {
    assert_eq!(format_size(2047), "2.00 KB");
    assert_eq!(format_size(1_048_575), "1024.00 KB");
}

#[test]
fn gigabytes_and_terabytes() {
    assert_eq!(format_size(1_073_741_824), "1.00 GB");
    assert_eq!(format_size(1_099_511_627_776), "1.00 TB");
    assert_eq!(format_size(3 * 1_099_511_627_776 + 1_099_511_627_776 / 2), "3.50 TB");
}

#[test]
fn stays_in_terabytes_at_the_top() {
    assert_eq!(format_size(u64::MAX), "16777216.00 TB");
}
