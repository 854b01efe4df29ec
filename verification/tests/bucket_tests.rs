use photo_backup::bucket::bucket_name;

#[test]
fn epoch_start_is_january_1970() {
    assert_eq!(bucket_name(0).unwrap(), "1970-01");
}

#[test]
fn january_2023() {
    // 2023-01-01T00:00:00Z
    assert_eq!(bucket_name(1_672_531_200).unwrap(), "2023-01");
}

#[test]
fn december_2023() {
    // 2023-12-01T00:00:00Z
    assert_eq!(bucket_name(1_701_388_800).unwrap(), "2023-12");
}

#[test]
fn last_second_of_a_month() {
    // 2023-01-31T23:59:59Z
    assert_eq!(bucket_name(1_675_209_599).unwrap(), "2023-01");
    // One second later it is February.
    assert_eq!(bucket_name(1_675_209_600).unwrap(), "2023-02");
}

#[test]
fn far_future_is_unrepresentable() {
    assert_eq!(bucket_name(u64::MAX), None);
}

#[test]
fn year_9999_still_formats() {
    // 9999-12-31T23:59:59Z
    assert_eq!(bucket_name(253_402_300_799).unwrap(), "9999-12");
}
