use photo_backup::messages::{missing_dest_message, missing_source_message};

#[test]
fn missing_source_names_the_path() {
    let msg = missing_source_message("/mnt/phone");
    assert_eq!(msg, "[ERROR] Source directory '/mnt/phone' does not exist");
    assert!(msg.contains("/mnt/phone"));
}

#[test]
fn missing_dest_names_the_path() {
    let msg = missing_dest_message("/backup");
    assert_eq!(msg, "[ERROR] Destination directory '/backup' does not exist");
    assert!(msg.contains("/backup"));
}
