use photo_backup::plan::{plan_backup, FileEntry, Subfolder};

const JAN_2023_A: u64 = 1_672_531_200; // 2023-01-01T00:00:00Z
const JAN_2023_B: u64 = 1_673_000_000; // 2023-01-06T...Z
const DEC_2023: u64 = 1_701_388_800; // 2023-12-01T00:00:00Z

fn file(name: &str, mtime: u64) -> FileEntry {
    FileEntry { name: String::from(name), mtime }
}

fn folder(name: &str, files: Vec<FileEntry>) -> Subfolder {
    Subfolder { name: String::from(name), files }
}

#[test]
fn two_january_files_and_one_december_file_give_two_buckets() {
    let folders = vec![folder(
        "camera",
        vec![file("a.jpg", JAN_2023_A), file("b.jpg", JAN_2023_B), file("c.jpg", DEC_2023)],
    )];
    let plan = plan_backup(&folders, &Vec::new()).unwrap();
    assert_eq!(plan.buckets, vec!["2023-01", "2023-12"]);
    assert_eq!(plan.actions.len(), 3);
}

#[test]
fn actions_carry_folder_file_and_bucket() {
    let folders = vec![folder("camera", vec![file("a.jpg", JAN_2023_A)])];
    let plan = plan_backup(&folders, &Vec::new()).unwrap();
    assert_eq!(plan.actions.len(), 1);
    assert_eq!(plan.actions[0].subfolder, "camera");
    assert_eq!(plan.actions[0].file, "a.jpg");
    assert_eq!(plan.actions[0].bucket, "2023-01");
}

#[test]
fn processed_folder_is_not_rescanned() {
    let folders = vec![
        folder("done", vec![file("old.jpg", JAN_2023_A)]),
        folder("fresh", vec![file("new.jpg", DEC_2023)]),
    ];
    let processed = vec![String::from("done")];
    let plan = plan_backup(&folders, &processed).unwrap();
    assert_eq!(plan.actions.len(), 1);
    assert_eq!(plan.actions[0].subfolder, "fresh");
    assert_eq!(plan.buckets, vec!["2023-12"]);
    assert_eq!(plan.new_processed, vec!["done", "fresh"]);
}

#[test]
fn second_run_is_a_noop() {
    let folders = vec![
        folder("one", vec![file("a.jpg", JAN_2023_A)]),
        folder("two", vec![file("b.jpg", DEC_2023)]),
    ];
    let first = plan_backup(&folders, &Vec::new()).unwrap();
    assert_eq!(first.actions.len(), 2);
    let second = plan_backup(&folders, &first.new_processed).unwrap();
    assert_eq!(second.actions.len(), 0);
    assert_eq!(second.buckets.len(), 0);
    assert_eq!(second.new_processed, first.new_processed);
}

#[test]
fn empty_source_plans_nothing() {
    let plan = plan_backup(&Vec::new(), &Vec::new()).unwrap();
    assert_eq!(plan.actions.len(), 0);
    assert_eq!(plan.buckets.len(), 0);
    assert_eq!(plan.new_processed.len(), 0);
}

#[test]
fn unrepresentable_timestamp_fails_and_names_the_file() {
    let folders = vec![folder("camera", vec![file("bad.jpg", u64::MAX)])];
    let err = plan_backup(&folders, &Vec::new()).unwrap_err();
    assert_eq!(err.subfolder, "camera");
    assert_eq!(err.file, "bad.jpg");
    assert_eq!(err.mtime, u64::MAX);
}

#[test]
fn unrepresentable_timestamp_in_processed_folder_is_ignored() {
    let folders = vec![folder("done", vec![file("bad.jpg", u64::MAX)])];
    let processed = vec![String::from("done")];
    let plan = plan_backup(&folders, &processed).unwrap();
    assert_eq!(plan.actions.len(), 0);
    assert_eq!(plan.new_processed, vec!["done"]);
}

#[test]
fn shared_bucket_across_folders_appears_once() {
    let folders = vec![
        folder("one", vec![file("a.jpg", JAN_2023_A)]),
        folder("two", vec![file("b.jpg", JAN_2023_B)]),
    ];
    let plan = plan_backup(&folders, &Vec::new()).unwrap();
    assert_eq!(plan.buckets, vec!["2023-01"]);
    assert_eq!(plan.actions.len(), 2);
}
