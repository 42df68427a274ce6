use krossbar_log::dir_index::{DirectoryReader, LogFileType};
use krossbar_log::rotator::{rotated_file_name, Rotator};
use krossbar_log::timestamp::Timestamp;

fn stamp() -> Timestamp {
    Timestamp {
        year: 2015,
        month: 2,
        day: 17,
        hour: 23,
        minute: 16,
        second: 9,
        millis: 0,
    }
}

#[test]
fn test_rotated_file_name() {
    let name = rotated_file_name(&b"krossbar_log.messages".to_vec(), &stamp());
    assert_eq!(name, b"krossbar_log_2015_02_17_23_16_09.messages".to_vec());

    // A name without an extension falls back to the default extension.
    let name = rotated_file_name(&b"krossbar".to_vec(), &stamp());
    assert_eq!(name, b"krossbar_2015_02_17_23_16_09.log".to_vec());

    // An empty name falls back entirely.
    let name = rotated_file_name(&Vec::new(), &stamp());
    assert_eq!(name, b"krossbar_log_2015_02_17_23_16_09.log".to_vec());
}

#[test]
fn test_rotated_name_classifies_as_rotated() {
    // The name a rotation produces is exactly what the directory index
    // accepts as a rotated sibling of the live file.
    let live = b"karo.log".to_vec();
    let rotator = Rotator::new(1, live.clone());
    let rotated = rotator.rotated_path(&stamp());
    assert_eq!(rotated, b"karo_2015_02_17_23_16_09.log".to_vec());

    let result = DirectoryReader::read_dir_logs(&live, &vec![rotated.clone()]);
    assert_eq!(result.len(), 2);
    assert_eq!(result[0].log_file_name, rotated);
    match result[0].log_type {
        LogFileType::Rotated(ts) => assert_eq!(ts, stamp()),
        LogFileType::Live => panic!("expected a rotated entry"),
    }
}

#[test]
fn test_rotated_path_now_parses() {
    // The clock-stamped name must classify as a rotated sibling too.
    let live = b"krossbar.log".to_vec();
    let rotator = Rotator::new(10, live.clone());
    let rotated = rotator.rotated_path_now();

    let result = DirectoryReader::read_dir_logs(&live, &vec![rotated.clone()]);
    assert_eq!(result.len(), 2);
    assert_eq!(result[0].log_file_name, rotated);
    assert!(matches!(result[0].log_type, LogFileType::Rotated(_)));
}

#[test]
fn test_removal_plan() {
    // Keep one rotated file: of two siblings the older is removed.
    let rotator = Rotator::new(1, b"krossbar_log.messages".to_vec());
    let plan = rotator.removal_plan(vec![
        b"krossbar_log_2015_02_18_11_16_09.messages".to_vec(),
        b"krossbar_log_2015_02_17_23_16_09.messages".to_vec(),
    ]);
    assert_eq!(
        plan.0,
        vec![b"krossbar_log_2015_02_17_23_16_09.messages".to_vec()]
    );
    assert_eq!(
        plan.1,
        vec![b"krossbar_log_2015_02_18_11_16_09.messages".to_vec()]
    );

    // Under the cap nothing is removed.
    let plan = rotator.removal_plan(vec![b"krossbar_log_2015_02_17_23_16_09.messages".to_vec()]);
    assert_eq!(plan.0, Vec::<Vec<u8>>::new());
}
