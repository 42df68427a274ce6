use krossbar_log::dir_index::{DirectoryReader, LogFileType};

fn names(list: &[&str]) -> Vec<Vec<u8>> {
    list.iter().map(|n| n.as_bytes().to_vec()).collect()
}

#[test]
fn dir_reader_test() {
    // The directory listing, in discovery order.
    let dir_file_names = names(&[
        "invalid.log",
        "karo_2015_02_18_23_16_09.log",
        "karo_2015_02_18_11_16_09.log",
        "invalid2.log",
        "karo_2015_02_17_23_16_09.log",
        "karo_2015_02_23_01_00_00.log",
        "karo.log",
    ]);

    let live_log_name = b"karo.log".to_vec();
    let mut read_result = DirectoryReader::read_dir_logs(&live_log_name, &dir_file_names)
        .into_iter();

    let mut first_file = read_result.next().unwrap();
    assert_eq!(first_file.log_file_name, b"karo_2015_02_17_23_16_09.log".to_vec());

    first_file = read_result.next().unwrap();
    assert_eq!(first_file.log_file_name, b"karo_2015_02_18_11_16_09.log".to_vec());

    first_file = read_result.next().unwrap();
    assert_eq!(first_file.log_file_name, b"karo_2015_02_18_23_16_09.log".to_vec());

    first_file = read_result.next().unwrap();
    assert_eq!(first_file.log_file_name, b"karo_2015_02_23_01_00_00.log".to_vec());

    first_file = read_result.next().unwrap();
    assert_eq!(first_file.log_file_name, b"karo.log".to_vec());
    assert!(matches!(first_file.log_type, LogFileType::Live));

    assert!(read_result.next().is_none());
}

#[test]
fn dir_reader_rejects_bad_stamps() {
    let live_log_name = b"karo.log".to_vec();
    let dir_file_names = names(&[
        // Month out of range.
        "karo_2015_13_17_23_16_09.log",
        // Day past February's length.
        "karo_2015_02_29_23_16_09.log",
        // A dot inside the stamp segment.
        "karo_2015.02_17_23_16_09.log",
        // Too short.
        "karo_2015_02_17.log",
        // A leap day, which is valid.
        "karo_2016_02_29_23_16_09.log",
    ]);

    let result = DirectoryReader::read_dir_logs(&live_log_name, &dir_file_names);
    assert_eq!(result.len(), 2);
    assert_eq!(result[0].log_file_name, b"karo_2016_02_29_23_16_09.log".to_vec());
    match result[0].log_type {
        LogFileType::Rotated(ts) => {
            assert_eq!(ts.year, 2016);
            assert_eq!(ts.month, 2);
            assert_eq!(ts.day, 29);
            assert_eq!(ts.hour, 23);
            assert_eq!(ts.minute, 16);
            assert_eq!(ts.second, 9);
        }
        LogFileType::Live => panic!("expected a rotated entry"),
    }
    assert_eq!(result[1].log_file_name, b"karo.log".to_vec());
}
