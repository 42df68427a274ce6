use krossbar_log::direction::ShiftDirection;
use krossbar_log::log_file::RotatedLogFile;
use krossbar_log::registry::LogRegistry;
use krossbar_log::timestamp::Timestamp;

fn stamp(hour: u32) -> Timestamp {
    Timestamp {
        year: 2022,
        month: 8,
        day: 22,
        hour,
        minute: 0,
        second: 0,
        millis: 0,
    }
}

fn log_content(num: usize) -> Vec<u8> {
    format!("log{n}0\nlog{n}1\nlog{n}2\nlog{n}3\nlog{n}4", n = num).into_bytes()
}

fn rendered(registry: &LogRegistry) -> String {
    String::from_utf8(registry.write()).expect("rendered log is UTF-8")
}

#[test]
fn test_single_file_registry() {
    const WINDOW_SIZE: usize = 3;

    let live = RotatedLogFile::new(String::from("karo.log"), stamp(0), log_content(0));
    let mut registry = LogRegistry::new(vec![live]);

    // [x, x, 2, 3, 4]
    registry.shift(ShiftDirection::Left, 0, WINDOW_SIZE);
    assert_eq!(rendered(&registry), "log02\nlog03\nlog04");

    // [x, 1, 2, 3, x]
    registry.shift(ShiftDirection::Left, 1, WINDOW_SIZE);
    assert_eq!(rendered(&registry), "log01\nlog02\nlog03\n");

    // [x, 1, 2, x, x]
    registry.shift(ShiftDirection::Left, 1, WINDOW_SIZE - 1);
    assert_eq!(rendered(&registry), "log01\nlog02\n");

    // [x, 1, 2, 3, x]
    registry.shift(ShiftDirection::Right, 0, WINDOW_SIZE);
    assert_eq!(rendered(&registry), "log01\nlog02\nlog03\n");

    // [0, 1, 2, x, x]
    registry.shift(ShiftDirection::Left, 1, WINDOW_SIZE);
    assert_eq!(rendered(&registry), "log00\nlog01\nlog02\n");

    // [x, 1, 2, 3, x]
    registry.shift(ShiftDirection::Right, 1, WINDOW_SIZE);
    assert_eq!(rendered(&registry), "log01\nlog02\nlog03\n");

    // [0, 1, 2, x, x]
    registry.shift(ShiftDirection::Left, 2, WINDOW_SIZE);
    assert_eq!(rendered(&registry), "log00\nlog01\nlog02\n");

    // [x, 1, 2, 3, x]
    registry.shift(ShiftDirection::Right, 1, WINDOW_SIZE);
    assert_eq!(rendered(&registry), "log01\nlog02\nlog03\n");
}

#[test]
fn test_multiple_files_registry() {
    const WINDOW_SIZE: usize = 5;

    let rotated_old = RotatedLogFile::new(
        String::from("karo_2022_08_22_11_00_00.log"),
        stamp(11),
        log_content(2),
    );
    let rotated_new = RotatedLogFile::new(
        String::from("karo_2022_08_22_18_00_00.log"),
        stamp(18),
        log_content(1),
    );
    let live = RotatedLogFile::new(String::from("karo.log"), stamp(0), log_content(0));

    let mut registry = LogRegistry::new(vec![rotated_old, rotated_new, live]);

    // [x, x, 2, 3, 4]
    registry.shift(ShiftDirection::Left, 0, 3);
    assert_eq!(rendered(&registry), "log02\nlog03\nlog04");

    // [..][0, 1, 2, 3, 4]
    registry.shift(ShiftDirection::Left, 0, WINDOW_SIZE);
    assert_eq!(rendered(&registry), "log00\nlog01\nlog02\nlog03\nlog04");

    // [x, x, x, 3, 4][0, 1, 2, x, x]
    registry.shift(ShiftDirection::Left, 2, WINDOW_SIZE);
    assert_eq!(rendered(&registry), "log13\nlog14\nlog00\nlog01\nlog02\n");

    // [x, x, x, x, 4][0, 1, 2, 3, x]
    registry.shift(ShiftDirection::Right, 1, WINDOW_SIZE);
    assert_eq!(rendered(&registry), "log14\nlog00\nlog01\nlog02\nlog03\n");

    // [x, 1, 2, 3, 4][0, x, x, x, x]
    registry.shift(ShiftDirection::Left, 3, WINDOW_SIZE);
    assert_eq!(rendered(&registry), "log11\nlog12\nlog13\nlog14\nlog00\n");

    // [0, 1, 2, 3, 4][..]
    registry.shift(ShiftDirection::Left, 1, WINDOW_SIZE);
    assert_eq!(rendered(&registry), "log10\nlog11\nlog12\nlog13\nlog14");

    // [x, x, 2, 3, 4][0, 1, x, x, x][..]
    registry.shift(ShiftDirection::Left, 3, WINDOW_SIZE);
    assert_eq!(rendered(&registry), "log22\nlog23\nlog24\nlog10\nlog11\n");

    // [0, 1, 2, 3, 4][..][..]
    registry.shift(ShiftDirection::Left, 5, WINDOW_SIZE);
    assert_eq!(rendered(&registry), "log20\nlog21\nlog22\nlog23\nlog24");

    // [..][..][x, x, 2, 3, 4]
    registry.shift(ShiftDirection::Right, 12, WINDOW_SIZE);
    assert_eq!(rendered(&registry), "log00\nlog01\nlog02\nlog03\nlog04");
}

fn log_content_with_empty(num: usize) -> Vec<u8> {
    format!("log{n}0\n\nlog{n}1\nlog{n}2\n\n", n = num).into_bytes()
}

#[test]
fn test_empty_log_lines() {
    const WINDOW_SIZE: usize = 3;

    let rotated = RotatedLogFile::new(
        String::from("karo_2022_08_22_18_00_00.log"),
        stamp(18),
        log_content_with_empty(1),
    );
    let live = RotatedLogFile::new(String::from("karo.log"), stamp(0), log_content_with_empty(0));

    let mut registry = LogRegistry::new(vec![rotated, live]);

    // [x, x, 1, 2, ]
    registry.shift(ShiftDirection::Left, 0, WINDOW_SIZE);
    assert_eq!(rendered(&registry), "log01\nlog02\n\n");

    // [..][x, , 1, 2, x]
    registry.shift(ShiftDirection::Left, 1, WINDOW_SIZE);
    assert_eq!(rendered(&registry), "\nlog01\nlog02\n");

    // [..][0, , 1, x, x]
    registry.shift(ShiftDirection::Left, 1, WINDOW_SIZE);
    assert_eq!(rendered(&registry), "log00\n\nlog01\n");

    // [x, x, x, x, ][0, , x, x, x]
    registry.shift(ShiftDirection::Left, 1, WINDOW_SIZE);
    assert_eq!(rendered(&registry), "\n\nlog00\n\n");

    // [x, x, x, 2, ][0, x, x, x, x]
    registry.shift(ShiftDirection::Left, 1, WINDOW_SIZE);
    assert_eq!(rendered(&registry), "log12\n\n\nlog00\n");

    // [x, x, 1, 2, ][..]
    registry.shift(ShiftDirection::Left, 1, WINDOW_SIZE);
    assert_eq!(rendered(&registry), "log11\nlog12\n\n");

    // [x, , 1, 2, x][..]
    registry.shift(ShiftDirection::Left, 1, WINDOW_SIZE);
    assert_eq!(rendered(&registry), "\nlog11\nlog12\n");

    // [0, , 1, x, x][..]
    registry.shift(ShiftDirection::Left, 1, WINDOW_SIZE);
    assert_eq!(rendered(&registry), "log10\n\nlog11\n");

    // [0, , 1, x, x][..]
    registry.shift(ShiftDirection::Left, 1, WINDOW_SIZE);
    assert_eq!(rendered(&registry), "log10\n\nlog11\n");
}
