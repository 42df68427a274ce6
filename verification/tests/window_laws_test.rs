use krossbar_log::direction::ShiftDirection;
use krossbar_log::log_file::RotatedLogFile;
use krossbar_log::timestamp::Timestamp;

fn stamp() -> Timestamp {
    Timestamp {
        year: 2015,
        month: 2,
        day: 17,
        hour: 23,
        minute: 16,
        second: 9,
        millis: 0,
    }
}

fn file(content: &[u8]) -> RotatedLogFile {
    RotatedLogFile::new(String::from("test.log"), stamp(), content.to_vec())
}

#[test]
fn test_read_idempotence() {
    // Reading without a shift twice returns the same window the second time.
    let mut f = file(b"log0\nlog1\nlog2\nlog3\nlog4");
    f.rev();

    let first = f.read_and_shift(ShiftDirection::Left, 3, 0);
    let lines_after_first = f.lines().clone();
    let second = f.read_and_shift(ShiftDirection::Left, 3, 0);
    assert_eq!(first, second);
    assert_eq!(f.lines(), &lines_after_first);

    // The same holds when the file cannot fill the window.
    let mut short = file(b"one\ntwo");
    short.rev();
    let first = short.read_and_shift(ShiftDirection::Left, 10, 0);
    let lines_after_first = short.lines().clone();
    let second = short.read_and_shift(ShiftDirection::Left, 10, 0);
    assert_eq!(first, (2, 0));
    assert_eq!(first, second);
    assert_eq!(short.lines(), &lines_after_first);
}

#[test]
fn test_boundaries() {
    // At the file's start further leftward shifts shift nothing and leave
    // the cursors at zero.
    let mut f = file(b"log0\nlog1");
    f.rev();
    f.read_and_shift(ShiftDirection::Left, 2, 0);
    let (_, shifted) = f.read_and_shift(ShiftDirection::Left, 2, 5);
    assert_eq!(shifted, 2);
    let (len, shifted) = f.read_and_shift(ShiftDirection::Left, 0, 5);
    assert_eq!((len, shifted), (0, 0));
    assert_eq!(f.window.start_cursor, 0);
    assert_eq!(f.window.end_cursor, 0);
    let (len, shifted) = f.read_and_shift(ShiftDirection::Left, 0, 3);
    assert_eq!((len, shifted), (0, 0));
    assert_eq!(f.window.start_cursor, 0);
    assert_eq!(f.window.end_cursor, 0);

    // At the file's end further rightward shifts mirror that, with the
    // cursors at the file's length.
    let mut f = file(b"log0\nlog1");
    f.read_and_shift(ShiftDirection::Right, 2, 0);
    let (len, shifted) = f.read_and_shift(ShiftDirection::Right, 0, 5);
    assert_eq!((len, shifted), (0, 2));
    // The file does not end in a newline, so the cursors rest one past
    // its end, at the phantom terminator.
    assert_eq!(f.window.start_cursor, 10);
    assert_eq!(f.window.end_cursor, 10);
    let (len, shifted) = f.read_and_shift(ShiftDirection::Right, 0, 3);
    assert_eq!((len, shifted), (0, 0));
    assert_eq!(f.window.start_cursor, 10);
    assert_eq!(f.window.end_cursor, 10);
}

#[test]
fn test_empty_file() {
    let mut f = file(b"");
    f.rev();
    assert_eq!(f.read_and_shift(ShiftDirection::Left, 3, 1), (0, 0));
    assert_eq!(f.read_and_shift(ShiftDirection::Right, 3, 1), (0, 0));
    assert_eq!(f.lines(), &Vec::<Vec<u8>>::new());
}

#[test]
fn test_concatenation() {
    // The window's lines concatenate to exactly the bytes between the
    // cursors, wherever the window stands.
    let content = b"alpha\nbeta\ngamma\ndelta";
    let mut f = file(content);
    f.rev();
    f.read_and_shift(ShiftDirection::Left, 3, 0);
    f.read_and_shift(ShiftDirection::Left, 3, 1);
    f.read_and_shift(ShiftDirection::Right, 2, 1);

    let mut joined: Vec<u8> = Vec::new();
    for line in f.lines() {
        joined.extend_from_slice(line);
        joined.push(b'\n');
    }
    let start = f.window.start_cursor as usize;
    let end = f.window.end_cursor as usize;
    assert!(end <= content.len());
    assert_eq!(&content[start..end], joined.as_slice());
}
