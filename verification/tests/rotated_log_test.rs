use krossbar_log::direction::ShiftDirection;
use krossbar_log::log_file::RotatedLogFile;
use krossbar_log::timestamp::Timestamp;

fn log_content() -> Vec<u8> {
    b"log0\nlog1\nlog2\nlog3\nlog4".to_vec()
}

fn lines(v: &[&[u8]]) -> Vec<Vec<u8>> {
    v.iter().map(|l| l.to_vec()).collect()
}

#[test]
fn test_rotated_log() {
    let stamp = Timestamp {
        year: 1970,
        month: 1,
        day: 1,
        hour: 0,
        minute: 0,
        second: 0,
        millis: 42,
    };

    let mut rotated = RotatedLogFile::new(String::from("test.log"), stamp, log_content());

    assert_eq!(rotated.lines(), &Vec::<Vec<u8>>::new());

    // [0, 1, x, x, x]
    rotated.read_and_shift(ShiftDirection::Right, 2, 0);
    assert_eq!(rotated.lines(), &lines(&[b"log0", b"log1"]));

    // [x, x, 2, 3, x]
    rotated.read_and_shift(ShiftDirection::Right, 2, 2);
    assert_eq!(rotated.lines(), &lines(&[b"log2", b"log3"]));

    // [x, 1, 2, x, x]
    rotated.read_and_shift(ShiftDirection::Left, 2, 1);
    assert_eq!(rotated.lines(), &lines(&[b"log1", b"log2"]));

    // [x, 1, 2, 3, x]
    rotated.read_and_shift(ShiftDirection::Right, 3, 0);
    assert_eq!(rotated.lines(), &lines(&[b"log1", b"log2", b"log3"]));

    // [x, 1, 2, x, x]
    rotated.read_and_shift(ShiftDirection::Right, 2, 0);
    assert_eq!(rotated.lines(), &lines(&[b"log1", b"log2"]));

    // [x, 1, 2, 3, x]
    rotated.read_and_shift(ShiftDirection::Right, 3, 0);
    assert_eq!(rotated.lines(), &lines(&[b"log1", b"log2", b"log3"]));

    // [x, x, x, 3, 4]
    rotated.read_and_shift(ShiftDirection::Right, 3, 2);
    assert_eq!(rotated.lines(), &lines(&[b"log3", b"log4"]));

    // [x, x, 2, 3, 4]
    rotated.read_and_shift(ShiftDirection::Left, 3, 0);
    assert_eq!(rotated.lines(), &lines(&[b"log2", b"log3", b"log4"]));

    // [x, x, x, x, x]
    rotated.rev();
    assert_eq!(rotated.lines(), &Vec::<Vec<u8>>::new());

    // [x, 1, 2, 3, x]
    rotated.read_and_shift(ShiftDirection::Left, 3, 1);
    assert_eq!(rotated.lines(), &lines(&[b"log1", b"log2", b"log3"]));

    // [x, x, 2, 3, 4]
    rotated.read_and_shift(ShiftDirection::Right, 3, 1);
    assert_eq!(rotated.lines(), &lines(&[b"log2", b"log3", b"log4"]));

    // [0, 1, 2, 3, 4]
    rotated.read_and_shift(ShiftDirection::Left, 5, 0);
    assert_eq!(
        rotated.lines(),
        &lines(&[b"log0", b"log1", b"log2", b"log3", b"log4"])
    );

    // [x, 1, 2, 3, x]
    rotated.read_and_shift(ShiftDirection::Left, 3, 1);
    assert_eq!(rotated.lines(), &lines(&[b"log1", b"log2", b"log3"]));
}
