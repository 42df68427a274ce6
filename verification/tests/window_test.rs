use krossbar_log::direction::ShiftDirection;
use krossbar_log::log_window::LogWindow;

#[test]
fn test_window() {
    let mut window = LogWindow::new();

    // [0, 1]
    let mut shift_len = window.shift(
        ShiftDirection::Right,
        2,
        vec![b"test0".to_vec(), b"test1".to_vec()],
    );

    assert_eq!(shift_len, 0);
    assert_eq!(window.start_cursor(), 0);
    assert_eq!(window.end_cursor(), 12);
    assert_eq!(
        window.lines(),
        &vec![b"test0".to_vec(), b"test1".to_vec()]
    );

    // [x, 1, 2]
    shift_len = window.shift(ShiftDirection::Right, 1, vec![b"test2".to_vec()]);

    assert_eq!(shift_len, 1);
    assert_eq!(window.start_cursor(), 6);
    assert_eq!(window.end_cursor(), 18);
    assert_eq!(
        window.lines(),
        &vec![b"test1".to_vec(), b"test2".to_vec()]
    );

    // [0, 1]
    shift_len = window.shift(ShiftDirection::Left, 1, vec![b"test0".to_vec()]);

    assert_eq!(shift_len, 1);
    assert_eq!(window.start_cursor(), 0);
    assert_eq!(window.end_cursor(), 12);
    assert_eq!(
        window.lines(),
        &vec![b"test0".to_vec(), b"test1".to_vec()]
    );

    // [x, 1]
    shift_len = window.shift(ShiftDirection::Right, 1, vec![]);

    assert_eq!(shift_len, 1);
    assert_eq!(window.start_cursor(), 6);
    assert_eq!(window.end_cursor(), 12);
    assert_eq!(window.lines(), &vec![b"test1".to_vec()]);

    // [x, x]
    shift_len = window.shift(ShiftDirection::Right, 1, vec![]);

    assert_eq!(shift_len, 1);
    assert_eq!(window.start_cursor(), 12);
    assert_eq!(window.end_cursor(), 12);
    assert_eq!(window.lines(), &Vec::<Vec<u8>>::new());

    // [x, x, x]
    window.rev(18);
    assert_eq!(shift_len, 1);
    assert_eq!(window.start_cursor(), 18);
    assert_eq!(window.end_cursor(), 18);
    assert_eq!(window.lines(), &Vec::<Vec<u8>>::new());

    // [x, x, 2]
    shift_len = window.shift(ShiftDirection::Left, 1, vec![b"test2".to_vec()]);

    assert_eq!(shift_len, 0);
    assert_eq!(window.start_cursor(), 12);
    assert_eq!(window.end_cursor(), 18);
    assert_eq!(window.lines(), &vec![b"test2".to_vec()]);

    // [0, 1, 2]
    shift_len = window.shift(
        ShiftDirection::Left,
        0,
        vec![b"test0".to_vec(), b"test1".to_vec()],
    );

    assert_eq!(shift_len, 0);
    assert_eq!(window.start_cursor(), 0);
    assert_eq!(window.end_cursor(), 18);
    assert_eq!(
        window.lines(),
        &vec![b"test0".to_vec(), b"test1".to_vec(), b"test2".to_vec()]
    );

    // [2]
    shift_len = window.shift(ShiftDirection::Right, 2, vec![]);

    assert_eq!(shift_len, 2);
    assert_eq!(window.start_cursor(), 12);
    assert_eq!(window.end_cursor(), 18);
    assert_eq!(window.lines(), &vec![b"test2".to_vec()]);
}
