use krossbar_log::level::{Level, LevelFilter};
use krossbar_log::log_message::{render_line, stdout_line, LogEvent, LogMessage};
use krossbar_log::timestamp::Timestamp;
use krossbar_log::writer::{Args, Writer};

fn event() -> LogEvent {
    LogEvent {
        pid: 42,
        service_name: String::from("test"),
        message: LogMessage {
            timestamp: Timestamp {
                year: 2015,
                month: 2,
                day: 17,
                hour: 23,
                minute: 16,
                second: 9,
                millis: 7,
            },
            level: Level::Info,
            target: String::from("module"),
            message: String::from("hello"),
        },
    }
}

#[test]
fn test_render_line() {
    let line = render_line(&event());
    assert_eq!(
        String::from_utf8(line).unwrap(),
        "<17-02-2015 23:16:09.007> test#42 [INFO] module > hello\n"
    );
}

#[test]
fn test_render_line_levels() {
    for (level, label) in [
        (Level::Error, "ERROR"),
        (Level::Warn, "WARN"),
        (Level::Debug, "DEBUG"),
        (Level::Trace, "TRACE"),
    ] {
        let mut ev = event();
        ev.message.level = level;
        let line = String::from_utf8(render_line(&ev)).unwrap();
        assert!(line.contains(&format!("[{}]", label)));
    }
}

#[test]
fn test_stdout_line() {
    let m = event().message;
    assert_eq!(
        String::from_utf8(stdout_line(&m)).unwrap(),
        "INFO: module > hello"
    );

    let mut warn = event().message;
    warn.level = Level::Warn;
    assert_eq!(
        String::from_utf8(stdout_line(&warn)).unwrap(),
        "WARNING: module > hello"
    );
}

#[test]
fn test_writer_counts_and_rotates() {
    let line_len = render_line(&event()).len() as u64;

    let args = Args {
        log_level: LevelFilter::Debug,
        log_location: String::from("krossbar.log"),
        num_bytes_rotate: 2 * line_len,
        keep_num_files: 1,
    };
    let mut writer = Writer::new(&args);
    assert_eq!(writer.current_file_num_bytes, 0);

    // First record: counted, no rotation yet.
    let (line, rotate) = writer.log_message(&event());
    assert_eq!(line.len() as u64, line_len);
    assert!(!rotate);
    assert_eq!(writer.current_file_num_bytes, line_len);

    // Second record reaches the threshold: rotation, counter restarts.
    let (_, rotate) = writer.log_message(&event());
    assert!(rotate);
    assert_eq!(writer.current_file_num_bytes, 0);

    // And the cycle repeats.
    let (_, rotate) = writer.log_message(&event());
    assert!(!rotate);
    assert_eq!(writer.current_file_num_bytes, line_len);
}

#[test]
fn test_message_stamped_now_is_valid() {
    // The creation stamp comes from the clock; whatever moment it reads,
    // the fields stay in calendar range.
    let m = LogMessage::new(Level::Debug, String::from("t"), String::from("m"));
    assert!((1..=12).contains(&m.timestamp.month));
    assert!((1..=31).contains(&m.timestamp.day));
    assert!(m.timestamp.hour <= 23);
    assert!(m.timestamp.minute <= 59);
    assert!(m.timestamp.second <= 59);
    assert!(m.timestamp.millis <= 999);
}
