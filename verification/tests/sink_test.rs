use krossbar_log::level::{Level, LevelFilter};
use krossbar_log::log_message::LogMessage;
use krossbar_log::sink::{send_plan, Logger, SendPlan, LOG_BUFFER_SIZE};
use krossbar_log::timestamp::Timestamp;

fn record(level: Level) -> LogMessage {
    LogMessage {
        timestamp: Timestamp {
            year: 2015,
            month: 2,
            day: 17,
            hour: 23,
            minute: 16,
            second: 9,
            millis: 0,
        },
        level,
        target: String::from("t"),
        message: String::from("m"),
    }
}

#[test]
fn test_level_filtering() {
    let mut sink = Logger::new(String::from("svc"), LevelFilter::Warn, true, true);

    // Too verbose for the filter: ignored entirely.
    let outcome = sink.log(record(Level::Info));
    assert!(!outcome.to_stdout && !outcome.queued && !outcome.dropped);
    assert_eq!(sink.queue.len(), 0);

    // At the filter: echoed and queued.
    let outcome = sink.log(record(Level::Warn));
    assert!(outcome.to_stdout && outcome.queued && !outcome.dropped);
    assert_eq!(sink.queue.len(), 1);

    // `Off` admits nothing.
    sink.set_level(LevelFilter::Off);
    let outcome = sink.log(record(Level::Error));
    assert!(!outcome.to_stdout && !outcome.queued && !outcome.dropped);
}

#[test]
fn test_queue_drops_when_full() {
    let mut sink = Logger::new(String::from("svc"), LevelFilter::Trace, false, true);

    for _ in 0..LOG_BUFFER_SIZE {
        let outcome = sink.log(record(Level::Debug));
        assert!(outcome.queued && !outcome.dropped);
    }
    assert_eq!(sink.queue.len(), LOG_BUFFER_SIZE);

    // The queue is full: the record is dropped, never blocking the caller.
    let outcome = sink.log(record(Level::Debug));
    assert!(!outcome.queued && outcome.dropped);
    assert_eq!(sink.queue.len(), LOG_BUFFER_SIZE);

    // Records leave in enqueue order.
    let first = sink.queue.pop_front().unwrap();
    assert_eq!(first.message, "m");
    assert_eq!(sink.queue.len(), LOG_BUFFER_SIZE - 1);
}

#[test]
fn test_send_plan_backoff() {
    // A successful write needs nothing.
    assert!(matches!(send_plan(false, 5000, 1000), SendPlan::Done));

    // A failed write after the backoff: reconnect.
    assert!(matches!(send_plan(true, 2500, 1000), SendPlan::Reconnect));

    // A failed write inside the backoff window: fall back to stdout.
    assert!(matches!(send_plan(true, 1800, 1000), SendPlan::FallbackStdout));
    assert!(matches!(send_plan(true, 2000, 1000), SendPlan::FallbackStdout));
    assert!(matches!(send_plan(true, 500, 1000), SendPlan::FallbackStdout));
}
