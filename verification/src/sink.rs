//! The client sink's rules: level filtering, the bounded outbound queue
//! that drops rather than blocks, and the sender's reconnect policy with
//! its one-second backoff.

use vstd::prelude::*;

use crate::level::{enabled, passes, Level, LevelFilter};
use crate::log_message::LogMessage;

verus! {

/// Capacity of the outbound record queue.
pub const LOG_BUFFER_SIZE: usize = 100;

/// How long the sender waits before another reconnect attempt, in
/// milliseconds.
pub const RECONNECT_PERIOD_MS: u64 = 1000;

/// The bounded outbound queue: enqueueing onto a full queue drops the
/// record instead of blocking the logging hot path.
pub struct LogQueue {
    pub items: Vec<LogMessage>,
}

impl LogQueue {
    pub fn new() -> (r: LogQueue)
        ensures
            r.items@.len() == 0,
    {
        LogQueue { items: Vec::new() }
    }

    pub fn len(&self) -> (r: usize)
        ensures
            r == self.items@.len(),
    {
        self.items.len()
    }

    /// Enqueue a record; succeeds exactly while the queue is below its
    /// capacity, otherwise leaves the queue unchanged and reports the drop.
    pub fn try_enqueue(&mut self, m: LogMessage) -> (r: bool)
        ensures
            r == (old(self).items@.len() < LOG_BUFFER_SIZE),
            r ==> final(self).items@ == old(self).items@.push(m),
            !r ==> final(self).items@ == old(self).items@,
    {
        if self.items.len() < LOG_BUFFER_SIZE {
            self.items.push(m);
            true
        } else {
            false
        }
    }

    /// Dequeue the oldest record, if any: records leave in the order they
    /// were enqueued.
    pub fn pop_front(&mut self) -> (r: Option<LogMessage>)
        ensures
            old(self).items@.len() == 0 ==> r is None && final(self).items@ == old(self).items@,
            old(self).items@.len() > 0 ==> r == Some(old(self).items@[0]) && final(self).items@
                == old(self).items@.drop_first(),
    {
        if self.items.len() == 0 {
            None
        } else {
            let m = self.items.remove(0);
            proof {
                assert(self.items@ =~= old(self).items@.drop_first());
            }
            Some(m)
        }
    }
}

/// Whether the sender may attempt a reconnect: only once the backoff
/// period has fully elapsed since the last successful connection.
pub fn should_reconnect(now_ms: u64, last_connect_ms: u64) -> (r: bool)
    ensures
        r == (now_ms > last_connect_ms && now_ms - last_connect_ms > RECONNECT_PERIOD_MS),
{
    now_ms > last_connect_ms && now_ms - last_connect_ms > RECONNECT_PERIOD_MS
}

/// What the capture hook does with one record.
pub struct CaptureOutcome {
    /// Print the record to stdout.
    pub to_stdout: bool,
    /// The record entered the outbound queue.
    pub queued: bool,
    /// The record was bound for the logger but the queue was full.
    pub dropped: bool,
}

/// The process-wide capture hook's state.
pub struct Logger {
    /// This process's service name.
    pub service_name: String,
    /// Current level filter.
    pub level: LevelFilter,
    /// Whether records are echoed to stdout.
    pub log_to_stdout: bool,
    /// Whether records are forwarded to the logging daemon.
    pub log_to_rpc: bool,
    /// The outbound queue toward the sender.
    pub queue: LogQueue,
}

impl Logger {
    pub fn new(service_name: String, level: LevelFilter, log_to_stdout: bool, log_to_rpc: bool) -> (
        r: Logger)
        ensures
            r.service_name == service_name,
            r.level == level,
            r.log_to_stdout == log_to_stdout,
            r.log_to_rpc == log_to_rpc,
            r.queue.items@.len() == 0,
    {
        Logger { service_name, level, log_to_stdout, log_to_rpc, queue: LogQueue::new() }
    }

    /// Whether a record of severity `l` passes the current filter.
    pub fn enabled(&self, l: Level) -> (r: bool)
        ensures
            r == passes(l, self.level),
    {
        enabled(l, self.level)
    }

    /// Apply the current filter to a new filter pushed from the control
    /// plane.
    pub fn set_level(&mut self, level: LevelFilter)
        ensures
            final(self).level == level,
            final(self).service_name == old(self).service_name,
            final(self).log_to_stdout == old(self).log_to_stdout,
            final(self).log_to_rpc == old(self).log_to_rpc,
            final(self).queue.items@ == old(self).queue.items@,
    {
        self.level = level;
    }

    /// The capture hook: a record below the filter is ignored; a passing
    /// record is echoed to stdout when so configured, and bound for the
    /// daemon it enters the queue unless the queue is full, in which case
    /// it is dropped rather than blocking the caller.
    pub fn log(&mut self, m: LogMessage) -> (r: CaptureOutcome)
        ensures
            final(self).service_name == old(self).service_name,
            final(self).level == old(self).level,
            final(self).log_to_stdout == old(self).log_to_stdout,
            final(self).log_to_rpc == old(self).log_to_rpc,
            ({
                if !passes(m.level, old(self).level) {
                    &&& !r.to_stdout
                    &&& !r.queued
                    &&& !r.dropped
                    &&& final(self).queue.items@ == old(self).queue.items@
                } else {
                    &&& r.to_stdout == old(self).log_to_stdout
                    &&& r.queued == (old(self).log_to_rpc && old(self).queue.items@.len()
                        < LOG_BUFFER_SIZE)
                    &&& r.dropped == (old(self).log_to_rpc && old(self).queue.items@.len()
                        >= LOG_BUFFER_SIZE)
                    &&& (r.queued ==> final(self).queue.items@ == old(self).queue.items@.push(m))
                    &&& (!r.queued ==> final(self).queue.items@ == old(self).queue.items@)
                }
            }),
    {
        if !self.enabled(m.level) {
            return CaptureOutcome { to_stdout: false, queued: false, dropped: false };
        }
        let to_stdout = self.log_to_stdout;
        if self.log_to_rpc {
            let queued = self.queue.try_enqueue(m);
            CaptureOutcome { to_stdout, queued, dropped: !queued }
        } else {
            CaptureOutcome { to_stdout, queued: false, dropped: false }
        }
    }
}

/// What the sender does after a failed write: reconnect only when the
/// backoff has elapsed; otherwise the record falls back to stdout.
pub enum SendPlan {
    /// The write succeeded; nothing more to do.
    Done,
    /// Attempt one reconnect, then resend or fall back.
    Reconnect,
    /// Too soon to reconnect: print the record to stdout.
    FallbackStdout,
}

/// The sender's decision after one write attempt.
pub fn send_plan(write_failed: bool, now_ms: u64, last_connect_ms: u64) -> (r: SendPlan)
    ensures
        !write_failed ==> r == SendPlan::Done,
        write_failed && now_ms > last_connect_ms && now_ms - last_connect_ms > RECONNECT_PERIOD_MS
            ==> r == SendPlan::Reconnect,
        write_failed && !(now_ms > last_connect_ms && now_ms - last_connect_ms
            > RECONNECT_PERIOD_MS) ==> r == SendPlan::FallbackStdout,
{
    if !write_failed {
        SendPlan::Done
    } else if should_reconnect(now_ms, last_connect_ms) {
        SendPlan::Reconnect
    } else {
        SendPlan::FallbackStdout
    }
}

} // verus!
