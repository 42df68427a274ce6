//! Log records and their rendered forms: the on-disk line with the fixed
//! stamp, service, pid, severity, target and body, and the plain stdout
//! fallback line.

use vstd::prelude::*;
use vstd::utf8::encode_utf8;

use crate::level::{level_bytes, push_level_bytes, Level};
use crate::lines::NL;
use crate::timestamp::{now_clamped, push_two_digits, three_digits, two_digits, Timestamp};

verus! {

/// One log record: stamped at creation, immutable afterwards.
pub struct LogMessage {
    pub timestamp: Timestamp,
    pub level: Level,
    pub target: String,
    pub message: String,
}

impl LogMessage {
    /// Build a record stamped with the current local time.
    pub fn new(level: Level, target: String, message: String) -> (r: LogMessage)
        ensures
            r.level == level,
            r.target == target,
            r.message == message,
            r.timestamp.valid(),
    {
        LogMessage { timestamp: now_clamped(), level, target, message }
    }
}

/// A record as the daemon ingests it: tagged with the authorized service
/// name and the peer's process id.
pub struct LogEvent {
    pub pid: u32,
    pub service_name: String,
    pub message: LogMessage,
}

/// Decimal digits of `n`, most significant first.
pub open spec fn dec_digits(n: int) -> Seq<u8>
    decreases n,
{
    if n < 10 {
        seq![(48 + n) as u8]
    } else {
        dec_digits(n / 10) + seq![(48 + n % 10) as u8]
    }
}

/// Append the decimal digits of `n`.
pub fn push_decimal(out: &mut Vec<u8>, n: u32)
    ensures
        final(out)@ == old(out)@ + dec_digits(n as int),
    decreases n,
{
    if n < 10 {
        out.push(48 + n as u8);
        proof {
            assert(out@ =~= old(out)@ + dec_digits(n as int));
        }
    } else {
        push_decimal(out, n / 10);
        out.push(48 + (n % 10) as u8);
        proof {
            assert(out@ =~= old(out)@ + dec_digits(n as int));
        }
    }
}

/// The line stamp of a rendered record: day, month and year, then the time
/// of day with milliseconds.
pub open spec fn line_stamp(t: Timestamp) -> Seq<u8> {
    two_digits(t.day as int) + seq![45u8] + two_digits(t.month as int) + seq![45u8]
        + crate::timestamp::four_digits(t.year as int) + seq![32u8] + two_digits(t.hour as int)
        + seq![58u8] + two_digits(t.minute as int) + seq![58u8] + two_digits(t.second as int)
        + seq![46u8] + three_digits(t.millis as int)
}

/// A record rendered as one on-disk log line:
/// `<stamp> <service>#<pid> [<LEVEL>] <target> > <message>` and the
/// terminating newline.
pub open spec fn render_line_spec(ev: LogEvent) -> Seq<u8> {
    seq![60u8] + line_stamp(ev.message.timestamp) + seq![62u8, 32u8] + encode_utf8(
        ev.service_name@,
    ) + seq![35u8] + dec_digits(ev.pid as int) + seq![32u8, 91u8] + level_bytes(ev.message.level)
        + seq![93u8, 32u8] + encode_utf8(ev.message.target@) + seq![32u8, 62u8, 32u8]
        + encode_utf8(ev.message.message@) + seq![NL]
}

/// Append the bytes of a string.
fn push_str_bytes(out: &mut Vec<u8>, s: &String)
    ensures
        final(out)@ == old(out)@ + encode_utf8(s@),
{
    let b = s.as_str().as_bytes_vec();
    let mut k: usize = 0;
    while k < b.len()
        invariant
            k <= b@.len(),
            b@ == encode_utf8(s@),
            out@ == old(out)@ + b@.take(k as int),
        decreases b@.len() - k,
    {
        out.push(b[k]);
        proof {
            assert(old(out)@ + b@.take(k + 1) =~= (old(out)@ + b@.take(k as int)).push(
                b@[k as int],
            ));
        }
        k = k + 1;
    }
    proof {
        assert(b@.take(b@.len() as int) =~= b@);
    }
}

/// Append a millisecond count, zero-padded to three digits.
fn push_three_digits(out: &mut Vec<u8>, v: u32)
    requires
        v <= 999,
    ensures
        final(out)@ == old(out)@ + three_digits(v as int),
{
    out.push((48 + v / 100) as u8);
    out.push((48 + (v / 10) % 10) as u8);
    out.push((48 + v % 10) as u8);
    proof {
        assert(out@ =~= old(out)@ + three_digits(v as int));
    }
}

/// Render a record into its on-disk line.
#[verifier::rlimit(100)]
pub fn render_line(ev: &LogEvent) -> (r: Vec<u8>)
    requires
        ev.message.timestamp.valid(),
    ensures
        r@ == render_line_spec(*ev),
{
    let t = &ev.message.timestamp;
    let mut out: Vec<u8> = Vec::new();
    out.push(60);
    push_two_digits(&mut out, t.day);
    out.push(45);
    push_two_digits(&mut out, t.month);
    out.push(45);
    out.push((48 + t.year / 1000) as u8);
    out.push((48 + (t.year / 100) % 10) as u8);
    out.push((48 + (t.year / 10) % 10) as u8);
    out.push((48 + t.year % 10) as u8);
    out.push(32);
    push_two_digits(&mut out, t.hour);
    out.push(58);
    push_two_digits(&mut out, t.minute);
    out.push(58);
    push_two_digits(&mut out, t.second);
    out.push(46);
    push_three_digits(&mut out, t.millis);
    out.push(62);
    out.push(32);
    push_str_bytes(&mut out, &ev.service_name);
    out.push(35);
    push_decimal(&mut out, ev.pid);
    out.push(32);
    out.push(91);
    push_level_bytes(&mut out, ev.message.level);
    out.push(93);
    out.push(32);
    push_str_bytes(&mut out, &ev.message.target);
    out.push(32);
    out.push(62);
    out.push(32);
    push_str_bytes(&mut out, &ev.message.message);
    out.push(NL);
    proof {
        assert(out@ =~= render_line_spec(*ev));
    }
    out
}

/// The label a severity carries on the stdout fallback path.
pub open spec fn stdout_level_bytes(l: Level) -> Seq<u8> {
    match l {
        Level::Warn => seq![87u8, 65u8, 82u8, 78u8, 73u8, 78u8, 71u8],
        _ => level_bytes(l),
    }
}

/// A record rendered for the stdout fallback:
/// `<LEVEL>: <target> > <message>`.
pub open spec fn stdout_line_spec(m: LogMessage) -> Seq<u8> {
    stdout_level_bytes(m.level) + seq![58u8, 32u8] + encode_utf8(m.target@) + seq![
        32u8,
        62u8,
        32u8,
    ] + encode_utf8(m.message@)
}

/// Render a record for the stdout fallback.
pub fn stdout_line(m: &LogMessage) -> (r: Vec<u8>)
    ensures
        r@ == stdout_line_spec(*m),
{
    let mut out: Vec<u8> = Vec::new();
    match m.level {
        Level::Warn => {
            out.push(87);
            out.push(65);
            out.push(82);
            out.push(78);
            out.push(73);
            out.push(78);
            out.push(71);
            proof {
                assert(out@ =~= stdout_level_bytes(m.level));
            }
        },
        _ => {
            push_level_bytes(&mut out, m.level);
        },
    }
    out.push(58);
    out.push(32);
    push_str_bytes(&mut out, &m.target);
    out.push(32);
    out.push(62);
    out.push(32);
    push_str_bytes(&mut out, &m.message);
    proof {
        assert(out@ =~= stdout_line_spec(*m));
    }
    out
}

} // verus!
