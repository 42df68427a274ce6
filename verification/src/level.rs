//! Severities and the level filter. A record passes a filter exactly when
//! its severity rank does not exceed the filter's rank; `Off` admits
//! nothing.

use vstd::prelude::*;

verus! {

/// Severity of a log record.
#[derive(Debug, Clone, Copy, PartialEq, Eq, Structural)]
pub enum Level {
    Error,
    Warn,
    Info,
    Debug,
    Trace,
}

/// The most verbose severity a sink lets through.
#[derive(Debug, Clone, Copy, PartialEq, Eq, Structural)]
pub enum LevelFilter {
    Off,
    Error,
    Warn,
    Info,
    Debug,
    Trace,
}

/// Rank of a severity; more verbose severities rank higher.
pub open spec fn level_rank(l: Level) -> int {
    match l {
        Level::Error => 1,
        Level::Warn => 2,
        Level::Info => 3,
        Level::Debug => 4,
        Level::Trace => 5,
    }
}

/// Rank of a filter; `Off` ranks below every severity.
pub open spec fn filter_rank(f: LevelFilter) -> int {
    match f {
        LevelFilter::Off => 0,
        LevelFilter::Error => 1,
        LevelFilter::Warn => 2,
        LevelFilter::Info => 3,
        LevelFilter::Debug => 4,
        LevelFilter::Trace => 5,
    }
}

/// A record of severity `l` passes filter `f` exactly when its rank does
/// not exceed the filter's.
pub open spec fn passes(l: Level, f: LevelFilter) -> bool {
    level_rank(l) <= filter_rank(f)
}

/// Decide `passes` on concrete values.
pub fn enabled(l: Level, f: LevelFilter) -> (r: bool)
    ensures
        r == passes(l, f),
{
    let lr: u32 = match l {
        Level::Error => 1,
        Level::Warn => 2,
        Level::Info => 3,
        Level::Debug => 4,
        Level::Trace => 5,
    };
    let fr: u32 = match f {
        LevelFilter::Off => 0,
        LevelFilter::Error => 1,
        LevelFilter::Warn => 2,
        LevelFilter::Info => 3,
        LevelFilter::Debug => 4,
        LevelFilter::Trace => 5,
    };
    lr <= fr
}

/// The label a severity carries inside a rendered log line.
pub open spec fn level_bytes(l: Level) -> Seq<u8> {
    match l {
        Level::Error => seq![69u8, 82u8, 82u8, 79u8, 82u8],
        Level::Warn => seq![87u8, 65u8, 82u8, 78u8],
        Level::Info => seq![73u8, 78u8, 70u8, 79u8],
        Level::Debug => seq![68u8, 69u8, 66u8, 85u8, 71u8],
        Level::Trace => seq![84u8, 82u8, 65u8, 67u8, 69u8],
    }
}

/// Append a severity's label.
pub fn push_level_bytes(out: &mut Vec<u8>, l: Level)
    ensures
        final(out)@ == old(out)@ + level_bytes(l),
{
    match l {
        Level::Error => {
            out.push(69);
            out.push(82);
            out.push(82);
            out.push(79);
            out.push(82);
        },
        Level::Warn => {
            out.push(87);
            out.push(65);
            out.push(82);
            out.push(78);
        },
        Level::Info => {
            out.push(73);
            out.push(78);
            out.push(70);
            out.push(79);
        },
        Level::Debug => {
            out.push(68);
            out.push(69);
            out.push(66);
            out.push(85);
            out.push(71);
        },
        Level::Trace => {
            out.push(84);
            out.push(82);
            out.push(65);
            out.push(67);
            out.push(69);
        },
    }
    proof {
        assert(out@ =~= old(out)@ + level_bytes(l));
    }
}

/// A request to change one service's filter.
pub struct SetLogLevel {
    pub service_name: String,
    pub level: LevelFilter,
}

} // verus!
