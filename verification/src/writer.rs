//! The writer's accounting: each record renders into one line, the line's
//! byte length is charged to the running counter, and once the counter
//! reaches the threshold the file is due for rotation and the counter
//! restarts.

use vstd::prelude::*;

use crate::level::LevelFilter;
use crate::log_message::{render_line, render_line_spec, LogEvent};

verus! {

/// Configuration of the logging daemon.
pub struct Args {
    /// The daemon's own log filter.
    pub log_level: LevelFilter,
    /// Path of the live log file.
    pub log_location: String,
    /// Byte threshold that triggers a rotation.
    pub num_bytes_rotate: u64,
    /// How many rotated files retention keeps.
    pub keep_num_files: usize,
}

/// The live file's byte accountant.
pub struct Writer {
    pub log_location: String,
    pub current_file_num_bytes: u64,
    pub max_file_len: u64,
}

impl Writer {
    pub fn new(args: &Args) -> (r: Writer)
        ensures
            r.log_location@ == args.log_location@,
            r.current_file_num_bytes == 0,
            r.max_file_len == args.num_bytes_rotate,
    {
        Writer {
            log_location: args.log_location.clone(),
            current_file_num_bytes: 0,
            max_file_len: args.num_bytes_rotate,
        }
    }

    /// Render a record, charge its length, and decide rotation: the second
    /// component is true exactly when the counter, with this line added,
    /// reaches the threshold; the counter then restarts at zero.
    pub fn log_message(&mut self, ev: &LogEvent) -> (r: (Vec<u8>, bool))
        requires
            ev.message.timestamp.valid(),
        ensures
            r.0@ == render_line_spec(*ev),
            ({
                let charged = if old(self).current_file_num_bytes + r.0@.len() <= u64::MAX {
                    old(self).current_file_num_bytes + r.0@.len()
                } else {
                    u64::MAX as int
                };
                &&& r.1 == (charged >= old(self).max_file_len)
                &&& final(self).current_file_num_bytes == (if r.1 {
                    0int
                } else {
                    charged
                })
            }),
            final(self).max_file_len == old(self).max_file_len,
            final(self).log_location == old(self).log_location,
    {
        let line = render_line(ev);
        let len64 = line.len() as u64;
        let charged = if u64::MAX - self.current_file_num_bytes >= len64 {
            self.current_file_num_bytes + len64
        } else {
            u64::MAX
        };
        if charged >= self.max_file_len {
            self.current_file_num_bytes = 0;
            (line, true)
        } else {
            self.current_file_num_bytes = charged;
            (line, false)
        }
    }
}

} // verus!
