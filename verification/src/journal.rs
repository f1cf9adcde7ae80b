//! The log of the panel: when it is written, rotated and cleaned up.

use vstd::prelude::*;

use crate::rate;
use crate::text;

verus! {

/// How many bytes the log has at most before it is rotated.
pub const DEBUG_LOG_MAX: u64 = 8_388_608;

/// How long a rotated log is kept.
pub const DEBUG_LOG_KEEP_MS: u64 = 604_800_000;

/// How often there is a sign of life.
pub const HEARTBEAT_MS: u64 = 30_000;

/// The log.
#[derive(Clone, Copy, Debug, PartialEq, Eq, Structural)]
pub struct Journal {
    /// Bytes in the file.
    pub written: u64,
    /// When the state was last written.
    pub last_heartbeat: u64,
}

/// The state is due to be written.
pub open spec fn beats(active: bool, last: int, now: int) -> bool {
    active || now - last > HEARTBEAT_MS
}

/// A file is a log that was set aside and has been kept for long enough.
pub open spec fn expired(name: Seq<char>, age: int) -> bool {
    text::has_prefix(name, "speed-panel-debug.jsonl."@) && age > DEBUG_LOG_KEEP_MS
}

/// The bytes of the file after a line.
pub open spec fn size_after(written: u64, bytes: usize) -> u64 {
    rate::clip(
        (if written > DEBUG_LOG_MAX {
            0
        } else {
            written as int
        }) + bytes + 1,
    )
}

impl Journal {
    /// A log whose file has so many bytes.
    pub fn new(written: u64, mono_ms: u64) -> (r: Self)
        ensures
            r == (Journal { written, last_heartbeat: mono_ms }),
    {
        Journal { written, last_heartbeat: mono_ms }
    }

    /// A line of so many bytes is written, with the end of the line behind it. Whether the
    /// file is rotated before.
    pub fn line(&mut self, bytes: usize) -> (r: bool)
        ensures
            r == (old(self).written > DEBUG_LOG_MAX),
            *final(self) == (Journal {
                written: size_after(old(self).written, bytes),
                ..*old(self)
            }),
    {
        let rotate = self.written > DEBUG_LOG_MAX;
        if rotate {
            self.written = 0;
        }
        self.written = self.written.saturating_add(bytes as u64).saturating_add(1);
        rotate
    }

    /// Whether the state is written: always while something goes on, and else as a sign of
    /// life.
    pub fn state_due(&mut self, active: bool, mono_ms: u64) -> (r: bool)
        ensures
            r == (active || mono_ms - old(self).last_heartbeat > HEARTBEAT_MS),
            r == beats(active, old(self).last_heartbeat as int, mono_ms as int),
            *final(self) == (Journal {
                last_heartbeat: if r {
                    mono_ms
                } else {
                    old(self).last_heartbeat
                },
                ..*old(self)
            }),
    {
        let beat = mono_ms > self.last_heartbeat && mono_ms - self.last_heartbeat > HEARTBEAT_MS;
        if active || beat {
            self.last_heartbeat = mono_ms;
            true
        } else {
            false
        }
    }
}

/// Whether a file is a rotated log that has been kept long enough, by its name and its age.
pub fn rotated_log_expired(name: &str, age_ms: u64) -> (r: bool)
    ensures
        r == (text::has_prefix(name@, "speed-panel-debug.jsonl."@) && age_ms > DEBUG_LOG_KEEP_MS),
        r == expired(name@, age_ms as int),
{
    text::starts_with(name, "speed-panel-debug.jsonl.") && age_ms > DEBUG_LOG_KEEP_MS
}

/// The file never outgrows the limit by more than its last line.
pub proof fn law_log_stays_small(written: u64, bytes: usize)
    ensures
        size_after(written, bytes) <= DEBUG_LOG_MAX + bytes + 1,
{
}

/// The state is written while something goes on, and every half minute otherwise; a log that was
/// set aside is kept for a week, and one is set aside at eight megabytes.
pub proof fn law_how_long_logs_are_kept(
    active: bool,
    last: int,
    now: int,
    rest: Seq<char>,
    age: int,
    written: u64,
    bytes: usize,
)
    ensures
        beats(active, last, now) == (active || now - last > 30_000),
        expired("speed-panel-debug.jsonl."@ + rest, age) == (age > 7 * 86_400_000),
        written > 8 * 0x10_0000 && bytes < u64::MAX ==> size_after(written, bytes) == bytes + 1,
        written <= 8 * 0x10_0000 && written + bytes < u64::MAX ==> size_after(written, bytes)
            == written + bytes + 1,
{
    text::law_parts_of_a_text(
        Seq::empty(),
        "speed-panel-debug.jsonl."@,
        Seq::empty(),
        rest,
    );
}

} // verus!
