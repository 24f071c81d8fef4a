//! What the proxy's window shows: the connection counters, the unit in which byte
//! counts are written, and the bounded buffer of recent log lines.

use vstd::prelude::*;
use crate::banner::decimal_string;
use crate::text::{chars_of, decimal_text, trim_end, trim_end_range};

verus! {

broadcast use vstd::string::group_string_axioms;

/// Connection and traffic counters.
#[derive(Clone)]
pub struct ProxyStats {
    pub active_connections: usize,
    pub total_connections: usize,
    pub bytes_sent: u64,
    pub bytes_received: u64,
}

impl Default for ProxyStats {
    /// All counters at zero.
    fn default() -> (r: Self)
        ensures
            r.active_connections == 0,
            r.total_connections == 0,
            r.bytes_sent == 0,
            r.bytes_received == 0,
    {
        Self { active_connections: 0, total_connections: 0, bytes_sent: 0, bytes_received: 0 }
    }
}

/// The counters after a connection is accepted: one more active, one more in total.
pub open spec fn stats_opened(s: ProxyStats) -> ProxyStats {
    ProxyStats {
        active_connections: (s.active_connections + 1) as usize,
        total_connections: (s.total_connections + 1) as usize,
        ..s
    }
}

/// The counters after a connection ends: one fewer active, never below zero.
pub open spec fn stats_closed(s: ProxyStats) -> ProxyStats {
    ProxyStats {
        active_connections: if s.active_connections > 0 {
            (s.active_connections - 1) as usize
        } else {
            0
        },
        ..s
    }
}

impl ProxyStats {
    /// A connection was accepted.
    pub fn connection_opened(&mut self)
        requires
            old(self).active_connections < usize::MAX,
            old(self).total_connections < usize::MAX,
        ensures
            *final(self) == stats_opened(*old(self)),
            final(self).active_connections == old(self).active_connections + 1,
            final(self).total_connections == old(self).total_connections + 1,
            final(self).bytes_sent == old(self).bytes_sent,
            final(self).bytes_received == old(self).bytes_received,
    {
        self.active_connections = self.active_connections + 1;
        self.total_connections = self.total_connections + 1;
    }

    /// A connection ended (`saturating_sub(1)` of the active count).
    pub fn connection_closed(&mut self)
        ensures
            *final(self) == stats_closed(*old(self)),
            final(self).active_connections == (if old(self).active_connections > 0 {
                old(self).active_connections - 1
            } else {
                0
            }),
            final(self).total_connections == old(self).total_connections,
            final(self).bytes_sent == old(self).bytes_sent,
            final(self).bytes_received == old(self).bytes_received,
    {
        self.active_connections = if self.active_connections > 0 {
            self.active_connections - 1
        } else {
            0
        };
    }
}

/// A connection that opens and then ends leaves the active count as it was, adds one
/// to the total, and leaves the byte counts alone.
pub proof fn lemma_open_close_balance(s: ProxyStats)
    requires
        s.active_connections < usize::MAX,
        s.total_connections < usize::MAX,
    ensures
        stats_closed(stats_opened(s)).active_connections == s.active_connections,
        stats_closed(stats_opened(s)).total_connections == s.total_connections + 1,
        stats_closed(stats_opened(s)).bytes_sent == s.bytes_sent,
        stats_closed(stats_opened(s)).bytes_received == s.bytes_received,
{
}

/// What happens to the accept loop's counters.
pub enum ConnectionEvent {
    /// A client was accepted.
    Opened,
    /// The handling of an accepted client finished.
    Finished,
}

/// How many clients were accepted in `events`.
pub open spec fn opened_count(events: Seq<ConnectionEvent>) -> nat
    decreases events.len(),
{
    if events.len() == 0 {
        0
    } else {
        opened_count(events.drop_last()) + if events.last() is Opened {
            1nat
        } else {
            0nat
        }
    }
}

/// How many handlings finished in `events`.
pub open spec fn finished_count(events: Seq<ConnectionEvent>) -> nat
    decreases events.len(),
{
    if events.len() == 0 {
        0
    } else {
        finished_count(events.drop_last()) + if events.last() is Finished {
            1nat
        } else {
            0nat
        }
    }
}

/// The counters after `events`, each applied as the accept loop applies it.
pub open spec fn stats_after(s: ProxyStats, events: Seq<ConnectionEvent>) -> ProxyStats
    decreases events.len(),
{
    if events.len() == 0 {
        s
    } else {
        let before = stats_after(s, events.drop_last());
        match events.last() {
            ConnectionEvent::Opened => stats_opened(before),
            ConnectionEvent::Finished => stats_closed(before),
        }
    }
}

/// Over a whole run of the accept loop, starting from counters where no more are active
/// than were accepted, in which every finished handling belongs to a connection that is
/// active: the total counts the connections accepted, the active count is those accepted
/// and not finished, no more are active than were accepted, and the byte counts do not move.
pub proof fn lemma_run_counters(s: ProxyStats, events: Seq<ConnectionEvent>)
    requires
        s.active_connections <= s.total_connections,
        s.total_connections + opened_count(events) <= usize::MAX,
        forall|i: int|
            0 <= i <= events.len() ==> finished_count(#[trigger] events.take(i))
                <= s.active_connections + opened_count(events.take(i)),
    ensures
        stats_after(s, events).total_connections == s.total_connections + opened_count(events),
        stats_after(s, events).active_connections == s.active_connections + opened_count(events)
            - finished_count(events),
        stats_after(s, events).active_connections <= stats_after(s, events).total_connections,
        stats_after(s, events).bytes_sent == s.bytes_sent,
        stats_after(s, events).bytes_received == s.bytes_received,
    decreases events.len(),
{
    if events.len() > 0 {
        let prev = events.drop_last();
        assert forall|i: int| 0 <= i <= prev.len() implies finished_count(#[trigger] prev.take(i))
            <= s.active_connections + opened_count(prev.take(i)) by {
            assert(prev.take(i) =~= events.take(i));
        }
        lemma_run_counters(s, prev);
        assert(events.take(events.len() as int) =~= events);
    }
}

/// Units in which a byte count is shown.
pub enum ByteUnit {
    Bytes,
    Kilobytes,
    Megabytes,
    Gigabytes,
}

/// The number of bytes in a unit (powers of 1 024).
pub open spec fn unit_size(u: ByteUnit) -> int {
    match u {
        ByteUnit::Bytes => 1,
        ByteUnit::Kilobytes => 1024,
        ByteUnit::Megabytes => 1048576,
        ByteUnit::Gigabytes => 1073741824,
    }
}

/// The largest unit no greater than `bytes` (bytes below 1 KB).
pub fn byte_unit(bytes: u64) -> (r: ByteUnit)
    ensures
        r is Bytes ==> bytes < 1024,
        !(r is Bytes) ==> unit_size(r) <= bytes,
        !(r is Gigabytes) ==> bytes < unit_size(r) * 1024,
        r is Bytes <==> bytes < 1024,
        r is Kilobytes <==> 1024 <= bytes < 1048576,
        r is Megabytes <==> 1048576 <= bytes < 1073741824,
        r is Gigabytes <==> 1073741824 <= bytes,
{
    if bytes >= 1024 * 1024 * 1024 {
        ByteUnit::Gigabytes
    } else if bytes >= 1024 * 1024 {
        ByteUnit::Megabytes
    } else if bytes >= 1024 {
        ByteUnit::Kilobytes
    } else {
        ByteUnit::Bytes
    }
}

impl ByteUnit {
    /// The number of bytes in the unit.
    pub fn size(&self) -> (r: u64)
        ensures
            r == unit_size(*self),
            r == (match *self {
                ByteUnit::Bytes => 1u64,
                ByteUnit::Kilobytes => 1024u64,
                ByteUnit::Megabytes => 1048576u64,
                ByteUnit::Gigabytes => 1073741824u64,
            }),
    {
        match self {
            ByteUnit::Bytes => 1,
            ByteUnit::Kilobytes => 1024,
            ByteUnit::Megabytes => 1024 * 1024,
            ByteUnit::Gigabytes => 1024 * 1024 * 1024,
        }
    }

    /// The unit's suffix.
    pub fn suffix(&self) -> (r: &'static str)
        ensures
            r@ == (match *self {
                ByteUnit::Bytes => "B"@,
                ByteUnit::Kilobytes => "KB"@,
                ByteUnit::Megabytes => "MB"@,
                ByteUnit::Gigabytes => "GB"@,
            }),
    {
        match self {
            ByteUnit::Bytes => "B",
            ByteUnit::Kilobytes => "KB",
            ByteUnit::Megabytes => "MB",
            ByteUnit::Gigabytes => "GB",
        }
    }
}

/// A byte count below 1 KB as the window writes it: the number and ` B`.
pub fn format_whole_bytes(bytes: u64) -> (r: String)
    ensures
        r@ == decimal_text(bytes as nat) + " B"@,
{
    let mut text = decimal_string(bytes);
    text.append(" B");
    text
}

/// How many of the newest log lines the window shows.
pub const RECENT_LOG_LINES: usize = 100;

/// The index range of the log lines the window shows, oldest first: the newest 100 of a
/// buffer of `len` lines, or all of them when there are fewer.
pub fn recent_log_range(len: usize) -> (r: (usize, usize))
    ensures
        r.1 == len,
        r.0 == (if len > RECENT_LOG_LINES {
            len - RECENT_LOG_LINES
        } else {
            0
        }),
{
    if len > RECENT_LOG_LINES {
        (len - RECENT_LOG_LINES, len)
    } else {
        (0, len)
    }
}

/// The most log lines the window keeps.
pub const LOG_CAPACITY: usize = 1000;

/// How many of the oldest lines go when the buffer overflows.
pub const LOG_DROP: usize = 500;

/// The texts of a list of log lines.
pub open spec fn texts(v: Seq<String>) -> Seq<Seq<char>> {
    v.map_values(|s: String| s@)
}

/// The buffer after `line` is added: the line without trailing white space goes at the
/// end, and when that makes more than 1 000 lines the oldest 500 go.
pub open spec fn log_after(buffer: Seq<Seq<char>>, line: Seq<char>) -> Seq<Seq<char>> {
    let pushed = buffer.push(trim_end(line));
    if pushed.len() > LOG_CAPACITY {
        pushed.skip(LOG_DROP as int)
    } else {
        pushed
    }
}

/// Adds a log line to the window's buffer, as the log writer does with each record.
pub fn record_log_line(buffer: &mut Vec<String>, line: &str)
    ensures
        texts(final(buffer)@) == log_after(texts(old(buffer)@), line@),
{
    let chars = chars_of(line);
    let end = trim_end_range(&chars, 0, chars.len());
    assert(chars@.subrange(0, chars@.len() as int) =~= chars@);
    let kept = line.substring_char(0, end).to_string();
    let ghost before = texts(buffer@);
    buffer.push(kept);
    assert(texts(buffer@) =~= before.push(trim_end(line@)));
    if buffer.len() > LOG_CAPACITY {
        let rest = buffer.split_off(LOG_DROP);
        *buffer = rest;
        assert(texts(buffer@) =~= before.push(trim_end(line@)).skip(LOG_DROP as int));
    }
}

/// A buffer of at most 1 000 lines stays so, and the line just added is its last.
pub proof fn lemma_log_bounded(buffer: Seq<Seq<char>>, line: Seq<char>)
    requires
        buffer.len() <= LOG_CAPACITY,
    ensures
        log_after(buffer, line).len() <= LOG_CAPACITY,
        log_after(buffer, line).last() == trim_end(line),
{
}

} // verus!
