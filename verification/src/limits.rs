//! File-descriptor budget and the other start-up decisions of the proxy: the soft
//! open-file limit read from `/proc/self/limits`, the default connection cap derived
//! from it, the log level, and the pause after a failed `accept`.

use vstd::prelude::*;
use crate::text::{chars_of, has_prefix, lemma_lines_step, line_at, lines, nth_word, parse_unsigned, parse_unsigned_range, range_equals, range_starts_with, find_in, words};

verus! {

broadcast use vstd::string::group_string_axioms;

/// The open-file limit assumed where none can be read.
pub const DEFAULT_NOFILE_LIMIT: usize = 1024;

/// The soft limit that one line of `/proc/self/limits` gives: for the line that starts
/// with `Max open files`, its fourth word, `unlimited` meaning `usize::MAX`.
pub open spec fn nofile_from_line(line: Seq<char>) -> Option<int> {
    let w = words(line);
    if has_prefix(line, "Max open files"@) && w.len() > 3 {
        if w[3] == "unlimited"@ {
            Some(usize::MAX as int)
        } else {
            parse_unsigned(w[3], usize::MAX as int)
        }
    } else {
        None
    }
}

/// The limit that the first line giving one gives, else the default.
pub open spec fn nofile_from_lines(ls: Seq<Seq<char>>) -> int
    decreases ls.len(),
{
    if ls.len() == 0 {
        DEFAULT_NOFILE_LIMIT as int
    } else {
        match nofile_from_line(ls[0]) {
            Some(n) => n,
            None => nofile_from_lines(ls.drop_first()),
        }
    }
}

/// The soft per-process open-file limit that the text of `/proc/self/limits` gives: the
/// soft column of the first `Max open files` line that holds a number or `unlimited`
/// (`usize::MAX`); 1 024 where there is none.
pub fn nofile_limit_from_limits(content: &str) -> (r: usize)
    ensures
        r == nofile_from_lines(lines(content@)),
{
    let chars = chars_of(content);
    let prefix = chars_of("Max open files");
    let unlimited = chars_of("unlimited");
    let len = chars.len();
    let mut pos: usize = 0;
    assert(chars@.subrange(0, len as int) =~= chars@);
    while pos < len
        invariant
            len == chars@.len(),
            chars@ == content@,
            pos <= len,
            prefix@ == "Max open files"@,
            unlimited@ == "unlimited"@,
            nofile_from_lines(lines(chars@)) == nofile_from_lines(
                lines(chars@.subrange(pos as int, len as int)),
            ),
        decreases len - pos,
    {
        let j = find_in(&chars, '\n', pos, len);
        proof {
            lemma_lines_step(chars@, pos as int, j as int);
        }
        let mut end = j;
        if j < len && j > pos && chars[j - 1] == '\r' {
            end = j - 1;
        }
        let ghost line = line_at(chars@, pos as int, j as int);
        assert(chars@.subrange(pos as int, end as int) =~= line);
        if range_starts_with(&chars, pos, end, &prefix) {
            match nth_word(&chars, pos, end, 3) {
                Some((a, b)) => {
                    if range_equals(&chars, a, b, &unlimited) {
                        return usize::MAX;
                    }
                    match parse_unsigned_range(&chars, a, b, usize::MAX as u64) {
                        Some(n) => {
                            return n as usize;
                        },
                        None => {},
                    }
                },
                None => {},
            }
        }
        assert(nofile_from_line(line) is None);
        if j < len {
            let ghost rest = lines(chars@.subrange(j + 1, len as int));
            assert((seq![line] + rest)[0] == line);
            assert((seq![line] + rest).drop_first() =~= rest);
            assert(nofile_from_lines(lines(chars@.subrange(pos as int, len as int)))
                == nofile_from_lines(lines(chars@.subrange(j + 1, len as int))));
            pos = j + 1;
        } else {
            assert(lines(chars@.subrange(len as int, len as int)) =~= seq![]);
            assert(seq![line].drop_first() =~= Seq::<Seq<char>>::empty());
            assert(nofile_from_lines(lines(chars@.subrange(pos as int, len as int)))
                == nofile_from_lines(lines(chars@.subrange(len as int, len as int))));
            pos = len;
        }
    }
    assert(lines(chars@.subrange(len as int, len as int)) =~= seq![]);
    DEFAULT_NOFILE_LIMIT
}

/// Descriptors kept aside from client connections: the listener, an idle and a refilling
/// socket for each pool slot of each data-centre bucket, and 32 for the runtime and stdio.
pub open spec fn reserved_fds(pool_size: int, dc_buckets: int) -> int {
    1 + pool_size * dc_buckets * 2 + 32
}

/// The default connection cap: half of the descriptors left after the reserve (each
/// connection holds a client socket and an outbound one), at least 4; 512 where the
/// limit is unlimited.
pub open spec fn auto_max_connections_spec(fd_limit: int, pool_size: int, dc_buckets: int) -> int {
    if fd_limit == usize::MAX as int {
        512
    } else {
        let free = if fd_limit >= reserved_fds(pool_size, dc_buckets) {
            fd_limit - reserved_fds(pool_size, dc_buckets)
        } else {
            0
        };
        if free / 2 > 4 {
            free / 2
        } else {
            4
        }
    }
}

/// Compute a safe default for the maximum number of concurrent connections given the
/// system FD limit and pool configuration:
/// `max_connections = (fd_limit − reserved) / 2`, at least 4, 512 when unlimited.
pub fn auto_max_connections(fd_limit: usize, pool_size: usize, dc_buckets: usize) -> (r: usize)
    requires
        fd_limit != usize::MAX ==> reserved_fds(pool_size as int, dc_buckets as int)
            <= usize::MAX,
    ensures
        r == auto_max_connections_spec(fd_limit as int, pool_size as int, dc_buckets as int),
        fd_limit == usize::MAX ==> r == 512,
        fd_limit != usize::MAX ==> r == (if fd_limit >= 1 + pool_size * dc_buckets * 2 + 32 && (
        fd_limit - (1 + pool_size * dc_buckets * 2 + 32)) / 2 > 4 {
            (fd_limit - (1 + pool_size * dc_buckets * 2 + 32)) / 2
        } else {
            4
        }),
{
    proof {
        lemma_auto_max_connections_formula(fd_limit as int, pool_size as int, dc_buckets as int);
    }
    if fd_limit == usize::MAX {
        return 512;
    }
    assert(0 <= pool_size * dc_buckets <= pool_size * dc_buckets * 2) by (nonlinear_arith);
    let reserved = 1 + pool_size * dc_buckets * 2 + 32;
    let free = if fd_limit >= reserved {
        fd_limit - reserved
    } else {
        0
    };
    if free / 2 > 4 {
        free / 2
    } else {
        4
    }
}

/// The default cap is never below 4.
pub proof fn lemma_auto_max_connections_floor(fd_limit: int, pool_size: int, dc_buckets: int)
    ensures
        auto_max_connections_spec(fd_limit, pool_size, dc_buckets) >= 4,
{
}

/// Above the floor of 4, the default cap keeps the reserve and two descriptors per
/// connection within a bounded limit.
pub proof fn lemma_auto_max_connections_budget(fd_limit: int, pool_size: int, dc_buckets: int)
    requires
        fd_limit != usize::MAX as int,
        auto_max_connections_spec(fd_limit, pool_size, dc_buckets) > 4,
    ensures
        (1 + pool_size * dc_buckets * 2 + 32) + 2 * auto_max_connections_spec(
            fd_limit,
            pool_size,
            dc_buckets,
        ) <= fd_limit,
{
    lemma_auto_max_connections_formula(fd_limit, pool_size, dc_buckets);
}

/// The default cap, written out: 512 for an unlimited descriptor table; otherwise half of
/// the descriptors left once the listener, two per pool slot of each bucket and 32 for the
/// runtime are set aside, and at least 4.
pub proof fn lemma_auto_max_connections_formula(fd_limit: int, pool_size: int, dc_buckets: int)
    ensures
        fd_limit == usize::MAX as int ==> auto_max_connections_spec(fd_limit, pool_size, dc_buckets)
            == 512,
        fd_limit != usize::MAX as int ==> auto_max_connections_spec(fd_limit, pool_size, dc_buckets)
            == (if fd_limit >= 1 + pool_size * dc_buckets * 2 + 32 && (fd_limit - (1 + pool_size
            * dc_buckets * 2 + 32)) / 2 > 4 {
            (fd_limit - (1 + pool_size * dc_buckets * 2 + 32)) / 2
        } else {
            4
        }),
{
}

/// A larger bounded limit never gives a smaller default cap.
pub proof fn lemma_auto_max_connections_monotone(
    fd1: int,
    fd2: int,
    pool_size: int,
    dc_buckets: int,
)
    requires
        fd1 <= fd2 < usize::MAX as int,
    ensures
        auto_max_connections_spec(fd1, pool_size, dc_buckets) <= auto_max_connections_spec(
            fd2,
            pool_size,
            dc_buckets,
        ),
{
    let r = reserved_fds(pool_size, dc_buckets);
    if fd1 >= r {
        assert((fd1 - r) / 2 <= (fd2 - r) / 2) by (nonlinear_arith)
            requires
                fd1 - r <= fd2 - r,
                0 <= fd1 - r,
        ;
    }
}

/// The connection cap in force and whether the requested one exceeds the safe default.
pub struct ConnectionLimit {
    pub max_connections: usize,
    /// The safe default, where a requested cap exceeds it.
    pub above_safe_limit: Option<usize>,
}

/// The cap in force: the requested one where there is one (reporting the safe default
/// when the request exceeds it), else the safe default. `dc_count` data centres use two
/// pool buckets each (non-media and media).
pub fn connection_limit(requested: Option<usize>, fd_limit: usize, pool_size: usize, dc_count: usize) -> (r: ConnectionLimit)
    requires
        dc_count * 2 <= usize::MAX,
        fd_limit != usize::MAX ==> reserved_fds(pool_size as int, dc_count * 2) <= usize::MAX,
    ensures
        ({
            let safe = auto_max_connections_spec(fd_limit as int, pool_size as int, dc_count * 2);
            match requested {
                Some(n) => r.max_connections == n && (if n > safe {
                    r.above_safe_limit == Some(safe as usize)
                } else {
                    r.above_safe_limit is None
                }),
                None => r.max_connections == safe && r.above_safe_limit is None,
            }
        }),
{
    let dc_buckets = dc_count * 2;
    let safe = auto_max_connections(fd_limit, pool_size, dc_buckets);
    match requested {
        Some(n) => {
            if n > safe {
                ConnectionLimit { max_connections: n, above_safe_limit: Some(safe) }
            } else {
                ConnectionLimit { max_connections: n, above_safe_limit: None }
            }
        },
        None => ConnectionLimit { max_connections: safe, above_safe_limit: None },
    }
}

/// The log level: `off` when quiet, else `debug` when verbose, else `info`.
pub fn log_level(quiet: bool, verbose: bool) -> (r: &'static str)
    ensures
        r@ == (if quiet {
            "off"@
        } else if verbose {
            "debug"@
        } else {
            "info"@
        }),
{
    if quiet {
        "off"
    } else if verbose {
        "debug"
    } else {
        "info"
    }
}

/// `EMFILE`: the process is out of file descriptors.
pub const EMFILE: i32 = 24;

/// `ENFILE`: the system is out of file descriptors.
pub const ENFILE: i32 = 23;

/// How a failed `accept` is handled.
pub enum AcceptFailure {
    /// Out of file descriptors: wait longer for some to be freed.
    OutOfDescriptors,
    /// Any other error.
    Other,
}

/// The kind of a failed `accept`, from its OS error number.
pub fn accept_failure(raw_os_error: Option<i32>) -> (r: AcceptFailure)
    ensures
        r is OutOfDescriptors <==> (raw_os_error == Some(EMFILE) || raw_os_error == Some(ENFILE)),
{
    match raw_os_error {
        Some(code) => {
            if code == EMFILE || code == ENFILE {
                AcceptFailure::OutOfDescriptors
            } else {
                AcceptFailure::Other
            }
        },
        None => AcceptFailure::Other,
    }
}

impl AcceptFailure {
    /// Milliseconds to wait before accepting again: 500 when out of descriptors, else 50.
    pub fn retry_delay_ms(&self) -> (r: u64)
        ensures
            r == (if *self is OutOfDescriptors {
                500u64
            } else {
                50u64
            }),
    {
        match self {
            AcceptFailure::OutOfDescriptors => 500,
            AcceptFailure::Other => 50,
        }
    }
}

} // verus!
