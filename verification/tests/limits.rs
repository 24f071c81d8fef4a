use tg_ws_proxy::limits::{
    accept_failure, auto_max_connections, connection_limit, log_level, nofile_limit_from_limits,
    AcceptFailure, DEFAULT_NOFILE_LIMIT, EMFILE, ENFILE,
};

const LIMITS: &str = "Limit                     Soft Limit           Hard Limit           Units     \n\
Max cpu time              unlimited            unlimited            seconds   \n\
Max open files            65535                524288               files     \n\
Max locked memory         8388608              8388608              bytes     \n";

#[test]
fn reads_soft_open_file_limit() {
    assert_eq!(nofile_limit_from_limits(LIMITS), 65535);
}

#[test]
fn unlimited_open_files() {
    let text = "Max open files            unlimited            unlimited            files\n";
    assert_eq!(nofile_limit_from_limits(text), usize::MAX);
}

#[test]
fn missing_or_unreadable_limit_defaults() {
    assert_eq!(DEFAULT_NOFILE_LIMIT, 1024);
    assert_eq!(nofile_limit_from_limits(""), 1024);
    assert_eq!(nofile_limit_from_limits("Max cpu time unlimited unlimited seconds"), 1024);
    assert_eq!(nofile_limit_from_limits("Max open files lots 4096 files"), 1024);
    assert_eq!(nofile_limit_from_limits("Max open files"), 1024);
}

#[test]
fn first_readable_line_wins() {
    let text = "Max open files x y files\r\nMax open files 300 400 files\r\nMax open files 500 600 files";
    assert_eq!(nofile_limit_from_limits(text), 300);
}

#[test]
fn auto_max_connections_formula() {
    // reserved = 1 + 4 * 4 * 2 + 32 = 65; (1024 - 65) / 2 = 479
    assert_eq!(auto_max_connections(1024, 4, 4), 479);
    assert_eq!(auto_max_connections(usize::MAX, 4, 4), 512);
    assert_eq!(auto_max_connections(40, 4, 4), 4);
    assert_eq!(auto_max_connections(75, 4, 4), 5);
    assert_eq!(auto_max_connections(73, 4, 4), 4);
}

#[test]
fn auto_max_connections_is_monotone() {
    let mut prev = 0;
    for fd in 0..2000usize {
        let v = auto_max_connections(fd, 3, 6);
        assert!(v >= 4);
        assert!(v >= prev);
        if v > 4 {
            assert!(1 + 3 * 6 * 2 + 32 + 2 * v <= fd);
        }
        prev = v;
    }
}

#[test]
fn requested_connection_cap() {
    let safe = auto_max_connections(1024, 4, 4);
    let l = connection_limit(None, 1024, 4, 2);
    assert_eq!(l.max_connections, safe);
    assert_eq!(l.above_safe_limit, None);
    let l = connection_limit(Some(100), 1024, 4, 2);
    assert_eq!(l.max_connections, 100);
    assert_eq!(l.above_safe_limit, None);
    let l = connection_limit(Some(10_000), 1024, 4, 2);
    assert_eq!(l.max_connections, 10_000);
    assert_eq!(l.above_safe_limit, Some(safe));
}

#[test]
fn log_levels() {
    assert_eq!(log_level(true, true), "off");
    assert_eq!(log_level(true, false), "off");
    assert_eq!(log_level(false, true), "debug");
    assert_eq!(log_level(false, false), "info");
}

#[test]
fn accept_backoff() {
    assert_eq!(EMFILE, 24);
    assert_eq!(ENFILE, 23);
    assert!(matches!(accept_failure(Some(24)), AcceptFailure::OutOfDescriptors));
    assert!(matches!(accept_failure(Some(23)), AcceptFailure::OutOfDescriptors));
    assert!(matches!(accept_failure(Some(104)), AcceptFailure::Other));
    assert!(matches!(accept_failure(None), AcceptFailure::Other));
    assert_eq!(accept_failure(Some(24)).retry_delay_ms(), 500);
    assert_eq!(accept_failure(None).retry_delay_ms(), 50);
}
