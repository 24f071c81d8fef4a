use tg_ws_proxy::stats::{format_whole_bytes, recent_log_range, RECENT_LOG_LINES, byte_unit, record_log_line, ByteUnit, ProxyStats, LOG_CAPACITY, LOG_DROP};

#[test]
fn stats_start_at_zero() {
    let s = ProxyStats::default();
    assert_eq!(s.active_connections, 0);
    assert_eq!(s.total_connections, 0);
    assert_eq!(s.bytes_sent, 0);
    assert_eq!(s.bytes_received, 0);
}

#[test]
fn open_and_close_balance() {
    let mut s = ProxyStats::default();
    s.connection_opened();
    s.connection_opened();
    assert_eq!(s.active_connections, 2);
    assert_eq!(s.total_connections, 2);
    s.connection_closed();
    assert_eq!(s.active_connections, 1);
    assert_eq!(s.total_connections, 2);
    s.connection_closed();
    s.connection_closed();
    assert_eq!(s.active_connections, 0);
    assert_eq!(s.total_connections, 2);
}

#[test]
fn byte_units() {
    assert!(matches!(byte_unit(0), ByteUnit::Bytes));
    assert!(matches!(byte_unit(1023), ByteUnit::Bytes));
    assert!(matches!(byte_unit(1024), ByteUnit::Kilobytes));
    assert!(matches!(byte_unit(1024 * 1024 - 1), ByteUnit::Kilobytes));
    assert!(matches!(byte_unit(1024 * 1024), ByteUnit::Megabytes));
    assert!(matches!(byte_unit(1024 * 1024 * 1024), ByteUnit::Gigabytes));
    assert!(matches!(byte_unit(u64::MAX), ByteUnit::Gigabytes));
    assert_eq!(ByteUnit::Kilobytes.size(), 1024);
    assert_eq!(ByteUnit::Gigabytes.size(), 1 << 30);
    assert_eq!(ByteUnit::Megabytes.suffix(), "MB");
    assert_eq!(ByteUnit::Bytes.suffix(), "B");
}

#[test]
fn log_lines_are_trimmed_at_the_end() {
    let mut buf = Vec::new();
    record_log_line(&mut buf, "  hello world \n");
    assert_eq!(buf, vec!["  hello world".to_string()]);
}

#[test]
fn log_buffer_drops_oldest_half() {
    assert_eq!(LOG_CAPACITY, 1000);
    assert_eq!(LOG_DROP, 500);
    let mut buf = Vec::new();
    for i in 0..1000 {
        record_log_line(&mut buf, &format!("line {}", i));
    }
    assert_eq!(buf.len(), 1000);
    record_log_line(&mut buf, "line 1000\n");
    assert_eq!(buf.len(), 501);
    assert_eq!(buf[0], "line 500");
    assert_eq!(buf[500], "line 1000");
    for i in 0..5000 {
        record_log_line(&mut buf, &format!("more {}", i));
        assert!(buf.len() <= 1000);
    }
    assert_eq!(buf.last().unwrap(), "more 4999");
}

#[test]
fn recent_lines_window() {
    assert_eq!(RECENT_LOG_LINES, 100);
    assert_eq!(recent_log_range(0), (0, 0));
    assert_eq!(recent_log_range(42), (0, 42));
    assert_eq!(recent_log_range(100), (0, 100));
    assert_eq!(recent_log_range(1000), (900, 1000));
}

#[test]
fn whole_bytes_text() {
    assert_eq!(format_whole_bytes(0), "0 B");
    assert_eq!(format_whole_bytes(1023), "1023 B");
}

#[test]
fn counters_over_a_run() {
    let mut s = ProxyStats::default();
    let mut open = 0usize;
    let mut total = 0usize;
    // open, open, finish, open, finish, finish, open
    for ev in [true, true, false, true, false, false, true] {
        if ev {
            s.connection_opened();
            open += 1;
            total += 1;
        } else {
            s.connection_closed();
            open -= 1;
        }
        assert_eq!(s.active_connections, open);
        assert_eq!(s.total_connections, total);
        assert!(s.active_connections <= s.total_connections);
        assert_eq!(s.bytes_sent, 0);
        assert_eq!(s.bytes_received, 0);
    }
}
