use tg_ws_proxy::banner::{config_display, decimal_string, proxy_link};

#[test]
fn decimal_strings() {
    assert_eq!(decimal_string(0), "0");
    assert_eq!(decimal_string(7), "7");
    assert_eq!(decimal_string(1443), "1443");
    assert_eq!(decimal_string(u64::MAX), u64::MAX.to_string());
}

#[test]
fn telegram_link() {
    assert_eq!(
        proxy_link("192.168.1.10", 1443, "00112233445566778899aabbccddeeff"),
        "tg://proxy?server=192.168.1.10&port=1443&secret=dd00112233445566778899aabbccddeeff"
    );
    assert_eq!(proxy_link("h", 0, ""), "tg://proxy?server=h&port=0&secret=dd");
}

#[test]
fn window_configuration_lines() {
    assert_eq!(
        config_display("127.0.0.1", 1443, "abc", false, 479),
        "Listening: 127.0.0.1:1443\nSecret: abc\nMax connections: 479"
    );
    assert_eq!(
        config_display("0.0.0.0", 9050, "abc", true, 512),
        "Listening: 0.0.0.0:9050\nSecret: abc\n\u{26a0} TLS verification: DISABLED\nMax connections: 512"
    );
}
