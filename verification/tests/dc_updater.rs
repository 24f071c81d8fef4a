use std::collections::HashMap;
use std::time::{Duration, SystemTime};

use tg_ws_proxy::dc_updater::{
    dc_changes, dc_dns_domains, dc_ip_source, dc_ips_from_parsed, dc_ips_or_fallback,
    dns_dc_ips, fallback_dc_ips, fetch_start, fetch_step, is_success_status, parse_proxy_config,
    response_dc_ips, DcConfig, DcUpdate, FetchDecision, FetchStage, DC_IP_SOURCE_COUNT,
};
use tg_ws_proxy::json::JsonValue;

fn table(entries: &[(u32, &str)]) -> HashMap<u32, String> {
    entries.iter().map(|(k, v)| (*k, v.to_string())).collect()
}

#[test]
fn test_fallback_ips() {
    let ips = fallback_dc_ips();
    assert!(ips.len() >= 5);
    assert!(ips.contains_key(&1));
    assert!(ips.contains_key(&2));
}

#[test]
fn test_parse_plain_text() {
    let text = "1:149.154.175.53\n2:149.154.167.51\n# comment\n3:149.154.175.100";
    let ips = parse_proxy_config(text).unwrap();
    assert_eq!(ips.len(), 3);
    assert_eq!(ips.get(&1).unwrap(), "149.154.175.53");
}

#[test]
fn test_parse_json() {
    let text = r#"{"dc_options":[{"id":1,"ip_address":"149.154.175.53"},{"id":2,"ip_address":"149.154.167.51"}]}"#;
    let ips = parse_proxy_config(text).unwrap();
    assert_eq!(ips.len(), 2);
    assert_eq!(ips.get(&1).unwrap(), "149.154.175.53");
}

#[test]
fn fallback_table_is_exact() {
    let ips = fallback_dc_ips();
    assert_eq!(ips.len(), 6);
    assert_eq!(ips[&1], "149.154.175.53");
    assert_eq!(ips[&2], "149.154.167.51");
    assert_eq!(ips[&3], "149.154.175.100");
    assert_eq!(ips[&4], "149.154.167.91");
    assert_eq!(ips[&5], "91.108.56.130");
    assert_eq!(ips[&203], "149.154.167.40");
}

#[test]
fn fallback_config_holds_fallback_table() {
    let cfg = DcConfig::fallback();
    assert_eq!(cfg.ips, fallback_dc_ips());
}

#[test]
fn plain_text_trims_and_skips() {
    let text = "  # header\r\n\r\n 4 :  149.154.167.91  \r\n5:91.108.56.130\n";
    let ips = parse_proxy_config(text).unwrap();
    assert_eq!(ips, table(&[(4, "149.154.167.91"), (5, "91.108.56.130")]));
}

#[test]
fn plain_text_rejects_bad_lines() {
    let text = "x:1.2.3.4\n7:not-an-ip\n-1:1.2.3.4\n4294967296:1.2.3.4\nnocolon\n:1.2.3.4";
    assert!(parse_proxy_config(text).is_none());
}

#[test]
fn plain_text_accepts_plus_sign_ipv6_and_max_id() {
    let text = "+9:::1\n4294967295:10.0.0.1";
    let ips = parse_proxy_config(text).unwrap();
    assert_eq!(ips, table(&[(9, "::1"), (4294967295, "10.0.0.1")]));
}

#[test]
fn plain_text_later_line_wins() {
    let text = "1:10.0.0.1\n1:10.0.0.2";
    let ips = parse_proxy_config(text).unwrap();
    assert_eq!(ips, table(&[(1, "10.0.0.2")]));
}

#[test]
fn plain_text_ip_after_first_colon_only() {
    // The address is all that follows the first colon, so an IPv6 address is kept whole.
    let text = "2:2001:db8::1";
    let ips = parse_proxy_config(text).unwrap();
    assert_eq!(ips, table(&[(2, "2001:db8::1")]));
}

#[test]
fn empty_and_comment_only_texts_give_nothing() {
    assert!(parse_proxy_config("").is_none());
    assert!(parse_proxy_config("# only\n\n   \n").is_none());
}

#[test]
fn json_entries_missing_fields_are_skipped() {
    let text = r#"{"dc_options":[{"id":1},{"ip_address":"1.1.1.1"},{"id":-3,"ip_address":"2.2.2.2"},{"id":7,"ip_address":"7.7.7.7"}]}"#;
    let ips = parse_proxy_config(text).unwrap();
    assert_eq!(ips, table(&[(7, "7.7.7.7")]));
}

#[test]
fn json_id_is_truncated_to_u32() {
    let text = r#"{"dc_options":[{"id":4294967298,"ip_address":"9.9.9.9"}]}"#;
    let ips = parse_proxy_config(text).unwrap();
    assert_eq!(ips, table(&[(2, "9.9.9.9")]));
}

#[test]
fn json_address_is_not_checked() {
    let text = r#"{"dc_options":[{"id":3,"ip_address":"not an address"}]}"#;
    let ips = parse_proxy_config(text).unwrap();
    assert_eq!(ips, table(&[(3, "not an address")]));
}

#[test]
fn json_without_entries_gives_nothing() {
    assert!(parse_proxy_config(r#"{"dc_options":[]}"#).is_none());
    assert!(parse_proxy_config(r#"{"other":1}"#).is_none());
    assert!(parse_proxy_config("[1,2,3]").is_none());
}

#[test]
fn parsed_json_tree_is_read() {
    let dc = JsonValue::Object(vec![
        ("id".to_string(), JsonValue::Number(Some(5))),
        ("ip_address".to_string(), JsonValue::Str("5.5.5.5".to_string())),
    ]);
    let doc = JsonValue::Object(vec![("dc_options".to_string(), JsonValue::Array(vec![dc]))]);
    let ips = dc_ips_from_parsed(&Some(doc), "1:1.1.1.1").unwrap();
    assert_eq!(ips, table(&[(5, "5.5.5.5")]));
}

#[test]
fn parsed_tree_without_entries_falls_back_to_lines() {
    let doc = JsonValue::Object(vec![("dc_options".to_string(), JsonValue::Null)]);
    let ips = dc_ips_from_parsed(&Some(doc), "1:1.1.1.1").unwrap();
    assert_eq!(ips, table(&[(1, "1.1.1.1")]));
    assert!(dc_ips_from_parsed(&None, "nothing").is_none());
}

#[test]
fn sources_are_tried_in_order_then_dns() {
    assert_eq!(DC_IP_SOURCE_COUNT, 2);
    assert_eq!(dc_ip_source(0), "https://core.telegram.org/getProxyConfig");
    assert_eq!(dc_ip_source(1), "https://telegram.org/getProxyConfig");
    let s = fetch_start();
    assert!(matches!(s, FetchStage::Source(0)));
    let d = fetch_step(s, None);
    let s = match d {
        FetchDecision::Next(s) => s,
        FetchDecision::Done(_) => panic!("search stopped early"),
    };
    assert!(matches!(s, FetchStage::Source(1)));
    let d = fetch_step(s, Some(HashMap::new()));
    let s = match d {
        FetchDecision::Next(s) => s,
        FetchDecision::Done(_) => panic!("empty list accepted"),
    };
    assert!(matches!(s, FetchStage::Dns));
    match fetch_step(s, None) {
        FetchDecision::Done(r) => assert!(r.is_none()),
        FetchDecision::Next(_) => panic!("search did not stop"),
    }
}

#[test]
fn first_nonempty_source_ends_search() {
    match fetch_step(FetchStage::Source(0), Some(table(&[(1, "1.1.1.1")]))) {
        FetchDecision::Done(Some(m)) => assert_eq!(m, table(&[(1, "1.1.1.1")])),
        _ => panic!("expected the list"),
    }
}

#[test]
fn reply_status_decides() {
    assert!(is_success_status(200));
    assert!(is_success_status(299));
    assert!(!is_success_status(199));
    assert!(!is_success_status(300));
    assert!(response_dc_ips(404, "1:1.1.1.1").is_none());
    assert_eq!(response_dc_ips(200, "1:1.1.1.1").unwrap(), table(&[(1, "1.1.1.1")]));
}

#[test]
fn dns_needs_three_data_centres() {
    let domains = dc_dns_domains();
    assert_eq!(domains.len(), 5);
    assert_eq!(domains[0], (1, "pluto.web.telegram.org".to_string()));
    assert_eq!(domains[4], (5, "flora.web.telegram.org".to_string()));
    let two = vec![(1, Some("1.1.1.1".to_string())), (2, None), (3, Some("3.3.3.3".to_string()))];
    assert!(dns_dc_ips(two).is_none());
    let three = vec![
        (1, Some("1.1.1.1".to_string())),
        (2, Some("2.2.2.2".to_string())),
        (3, None),
        (4, Some("4.4.4.4".to_string())),
    ];
    assert_eq!(
        dns_dc_ips(three).unwrap(),
        table(&[(1, "1.1.1.1"), (2, "2.2.2.2"), (4, "4.4.4.4")])
    );
}

#[test]
fn fallback_when_nothing_fetched() {
    assert_eq!(dc_ips_or_fallback(None), fallback_dc_ips());
    let fresh = table(&[(9, "9.9.9.9")]);
    assert_eq!(dc_ips_or_fallback(Some(fresh.clone())), fresh);
}

#[test]
fn changes_list_new_and_moved_data_centres() {
    let old = table(&[(1, "1.1.1.1"), (2, "2.2.2.2"), (3, "3.3.3.3")]);
    let new = table(&[(1, "1.1.1.1"), (2, "2.2.2.9"), (4, "4.4.4.4")]);
    let mut changes = dc_changes(&old, &new);
    changes.sort_by_key(|c| c.dc);
    assert_eq!(changes.len(), 2);
    assert_eq!(changes[0].dc, 2);
    assert_eq!(changes[0].old_ip.as_deref(), Some("2.2.2.2"));
    assert_eq!(changes[0].new_ip, "2.2.2.9");
    assert_eq!(changes[1].dc, 4);
    assert_eq!(changes[1].old_ip, None);
    assert_eq!(changes[1].new_ip, "4.4.4.4");
}

#[test]
fn update_replaces_only_on_change_and_is_idempotent() {
    let t0 = SystemTime::UNIX_EPOCH;
    let t1 = t0 + Duration::from_secs(60);
    let t2 = t1 + Duration::from_secs(60);
    let mut cfg = DcConfig { ips: table(&[(1, "1.1.1.1")]), timestamp: t0 };

    assert!(matches!(cfg.apply_fetched(None, t1), DcUpdate::FetchFailed));
    assert_eq!(cfg.timestamp, t0);

    assert!(matches!(cfg.apply_fetched(Some(table(&[(1, "1.1.1.1")])), t1), DcUpdate::Unchanged));
    assert_eq!(cfg.timestamp, t0);

    let fresh = table(&[(1, "1.1.1.2")]);
    match cfg.apply_fetched(Some(fresh.clone()), t1) {
        DcUpdate::Updated(changes) => {
            assert_eq!(changes.len(), 1);
            assert_eq!(changes[0].dc, 1);
        }
        _ => panic!("expected an update"),
    }
    assert_eq!(cfg.ips, fresh);
    assert_eq!(cfg.timestamp, t1);

    assert!(matches!(cfg.apply_fetched(Some(fresh.clone()), t2), DcUpdate::Unchanged));
    assert_eq!(cfg.timestamp, t1);

    // A data centre that disappears is an update with no listed change.
    match cfg.apply_fetched(Some(HashMap::new()), t2) {
        DcUpdate::Updated(changes) => assert!(changes.is_empty()),
        _ => panic!("expected an update"),
    }
    assert!(cfg.ips.is_empty());
}

#[test]
fn config_clone_keeps_addresses_and_time() {
    let t = SystemTime::UNIX_EPOCH + Duration::from_secs(5);
    let cfg = DcConfig { ips: table(&[(1, "1.1.1.1")]), timestamp: t };
    let copy = cfg.clone();
    assert_eq!(copy.ips, cfg.ips);
    assert_eq!(copy.timestamp, t);
}

#[test]
fn fallback_at_stamps_given_time() {
    let t = SystemTime::UNIX_EPOCH + Duration::from_secs(77);
    let cfg = DcConfig::fallback_at(t);
    assert_eq!(cfg.timestamp, t);
    assert_eq!(cfg.ips, fallback_dc_ips());
}

#[test]
fn rendered_table_parses_back() {
    let m = fallback_dc_ips();
    let mut keys: Vec<u32> = m.keys().copied().collect();
    for order in 0..2 {
        if order == 1 {
            keys.reverse();
        }
        let text = keys
            .iter()
            .map(|k| format!("{}:{}", k, m[k]))
            .collect::<Vec<_>>()
            .join("\n");
        assert_eq!(parse_proxy_config(&text), Some(m.clone()));
    }
}

#[test]
fn banner_lists_data_centres_by_id() {
    let m = table(&[(203, "149.154.167.40"), (2, "149.154.167.51"), (4, "149.154.167.91"), (1, "149.154.175.53")]);
    let sorted = tg_ws_proxy::dc_updater::sorted_dc_ips(&m);
    let ids: Vec<u32> = sorted.iter().map(|(k, _)| *k).collect();
    assert_eq!(ids, vec![1, 2, 4, 203]);
    assert_eq!(sorted[3].1, "149.154.167.40");
    assert!(tg_ws_proxy::dc_updater::sorted_dc_ips(&HashMap::new()).is_empty());
}

#[test]
fn link_notes() {
    assert!(matches!(tg_ws_proxy::dc_updater::link_note("192.168.1.5", "0.0.0.0"), tg_ws_proxy::dc_updater::LinkNote::AutoDetected));
    assert!(matches!(tg_ws_proxy::dc_updater::link_note("127.0.0.1", "127.0.0.1"), tg_ws_proxy::dc_updater::LinkNote::LocalOnly));
    assert!(matches!(tg_ws_proxy::dc_updater::link_note("::1", "::1"), tg_ws_proxy::dc_updater::LinkNote::LocalOnly));
    assert!(matches!(tg_ws_proxy::dc_updater::link_note("10.0.0.2", "10.0.0.2"), tg_ws_proxy::dc_updater::LinkNote::NoNote));
}

#[test]
fn addresses_with_inner_space_are_rejected() {
    assert!(parse_proxy_config("1:1.1. 1.1").is_none());
    assert!(parse_proxy_config("1:").is_none());
}
