use sysadmin::monitor_server::bucket::sar::{fetch, parse_reports, reports_can_be_filed, try_fetch};

#[test]
fn sar_reports_become_a_json_object() {
    let output = "Linux 5.4.0 (host) \t01/02/2024\n\n12:00:01 CPU %user %system\n12:00:02 all 1.00 0.50\n\n12:00:01 DEV tps\n12:00:02 sda 3.00\n";
    assert_eq!(
        fetch(output),
        r#"{"5.4.0":[["5.4.0","(host)","01/02/2024"]],"CPU":[["CPU","%user","%system"],["all","1.00","0.50"]],"DEV":[["DEV","tps"],["sda","3.00"]]}"#
    );
}

#[test]
fn sar_later_report_replaces_one_with_the_same_key() {
    assert_eq!(fetch("10:00 K 1\n\n10:01 K 2"), r#"{"K":[["K","2"]]}"#);
    let entries = parse_reports("10:00 K 1\n\n10:01 L 5\n\n10:02 K 2");
    let keys: Vec<&str> = entries.iter().map(|e| e.0.as_str()).collect();
    assert_eq!(keys, vec!["K", "L"]);
    assert_eq!(entries[0].1, vec![vec!["K".to_string(), "2".to_string()]]);
}

#[test]
fn sar_empty_report_is_filed_under_the_empty_key() {
    assert_eq!(fetch("10:00 K 1\n\n"), r#"{"":[],"K":[["K","1"]]}"#);
}

#[test]
fn sar_report_without_key_is_refused() {
    assert!(!reports_can_be_filed("header\n\n10:00 K 1"));
    assert_eq!(try_fetch("header\n\n10:00 K 1"), None);
    assert!(!reports_can_be_filed("10:00 K 1\n\n\n10:01 L 2"));
    assert_eq!(try_fetch("a b"), Some(r#"{"b":[["b"]]}"#.to_string()));
}

#[test]
fn sar_object_keys_come_in_serde_json_order() {
    let entries = parse_reports("10:00 Z 1\n\n10:01 A 2");
    let keys: Vec<&str> = entries.iter().map(|e| e.0.as_str()).collect();
    assert_eq!(keys, vec!["Z", "A"]);
    assert_eq!(fetch("10:00 Z 1\n\n10:01 A 2"), r#"{"A":[["A","2"]],"Z":[["Z","1"]]}"#);
}

#[test]
fn sar_json_strings_are_escaped() {
    assert_eq!(fetch("t \"q\"\\"), r#"{"\"q\"\\":[["\"q\"\\"]]}"#);
}
