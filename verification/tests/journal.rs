use sysadmin::monitor_server::bucket::journal::{
    fetch, group_logs, journal_args, journal_arguments_since, services_are_found, to_services,
    try_fetch,
};

fn chars(s: &str) -> Vec<char> {
    s.chars().collect()
}

const DOCKER_START: &str = r#"{"SYSLOG_IDENTIFIER":"dockerd","MESSAGE":"start"}"#;
const SSH_LOGIN: &str = r#"{"SYSLOG_IDENTIFIER":"sshd","MESSAGE":"login"}"#;
const DOCKER_STOP: &str = r#"{"SYSLOG_IDENTIFIER":"dockerd","MESSAGE":"stop"}"#;

#[test]
fn journal_records_are_grouped_by_service() {
    let output = format!("{}\n{}\n{}\n", DOCKER_START, SSH_LOGIN, DOCKER_STOP);
    assert_eq!(
        fetch(&output),
        format!("{{ \"dockerd\": [{},{}],\"sshd\": [{}] }}", DOCKER_START, DOCKER_STOP, SSH_LOGIN)
    );
}

#[test]
fn journal_without_records_is_an_empty_object() {
    assert_eq!(fetch(""), "{  }");
}

#[test]
fn journal_record_without_identifier_is_refused() {
    let output = format!("{}\n{{\"MESSAGE\":\"x\"}}\n", DOCKER_START);
    assert!(!services_are_found(&output));
    assert_eq!(try_fetch(&output), None);
    assert!(services_are_found(DOCKER_START));
}

#[test]
fn journal_groups_keep_record_order_per_service() {
    let lines = vec![chars("l1"), chars("l2"), chars("l3"), chars("l4")];
    let services = vec![chars("b"), chars("a"), chars("b"), chars("a")];
    let groups = group_logs(&lines, &services);
    assert_eq!(
        groups,
        vec![
            (chars("b"), vec![chars("l1"), chars("l3")]),
            (chars("a"), vec![chars("l2"), chars("l4")]),
        ]
    );
    let members: Vec<String> = to_services(&groups).iter().map(|m| m.iter().collect()).collect();
    assert_eq!(members, vec!["\"b\": [l1,l3]".to_string(), "\"a\": [l2,l4]".to_string()]);
}

#[test]
fn journal_service_names_are_written_as_debug_strings() {
    let record = "{\"SYSLOG_IDENTIFIER\":\"\u{301}x\"}";
    assert_eq!(fetch(record), format!("{{ \"\\u{{301}}x\": [{}] }}", record));
}

fn strings(ls: &[&str]) -> Vec<String> {
    ls.iter().map(|l| l.to_string()).collect()
}

#[test]
fn journal_arguments_name_each_service() {
    assert_eq!(
        journal_arguments_since("2024-01-02 03:04:05", &strings(&["docker", "sshd"])),
        strings(&["-r", "-S", "2024-01-02 03:04:05", "-o", "json", "-u", "docker", "-u", "sshd"])
    );
    assert_eq!(
        journal_arguments_since("t", &vec![]),
        strings(&["-r", "-S", "t", "-o", "json", "-u"])
    );
}

#[test]
fn journal_arguments_start_a_day_before_now() {
    assert_eq!(
        journal_args(86400 + 3661, &strings(&["docker"])),
        Some(strings(&["-r", "-S", "1970-01-01 01:01:01", "-o", "json", "-u", "docker"]))
    );
    assert_eq!(
        journal_args(1_700_000_000, &strings(&["docker"])).unwrap()[2],
        "2023-11-13 22:13:20"
    );
    assert_eq!(journal_args(i64::MIN, &strings(&["docker"])), None);
    assert_eq!(journal_args(i64::MAX, &strings(&["docker"])), None);
}
