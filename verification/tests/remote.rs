use sysadmin::monitor::{first_unknown, plan_jobs};
use sysadmin::monitor_server::bucket::auths;

#[test]
fn remote_unknown_command_is_reported() {
    assert_eq!(first_unknown("docker,users,storage"), None);
    assert_eq!(first_unknown("docker,disk,foo").as_deref(), Some("disk"));
    assert_eq!(first_unknown("").as_deref(), Some(""));
    assert_eq!(first_unknown("docker,").as_deref(), Some(""));
}

#[test]
fn remote_jobs_run_over_ssh() {
    let jobs = plan_jobs("users,storage,docker", "srv");
    let pairs: Vec<(&str, &str)> =
        jobs.iter().map(|j| (j.description.as_str(), j.command.as_str())).collect();
    assert_eq!(
        pairs,
        vec![
            ("Active Users", "ssh srv w"),
            ("Storage", "ssh srv df -h | grep /vda"),
            ("Docker", "ssh srv docker ps"),
        ]
    );
}

#[test]
fn remote_auth_records_are_not_collected_yet() {
    auths::fetch();
}
