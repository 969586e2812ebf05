use sysadmin::config::MyConfig;
use sysadmin::project_manager::{
    matching_paths, path_matches, repository_url, run, Cli, PrjCommands, Step,
};

fn strings(ls: &[&str]) -> Vec<String> {
    ls.iter().map(|l| l.to_string()).collect()
}

#[test]
fn projects_are_listed_by_search() {
    let paths = strings(&["/p/alpha", "/p/beta", "/p/alphabet"]);
    assert_eq!(matching_paths(&paths, "alpha"), strings(&["/p/alpha", "/p/alphabet"]));
    assert_eq!(matching_paths(&paths, ""), paths);
    assert_eq!(matching_paths(&paths, "gamma"), Vec::<String>::new());
}

#[test]
fn projects_repository_address() {
    assert_eq!(repository_url("owner", "repo"), "https://github.com/owner/repo");
}

#[test]
fn projects_run_steps() {
    let cli = Cli { dir: "/p".to_string(), command: PrjCommands::Ls { search: "x".to_string() } };
    match run(&cli) {
        Step::ListMatching { dir, search } => assert_eq!((dir.as_str(), search.as_str()), ("/p", "x")),
        Step::Repository { .. } => panic!("expected a listing"),
    }
    let cli = Cli {
        dir: "/p".to_string(),
        command: PrjCommands::Add { owner: "o".to_string(), repo: "r".to_string() },
    };
    match run(&cli) {
        Step::Repository { url } => assert_eq!(url, "https://github.com/o/r"),
        Step::ListMatching { .. } => panic!("expected an address"),
    }
}

#[test]
fn config_defaults_for_a_home_directory() {
    let c = MyConfig::with_home("/home/u");
    assert_eq!(c.dir, "/home/u/dev");
    assert_eq!(c.server_name, "");
    assert_eq!(c.file_sharing_port, 8080);
    assert_eq!(c.file_sharing_directory, "");
}

#[test]
fn single_paths_match_by_containment() {
    assert!(path_matches("/p/alphabet", "alpha"));
    assert!(!path_matches("/p/beta", "alpha"));
    assert!(path_matches("/p", ""));
}

#[test]
fn config_directory_is_expanded_only_at_a_leading_tilde() {
    let home = Some("/home/u".to_string());
    let plain = MyConfig::with_home("/x");
    let c = MyConfig::with_home("/x").expand_dir(home.clone());
    assert_eq!(c.dir, plain.dir);
    assert_eq!(c.file_sharing_port, 8080);
    let mut settings = MyConfig::with_home("/x");
    settings.dir = "~user/dev".to_string();
    assert_eq!(settings.expand_dir(home.clone()).dir, "~user/dev");
    let mut settings = MyConfig::with_home("/x");
    settings.dir = "~/dev".to_string();
    settings.server_name = "s".to_string();
    let expanded = settings.expand_dir(home.clone());
    assert_eq!(expanded.server_name, "s");
    assert_eq!(expanded.dir, "/home/u/dev");
    let mut settings = MyConfig::with_home("/x");
    settings.dir = "~".to_string();
    assert_eq!(settings.expand_dir(home).dir, "/home/u");
    let mut settings = MyConfig::with_home("/x");
    settings.dir = "~/dev".to_string();
    assert_eq!(settings.expand_dir(None).dir, "~/dev");
}
