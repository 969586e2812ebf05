use sysadmin::norm::{get_normalized_path, try_get_normalized_path};
use sysadmin::norm_lib::{normalize_string, try_normalize_string};

#[test]
fn get_normalized_paths() {
    assert_eq!(get_normalized_path("---[Test].png"), "-test.png");
}

#[test]
fn normalize_strings() {
    assert_eq!(normalize_string("---[Test].png"), "-test.png");
}

#[test]
fn normalized_path_keeps_directories_and_collapses_separators() {
    assert_eq!(
        get_normalized_path("  My Docs/Some  File__Name (1).TXT \n"),
        "my-docs/some-file-name-1.txt"
    );
}

#[test]
fn normalized_path_of_blank_text_is_empty() {
    assert_eq!(get_normalized_path(" \t\n "), "");
}

#[test]
fn normalized_name_drops_slashes() {
    assert_eq!(normalize_string("Photos/Summer 2020!.JPG"), "photossummer-2020.jpg");
}

#[test]
fn checked_normalisations_agree_with_the_plain_ones() {
    assert_eq!(try_get_normalized_path("A_B").as_deref(), Some("a-b"));
    assert_eq!(try_normalize_string("A_B").as_deref(), Some("a-b"));
}

#[test]
fn normalisation_lowercases_beyond_ascii() {
    assert_eq!(get_normalized_path("ÀB Ça.PNG"), "àb-ça.png");
    assert_eq!(normalize_string("ÀB Ça.PNG"), "àb-ça.png");
}

#[test]
fn ascii_case_and_surrounding_white_space_do_not_matter() {
    assert_eq!(
        get_normalized_path(" \tMY Docs/Some_FILE.TXT \n"),
        get_normalized_path("my docs/some_file.txt")
    );
    assert_eq!(normalize_string("\r\n Report 2020.PDF\t"), normalize_string("report 2020.pdf"));
}
