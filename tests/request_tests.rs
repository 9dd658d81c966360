use ocache::request::{error_status, parse_path};

#[test]
fn path_with_two_segments() {
    assert_eq!(parse_path("/Scores/mxy"), Some(("Scores".to_string(), "mxy".to_string())));
}

#[test]
fn path_ignores_empty_segments() {
    assert_eq!(parse_path("//Scores///c++/"), Some(("Scores".to_string(), "c++".to_string())));
}

#[test]
fn path_with_wrong_segment_count() {
    assert_eq!(parse_path("/"), None);
    assert_eq!(parse_path(""), None);
    assert_eq!(parse_path("/Scores"), None);
    assert_eq!(parse_path("/a/b/c"), None);
}

#[test]
fn path_with_non_ascii_segments() {
    assert_eq!(parse_path("/gé/ké"), Some(("gé".to_string(), "ké".to_string())));
}

#[test]
fn status_for_missing_items() {
    assert_eq!(error_status("No such group: Unknown"), 404);
    assert_eq!(error_status("No such key: k"), 404);
    assert_eq!(error_status("remote said: No such key: k"), 404);
}

#[test]
fn status_for_other_errors() {
    assert_eq!(error_status("key is empty"), 500);
    assert_eq!(error_status(""), 500);
    assert_eq!(error_status("No suc"), 500);
    assert_eq!(error_status("no such key"), 500);
}
