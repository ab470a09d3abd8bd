use zztop::display::{display_path, home_relative, menu_labels};
use zztop::text::decimal_string;

#[test]
fn substitutes_tilde_for_home_prefix() {
    let home = "/Users/x";
    let path = "/Users/x/Workspace/foo";
    assert_eq!(display_path(path, home), "~/Workspace/foo");
}

#[test]
fn shows_path_verbatim_when_outside_home() {
    let home = "/Users/x";
    let path = "/etc/hosts";
    assert_eq!(display_path(path, home), "/etc/hosts");
}

#[test]
fn home_itself_displays_as_tilde() {
    let home = "/Users/x";
    let path = "/Users/x";
    assert_eq!(display_path(path, home), "~");
}

#[test]
fn prefix_is_matched_by_component() {
    assert_eq!(display_path("/Users/xy/foo", "/Users/x"), "/Users/xy/foo");
    assert_eq!(display_path("/Users/x/", "/Users/x"), "~");
    assert_eq!(display_path("/Users/x/a/", "/Users/x/"), "~/a");
}

#[test]
fn home_relative_shapes() {
    assert_eq!(home_relative("/h", Some(String::new())), "~");
    assert_eq!(home_relative("/h/a", Some("a".to_string())), "~/a");
    assert_eq!(home_relative("/elsewhere", None), "/elsewhere");
}

#[test]
fn picker_labels_number_from_one() {
    let paths = vec!["/Users/x/a".to_string(), "/opt/b".to_string(), "/Users/x".to_string()];
    let labels = menu_labels(&paths, "/Users/x");
    assert_eq!(labels, vec!["1  ~/a", "2  /opt/b", "3  ~"]);
}

#[test]
fn decimal_strings() {
    assert_eq!(decimal_string(0), "0");
    assert_eq!(decimal_string(7), "7");
    assert_eq!(decimal_string(10), "10");
    assert_eq!(decimal_string(1234567890), "1234567890");
    assert_eq!(decimal_string(usize::MAX), usize::MAX.to_string());
}
