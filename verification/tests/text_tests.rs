use the_golden::text::{file_name_part, usize_to_string};

#[test]
fn decimal_rendering_of_zero() {
    assert_eq!(usize_to_string(0), "0");
}

#[test]
fn decimal_rendering_of_single_digit() {
    assert_eq!(usize_to_string(7), "7");
}

#[test]
fn decimal_rendering_of_many_digits() {
    assert_eq!(usize_to_string(90217), "90217");
}

#[test]
fn file_name_of_plain_name() {
    assert_eq!(file_name_part("a.gl"), "a.gl");
}

#[test]
fn file_name_of_nested_path() {
    assert_eq!(file_name_part("dir/sub/a.gl"), "a.gl");
}

#[test]
fn file_name_of_directory_path_is_empty() {
    assert_eq!(file_name_part("dir/"), "");
}

#[test]
fn file_name_of_empty_path_is_empty() {
    assert_eq!(file_name_part(""), "");
}
