use pjd_split::naming::{decimal_text, index_text, output_path};

#[test]
fn decimal_of_small_and_large_numbers() {
    assert_eq!(decimal_text(0), "0");
    assert_eq!(decimal_text(7), "7");
    assert_eq!(decimal_text(10), "10");
    assert_eq!(decimal_text(4096), "4096");
    assert_eq!(decimal_text(usize::MAX), format!("{}", usize::MAX));
}

#[test]
fn single_digit_is_padded_with_a_zero() {
    assert_eq!(index_text(0), "00");
    assert_eq!(index_text(1), "01");
    assert_eq!(index_text(9), "09");
}

#[test]
fn two_digits_are_left_as_they_are() {
    assert_eq!(index_text(10), "10");
    assert_eq!(index_text(42), "42");
    assert_eq!(index_text(99), "99");
}

#[test]
fn more_than_two_digits_are_not_cut() {
    assert_eq!(index_text(100), "100");
    assert_eq!(index_text(65536), "65536");
}

#[test]
fn label_is_the_number_at_width_two() {
    let mut index: usize = 0;
    while index < 1200 {
        assert_eq!(index_text(index), format!("{:02}", index));
        index += 7;
    }
}

#[test]
fn path_joins_directory_number_and_command() {
    assert_eq!(output_path("out", 0, "build"), "out/00_build");
    assert_eq!(output_path("out", 1, "stop"), "out/01_stop");
    assert_eq!(output_path(".", 12, "run"), "./12_run");
    assert_eq!(output_path("a/b", 123, "x y"), "a/b/123_x y");
}

#[test]
fn path_keeps_directory_and_command_as_given() {
    assert_eq!(output_path("", 3, ""), "/03_");
    assert_eq!(output_path("out/", 3, "\u{e9}"), "out//03_\u{e9}");
}
