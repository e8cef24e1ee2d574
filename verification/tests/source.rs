use pjd_split::source::{select_source, stdin_text, trim, Args, ConfigError, InputSource};

fn args(stdin: bool, input: Option<&str>) -> Args {
    Args {
        html_decode: false,
        stdin,
        output: String::from("."),
        input: input.map(String::from),
    }
}

#[test]
fn default_arguments_write_to_the_current_directory() {
    let args = Args::default();
    assert_eq!(args.output, ".");
    assert!(!args.html_decode);
    assert!(!args.stdin);
    assert_eq!(args.input, None);
    assert_eq!(select_source(&args), Err(ConfigError::NoSource));
}

#[test]
fn file_and_stdin_together_are_refused() {
    assert_eq!(select_source(&args(true, Some("in.txt"))), Err(ConfigError::BothSources));
}

#[test]
fn neither_file_nor_stdin_is_refused() {
    assert_eq!(select_source(&args(false, None)), Err(ConfigError::NoSource));
}

#[test]
fn stdin_alone_is_selected() {
    assert_eq!(select_source(&args(true, None)), Ok(InputSource::Stdin));
}

#[test]
fn file_alone_is_selected() {
    assert_eq!(
        select_source(&args(false, Some("in.txt"))),
        Ok(InputSource::File(String::from("in.txt")))
    );
}

#[test]
fn white_space_is_cut_off_at_both_ends() {
    assert_eq!(trim("  x y \n"), "x y");
    assert_eq!(trim("\t\r\n<pjd></pjd>\n"), "<pjd></pjd>");
}

#[test]
fn text_without_white_space_around_it_is_kept() {
    assert_eq!(trim("x"), "x");
    assert_eq!(trim("a b"), "a b");
}

#[test]
fn text_of_white_space_only_becomes_empty() {
    assert_eq!(trim(""), "");
    assert_eq!(trim(" \n\t "), "");
}

#[test]
fn white_space_beyond_ascii_is_cut_off_too() {
    assert_eq!(trim("\u{a0}\u{3000}\u{e9}t\u{e9}\u{2003}"), "\u{e9}t\u{e9}");
}

#[test]
fn trimming_agrees_with_the_standard_library() {
    let texts = [" a ", "\u{2028}b\u{85}", "c\u{200b}", "\u{feff}d", "  ", "e \u{1f600} "];
    for text in texts {
        assert_eq!(trim(text), text.trim());
    }
}

#[test]
fn stdin_text_is_trimmed() {
    assert_eq!(stdin_text(Some(" <pjd></pjd>\n")), "<pjd></pjd>");
}

#[test]
fn failed_read_gives_empty_text() {
    assert_eq!(stdin_text(None), "");
}
