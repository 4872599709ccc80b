use the_golden::scanner::Scanner;
use the_golden::validator::Validator;

fn run_on(source: &str, path: &str) -> Result<u8, String> {
    Validator::run(Scanner::new(String::from(source), String::from(path)))
}

#[test]
fn statement_head_with_argument_succeeds() {
    assert_eq!(run_on("print: hello", "a.gl"), Ok(0));
}

#[test]
fn missing_terminator_reports_position() {
    assert_eq!(
        run_on("print hello", "a.gl"),
        Err(String::from(
            "Syntax error at 1:7 in \"a.gl\" (\"a.gl\") - ':' expected"
        ))
    );
}

#[test]
fn terminator_with_trailing_newline_succeeds() {
    assert_eq!(run_on("cmd:\n", "a.gl"), Ok(0));
}

#[test]
fn unterminated_string_passes_lexical_error_through() {
    assert_eq!(
        run_on("\"abc", "a.gl"),
        Err(String::from("Lexical error at 1:1 - unterminated string literal"))
    );
}

#[test]
fn empty_source_fails() {
    assert_eq!(
        run_on("", "a.gl"),
        Err(String::from("Syntax error - ':' expected but the source is empty"))
    );
}

#[test]
fn whitespace_only_source_fails_like_empty() {
    assert_eq!(
        run_on("  \t\r\n ", "a.gl"),
        Err(String::from("Syntax error - ':' expected but the source is empty"))
    );
}

#[test]
fn diagnostic_names_final_path_component() {
    assert_eq!(
        run_on("print hello", "dir/sub/a.gl"),
        Err(String::from(
            "Syntax error at 1:7 in \"a.gl\" (\"dir/sub/a.gl\") - ':' expected"
        ))
    );
}

#[test]
fn path_without_file_name_fails_fast() {
    assert_eq!(
        run_on("print hello", "dir/"),
        Err(String::from("Syntax error - the source path has no file name"))
    );
}

#[test]
fn last_unit_on_second_line_reports_its_line() {
    assert_eq!(
        run_on("do: x\nend", "a.gl"),
        Err(String::from(
            "Syntax error at 2:1 in \"a.gl\" (\"a.gl\") - ':' expected"
        ))
    );
}

#[test]
fn several_statements_succeed() {
    assert_eq!(run_on("a: 1\nb: 2\nc:\n", "prog.gl"), Ok(0));
}

#[test]
fn colon_inside_word_satisfies_the_rule() {
    // The terminator test is a substring test, not a full-string match.
    assert_eq!(run_on("a:b", "a.gl"), Ok(0));
}

#[test]
fn colon_inside_string_literal_satisfies_the_rule() {
    assert_eq!(run_on("\"a:\"", "a.gl"), Ok(0));
}

#[test]
fn string_literal_without_colon_fails() {
    assert_eq!(
        run_on("\"a b\"", "a.gl"),
        Err(String::from(
            "Syntax error at 1:1 in \"a.gl\" (\"a.gl\") - ':' expected"
        ))
    );
}

#[test]
fn lexical_error_after_units_reports_quote_position() {
    assert_eq!(
        run_on("ok: fine\n\"broken", "a.gl"),
        Err(String::from("Lexical error at 2:1 - unterminated string literal"))
    );
}

#[test]
fn synthetic_console_path_is_reported_verbatim() {
    assert_eq!(
        run_on("print hello", "<console_input_main>"),
        Err(String::from(
            "Syntax error at 1:7 in \"<console_input_main>\" (\"<console_input_main>\") - ':' expected"
        ))
    );
}
