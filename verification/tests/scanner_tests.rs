use the_golden::scanner::{ScanResult, Scanner};

fn scanner_over(source: &str, path: &str) -> Scanner {
    Scanner::new(String::from(source), String::from(path))
}

fn all_units(scanner: &mut Scanner) -> Vec<(String, usize, usize)> {
    let mut units = Vec::new();
    loop {
        match scanner.next() {
            ScanResult::Unit(u) => units.push((u.lexeme, u.line, u.column)),
            ScanResult::End => return units,
            ScanResult::Error(m) => panic!("unexpected lexical error: {}", m),
        }
    }
}

#[test]
fn words_are_split_on_whitespace_with_columns() {
    let mut s = scanner_over("print hello", "a.gl");
    assert_eq!(
        all_units(&mut s),
        vec![
            (String::from("print"), 1, 1),
            (String::from("hello"), 1, 7),
        ]
    );
}

#[test]
fn statement_head_absorbs_rest_of_line() {
    let mut s = scanner_over("print: hello\nworld:", "a.gl");
    assert_eq!(
        all_units(&mut s),
        vec![
            (String::from("print: hello\n"), 1, 1),
            (String::from("world:"), 2, 1),
        ]
    );
}

#[test]
fn terminator_lexeme_keeps_trailing_newline() {
    let mut s = scanner_over("cmd:\n", "a.gl");
    assert_eq!(all_units(&mut s), vec![(String::from("cmd:\n"), 1, 1)]);
}

#[test]
fn string_literal_is_one_unit() {
    let mut s = scanner_over("\"a b\" x", "a.gl");
    assert_eq!(
        all_units(&mut s),
        vec![
            (String::from("\"a b\""), 1, 1),
            (String::from("x"), 1, 7),
        ]
    );
}

#[test]
fn end_of_input_is_idempotent() {
    let mut s = scanner_over("a", "a.gl");
    assert!(matches!(s.next(), ScanResult::Unit(_)));
    assert!(matches!(s.next(), ScanResult::End));
    assert!(matches!(s.next(), ScanResult::End));
    assert!(matches!(s.next(), ScanResult::End));
}

#[test]
fn end_of_input_is_idempotent_on_empty_source() {
    let mut s = scanner_over("", "a.gl");
    assert!(matches!(s.next(), ScanResult::End));
    assert!(matches!(s.next(), ScanResult::End));
}

#[test]
fn positions_never_move_backwards() {
    let mut s = scanner_over("a b\n c: x\nd \"q\" e:", "a.gl");
    let units = all_units(&mut s);
    assert!(units.len() >= 4);
    for pair in units.windows(2) {
        let (_, l1, c1) = &pair[0];
        let (_, l2, c2) = &pair[1];
        assert!(l1 < l2 || (l1 == l2 && c1 <= c2));
    }
}

#[test]
fn newline_starts_a_new_line_at_column_one() {
    let mut s = scanner_over("a\nb\n  c", "a.gl");
    assert_eq!(
        all_units(&mut s),
        vec![
            (String::from("a"), 1, 1),
            (String::from("b"), 2, 1),
            (String::from("c"), 3, 3),
        ]
    );
}

#[test]
fn units_carry_the_source_path() {
    let mut s = scanner_over("x y", "some/dir/prog.gl");
    loop {
        match s.next() {
            ScanResult::Unit(u) => assert_eq!(u.source_path, "some/dir/prog.gl"),
            ScanResult::End => break,
            ScanResult::Error(m) => panic!("unexpected lexical error: {}", m),
        }
    }
}

#[test]
fn unterminated_string_is_a_lexical_error_with_position() {
    let mut s = scanner_over("ok \"broken", "a.gl");
    assert!(matches!(s.next(), ScanResult::Unit(_)));
    match s.next() {
        ScanResult::Error(m) => {
            assert_eq!(m, "Lexical error at 1:4 - unterminated string literal");
        }
        _ => panic!("expected a lexical error"),
    }
}

#[test]
fn statement_head_keeps_carriage_return_and_line_feed() {
    let mut s = scanner_over("cmd:\r\nnext", "a.gl");
    assert_eq!(
        all_units(&mut s),
        vec![
            (String::from("cmd:\r\n"), 1, 1),
            (String::from("next"), 2, 1),
        ]
    );
}

#[test]
fn statement_head_absorbs_quotes_without_error() {
    let mut s = scanner_over("say: \"hi\nnext:", "a.gl");
    assert_eq!(
        all_units(&mut s),
        vec![
            (String::from("say: \"hi\n"), 1, 1),
            (String::from("next:"), 2, 1),
        ]
    );
}

#[test]
fn tabs_separate_units() {
    let mut s = scanner_over("a\tb", "a.gl");
    assert_eq!(
        all_units(&mut s),
        vec![(String::from("a"), 1, 1), (String::from("b"), 1, 3)]
    );
}

#[test]
fn multi_line_string_literal_advances_lines() {
    let mut s = scanner_over("\"a\nb\" c", "a.gl");
    assert_eq!(
        all_units(&mut s),
        vec![
            (String::from("\"a\nb\""), 1, 1),
            (String::from("c"), 2, 4),
        ]
    );
}
