//! The parser of the compact history text form.

use dbcop::history::raw::parser::{offset_to_line_col, parse_history};
use dbcop::history::raw::types::{Event, Transaction};

    // Shorthand constructors for tests.
    fn w(var: &str, ver: u64) -> Event<String, u64> {
        Event::write(var.to_string(), ver)
    }
    fn r(var: &str, ver: u64) -> Event<String, u64> {
        Event::read(var.to_string(), ver)
    }
    fn re(var: &str) -> Event<String, u64> {
        Event::read_empty(var.to_string())
    }
    fn _committed(events: Vec<Event<String, u64>>) -> Transaction<String, u64> {
        Transaction::committed(events)
    }
    fn _uncommitted(events: Vec<Event<String, u64>>) -> Transaction<String, u64> {
        Transaction::uncommitted(events)
    }

    // -----------------------------------------------------------------------
    // Happy-path tests
    // -----------------------------------------------------------------------

    #[test]
    fn test_single_session() {
        let input = "[x:=1 y:=1]\n";
        let result = parse_history(input).expect("should parse");
        assert_eq!(result.len(), 1);
        assert_eq!(result[0].len(), 1);
        assert_eq!(result[0][0].events, vec![w("x", 1), w("y", 1)]);
        assert!(result[0][0].committed);
    }

    #[test]
    fn test_multi_session_with_separator() {
        let input = "[x:=1]\n---\n[y:=2]\n";
        let result = parse_history(input).expect("should parse");
        assert_eq!(result.len(), 2);
        assert_eq!(result[0][0].events, vec![w("x", 1)]);
        assert_eq!(result[1][0].events, vec![w("y", 2)]);
    }

    #[test]
    fn test_multiple_transactions_per_line() {
        let input = "[x:=1 y:=1] [z==2 z:=3]\n[y:=3]\n";
        let result = parse_history(input).expect("should parse");
        assert_eq!(result.len(), 1);
        assert_eq!(result[0].len(), 3);
        assert_eq!(result[0][0].events, vec![w("x", 1), w("y", 1)]);
        assert_eq!(result[0][1].events, vec![r("z", 2), w("z", 3)]);
        assert_eq!(result[0][2].events, vec![w("y", 3)]);
    }

    #[test]
    fn test_uncommitted_transaction() {
        let input = "[x:=1]!\n";
        let result = parse_history(input).expect("should parse");
        assert!(!result[0][0].committed);
        assert_eq!(result[0][0].events, vec![w("x", 1)]);
    }

    #[test]
    fn test_uninitialized_read() {
        let input = "[x==?]\n";
        let result = parse_history(input).expect("should parse");
        assert_eq!(result[0][0].events, vec![re("x")]);
    }

    #[test]
    fn test_comments_are_skipped() {
        let input = "// session 1\n[x:=1]\n---\n// session 2\n[y:=2]\n";
        let result = parse_history(input).expect("should parse");
        assert_eq!(result.len(), 2);
        assert_eq!(result[0][0].events, vec![w("x", 1)]);
        assert_eq!(result[1][0].events, vec![w("y", 2)]);
    }

    #[test]
    fn test_empty_session_between_separators() {
        let input = "[x:=1]\n---\n---\n[y:=2]\n";
        let result = parse_history(input).expect("should parse");
        assert_eq!(result.len(), 3);
        assert_eq!(result[0].len(), 1);
        assert_eq!(result[1].len(), 0); // empty session
        assert_eq!(result[2].len(), 1);
    }

    #[test]
    fn parser_test_full_example() {
        let input = "\
// session 1
[x:=1 y:=1] [z==2 z:=3]
[y:=3]
---
// session 2
[a==1 b:=3] [c:=3]
[d==3]
";
        let result = parse_history(input).expect("should parse full example");
        assert_eq!(result.len(), 2);

        let s0 = &result[0];
        assert_eq!(s0.len(), 3);
        assert_eq!(s0[0].events, vec![w("x", 1), w("y", 1)]);
        assert_eq!(s0[1].events, vec![r("z", 2), w("z", 3)]);
        assert_eq!(s0[2].events, vec![w("y", 3)]);

        let s1 = &result[1];
        assert_eq!(s1.len(), 3);
        assert_eq!(s1[0].events, vec![r("a", 1), w("b", 3)]);
        assert_eq!(s1[1].events, vec![w("c", 3)]);
        assert_eq!(s1[2].events, vec![r("d", 3)]);
    }

    #[test]
    fn test_committed_and_uncommitted_mix() {
        let input = "[x:=1] [y:=2]!\n";
        let result = parse_history(input).expect("should parse");
        assert!(result[0][0].committed);
        assert!(!result[0][1].committed);
    }

    #[test]
    fn test_multiple_events_in_transaction() {
        let input = "[a:=1 b==2 c==? d:=5]\n";
        let result = parse_history(input).expect("should parse");
        assert_eq!(
            result[0][0].events,
            vec![w("a", 1), r("b", 2), re("c"), w("d", 5)]
        );
    }

    #[test]
    fn test_blank_lines_in_session() {
        let input = "[x:=1]\n\n[y:=2]\n";
        let result = parse_history(input).expect("should parse with blank lines");
        assert_eq!(result.len(), 1);
        assert_eq!(result[0].len(), 2);
    }

    #[test]
    fn test_empty_history_single_session() {
        // A history with no transactions at all.
        let input = "// just a comment\n";
        let result = parse_history(input).expect("should parse empty session");
        assert_eq!(result.len(), 1);
        assert_eq!(result[0].len(), 0);
    }

    // -----------------------------------------------------------------------
    // Error tests
    // -----------------------------------------------------------------------

    #[test]
    fn test_parse_error_has_line_column() {
        // Invalid token at line 2, column 1.
        let input = "[x:=1]\n@bad\n";
        let err = parse_history(input).expect_err("should fail");
        // The error should point to line 2.
        assert_eq!(err.line, 2, "expected error on line 2, got: {err:?}");
    }

    #[test]
    fn test_parse_error_display() {
        let input = "[x:=1]\n@bad\n";
        let err = parse_history(input).expect_err("should fail");
        let msg = err.to_text();
        assert!(
            msg.contains("parse error"),
            "display should contain 'parse error': {msg}"
        );
        assert!(msg.contains("line"), "display should contain 'line': {msg}");
    }

    #[test]
    fn test_offset_to_line_col_first_line() {
        // Offset 0 on first line.
        let (line, col) = offset_to_line_col("hello\nworld\n", 0);
        assert_eq!(line, 1);
        assert_eq!(col, 1);
    }

    #[test]
    fn test_offset_to_line_col_second_line() {
        // "hello\n" is 6 bytes; offset 6 is start of second line.
        let (line, col) = offset_to_line_col("hello\nworld\n", 6);
        assert_eq!(line, 2);
        assert_eq!(col, 1);
    }
