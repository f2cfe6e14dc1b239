use cnf_sat::dimacs::{parse_from, DimacsError, ParseIssue};
use cnf_sat::types::{Clause, Literal};

fn basic_clauses() -> Vec<Clause> {
    vec![
        Clause::from_variables(vec![Literal::Positive(1), Literal::Negative(3)]),
        Clause::from_variables(vec![
            Literal::Positive(2),
            Literal::Positive(3),
            Literal::Negative(1),
        ]),
    ]
}

#[test]
fn empty_file() {
    let text = "c  simple_v3_c2.cnf
c
";
    assert!(parse_from(text.as_bytes()).is_err(), "Should complain about an empty file");
}

#[test]
fn clauseless_file() {
    let text = "c  simple_v3_c2.cnf
p cnf 0 0
";
    assert!(parse_from(text.as_bytes()).is_err(), "Should complain about no clauses");
}

#[test]
fn basics_str() {
    let text = "c  simple_v3_c2.cnf
c
p cnf 3 2
1 -3 0
2 3 -1 0
";
    let clauses = parse_from(text.as_bytes()).expect("Parsing should succeed");
    assert!(clauses.len() == 2);
    assert!(clauses[0] == Clause::from_variables(vec![
            Literal::Positive(1),
            Literal::Negative(3)]));
    assert!(clauses[1] == Clause::from_variables(vec![
            Literal::Positive(2),
            Literal::Positive(3),
            Literal::Negative(1),
            ]));
}

#[test]
fn single_line_str() {
    let text = "c  simple_v3_c2.cnf
p cnf 3 2
1 -3 0 2 3 -1 0
";
    let clauses = parse_from(text.as_bytes()).expect("Parsing should succeed");
    assert!(clauses.len() == 2);
    assert!(clauses[0] == Clause::from_variables(vec![
            Literal::Positive(1),
            Literal::Negative(3)]));
    assert!(clauses[1] == Clause::from_variables(vec![
            Literal::Positive(2),
            Literal::Positive(3),
            Literal::Negative(1),
            ]));
}

#[test]
fn empty_input_is_unexpected_eof() {
    assert_eq!(parse_from(b""), Err(DimacsError::UnexpectedEOF));
    assert_eq!(parse_from(b"c only a comment\n"), Err(DimacsError::UnexpectedEOF));
}

#[test]
fn header_without_clauses_is_rejected() {
    assert_eq!(
        parse_from(b"p cnf 0 0\n"),
        Err(DimacsError::UnexpectedEOF)
    );
    assert_eq!(
        parse_from(b"p cnf 3 2\n"),
        Err(DimacsError::UnexpectedEOF)
    );
}

#[test]
fn clause_split_across_lines() {
    let text = b"p cnf 3 2\n1\n-3\n0 2 3\n-1 0\n";
    assert_eq!(parse_from(text), Ok(basic_clauses()));
}

#[test]
fn line_breaks_do_not_change_clauses() {
    let a = parse_from(b"p cnf 3 2\n1 -3 0\n2 3 -1 0\n");
    let b = parse_from(b"p cnf 3 2\n1 -3 0 2 3 -1 0\n");
    assert_eq!(a, b);
    assert_eq!(a, Ok(basic_clauses()));
}

#[test]
fn last_line_without_newline() {
    assert_eq!(parse_from(b"p cnf 3 2\n1 -3 0\n2 3 -1 0"), Ok(basic_clauses()));
}

#[test]
fn crlf_and_tabs_separate_words() {
    assert_eq!(
        parse_from(b"p\tcnf 3 2\r\n1 -3 0\r\n2\t3 -1 0\r\n"),
        Ok(basic_clauses())
    );
}

#[test]
fn second_header_is_rejected() {
    assert_eq!(
        parse_from(b"c x\np cnf 3 2\n1 0\np cnf 3 2\n"),
        Err(DimacsError::Error(3, ParseIssue::HeaderRedefined(1)))
    );
}

#[test]
fn variable_above_declared_count_is_rejected() {
    assert_eq!(
        parse_from(b"p cnf 3 1\n1 -4 0\n"),
        Err(DimacsError::Error(1, ParseIssue::VarOutOfRange(-4, 3)))
    );
    assert_eq!(
        parse_from(b"p cnf 3 1\n1 -3 0\n"),
        Ok(vec![Clause::from_variables(vec![Literal::Positive(1), Literal::Negative(3)])])
    );
}

#[test]
fn comment_inside_open_clause_is_rejected() {
    assert_eq!(
        parse_from(b"p cnf 3 1\n1 -3\nc note\n0\n"),
        Err(DimacsError::Error(2, ParseIssue::UnterminatedClause))
    );
    assert_eq!(
        parse_from(b"p cnf 3 1\n1 -3 0\nc note\n"),
        Ok(vec![Clause::from_variables(vec![Literal::Positive(1), Literal::Negative(3)])])
    );
}

#[test]
fn clause_before_header_is_rejected() {
    assert_eq!(
        parse_from(b"1 2 0\np cnf 2 1\n"),
        Err(DimacsError::Error(0, ParseIssue::ClauseBeforeHeader))
    );
}

#[test]
fn header_errors() {
    assert_eq!(
        parse_from(b"p dnf 3 2\n"),
        Err(DimacsError::Error(0, ParseIssue::NotCnf(b"dnf".to_vec())))
    );
    assert_eq!(parse_from(b"p\n"), Err(DimacsError::UnexpectedEOF));
    assert_eq!(parse_from(b"p cnf 3\n"), Err(DimacsError::UnexpectedEOF));
    assert_eq!(
        parse_from(b"p cnf x 2\n"),
        Err(DimacsError::Error(0, ParseIssue::BadVarCount(b"x".to_vec())))
    );
    assert_eq!(
        parse_from(b"p cnf -3 2\n"),
        Err(DimacsError::Error(0, ParseIssue::BadVarCount(b"-3".to_vec())))
    );
    assert_eq!(
        parse_from(b"p cnf 3 two\n"),
        Err(DimacsError::Error(0, ParseIssue::BadClauseCount(b"two".to_vec())))
    );
    assert_eq!(
        parse_from(b"p cnf 18446744073709551616 1\n"),
        Err(DimacsError::Error(0, ParseIssue::BadVarCount(b"18446744073709551616".to_vec())))
    );
}

#[test]
fn bad_literal_tokens() {
    assert_eq!(
        parse_from(b"p cnf 3 1\n1 x 0\n"),
        Err(DimacsError::Error(1, ParseIssue::BadLiteral(b"x".to_vec())))
    );
    assert_eq!(
        parse_from(b"p cnf 3 1\n1 9223372036854775808 0\n"),
        Err(DimacsError::Error(1, ParseIssue::BadLiteral(b"9223372036854775808".to_vec())))
    );
    assert_eq!(
        parse_from(b"p cnf 3 1\n1 --2 0\n"),
        Err(DimacsError::Error(1, ParseIssue::BadLiteral(b"--2".to_vec())))
    );
}

#[test]
fn signed_tokens_and_extremes() {
    assert_eq!(
        parse_from(b"p cnf +3 +1\n+1 -03 0\n"),
        Ok(vec![Clause::from_variables(vec![Literal::Positive(1), Literal::Negative(3)])])
    );
    assert_eq!(
        parse_from(b"p cnf 3 1\n-9223372036854775808 0\n"),
        Err(DimacsError::Error(1, ParseIssue::VarOutOfRange(i64::MIN, 3)))
    );
}

#[test]
fn empty_clause_is_rejected() {
    assert_eq!(
        parse_from(b"p cnf 3 1\n1 0 0\n"),
        Err(DimacsError::Error(1, ParseIssue::EmptyClause))
    );
}

#[test]
fn open_clause_at_end_is_unexpected_eof() {
    assert_eq!(parse_from(b"p cnf 3 1\n1 0\n2 3\n"), Err(DimacsError::UnexpectedEOF));
    assert_eq!(parse_from(b"p cnf 3 1\n1 0\n2 3\n\n"), Err(DimacsError::UnexpectedEOF));
}

#[test]
fn blank_line_ends_input() {
    assert_eq!(
        parse_from(b"p cnf 3 1\n1 -3 0\n\nthis is never read\n"),
        Ok(vec![Clause::from_variables(vec![Literal::Positive(1), Literal::Negative(3)])])
    );
    assert_eq!(parse_from(b"\np cnf 3 1\n1 0\n"), Err(DimacsError::UnexpectedEOF));
}

#[test]
fn blank_lines() {
    assert!(cnf_sat::dimacs::is_blank(&b" \t\r\n".to_vec()));
    assert!(cnf_sat::dimacs::is_blank(&Vec::new()));
    assert!(!cnf_sat::dimacs::is_blank(&b" c\n".to_vec()));
}
