use sssp_rust::dimacs::{parse_dimacs_line, parse_usize, split_tokens, DimacsError, DimacsLine, DimacsReader};

fn chars(s: &str) -> Vec<char> {
    s.chars().collect()
}

fn line(s: &str) -> Result<DimacsLine, DimacsError> {
    parse_dimacs_line(&chars(s))
}

#[test]
fn tokens_split_on_unicode_white_space() {
    let t = split_tokens(&chars("  a 1\t2   3.5\r\n"));
    assert_eq!(t, vec![chars("a"), chars("1"), chars("2"), chars("3.5")]);
    assert!(split_tokens(&chars(" \t ")).is_empty());
    // No-break space, ideographic space and next line separate tokens too,
    // as in `str::split_whitespace`.
    let s = "a\u{A0}1\u{3000}2\u{85}7\u{2009}x";
    let expected: Vec<Vec<char>> = s.split_whitespace().map(chars).collect();
    assert_eq!(split_tokens(&chars(s)), expected);
    assert_eq!(expected.len(), 5);
}

#[test]
fn usize_parsing_matches_str_parse() {
    for s in ["0", "42", "+7", "007", "18446744073709551615", "", "+", "-1", "1a", " 1", "18446744073709551616"] {
        assert_eq!(parse_usize(&chars(s)), s.parse::<usize>().ok(), "{s:?}");
    }
}

#[test]
fn problem_and_arc_lines() {
    assert_eq!(
        line("p sp 264346 733846"),
        Ok(DimacsLine::Problem { n: 264346, m: 733846 })
    );
    assert_eq!(
        line("a 1 2 803"),
        Ok(DimacsLine::Arc { tail: 0, head: 1, weight: chars("803") })
    );
    assert_eq!(line("c comment 1 2"), Ok(DimacsLine::Other));
    assert_eq!(line(""), Ok(DimacsLine::Other));
    assert_eq!(line("pp 1 2 3"), Ok(DimacsLine::Other));
}

#[test]
fn malformed_lines_are_refused() {
    assert_eq!(line("p sp 5"), Err(DimacsError::MissingField));
    assert_eq!(line("p sp"), Err(DimacsError::MissingField));
    assert_eq!(line("p sp x 3"), Err(DimacsError::BadNumber));
    assert_eq!(line("a 1 2"), Err(DimacsError::MissingField));
    assert_eq!(line("a 0 2 5"), Err(DimacsError::ZeroVertex));
    assert_eq!(line("a 1 0 5"), Err(DimacsError::ZeroVertex));
    assert_eq!(line("a 1 -2 5"), Err(DimacsError::BadNumber));
}

#[test]
fn reader_builds_and_checks_the_graph() {
    let mut r = DimacsReader::new();
    assert_eq!(r.arc(0, 1, 1), Err(DimacsError::NoProblemLine));
    r.problem(3, 2);
    assert_eq!(r.arc(0, 2, 5.0f64.to_bits()), Ok(()));
    assert_eq!(r.arc(3, 0, 1), Err(DimacsError::VertexOutOfRange));
    assert_eq!(r.arc(0, 1, 2.0f64.to_bits()), Ok(()));
    let g = r.finish().unwrap();
    assert_eq!(g.n, 3);
    assert_eq!(g.m, 2);
    assert_eq!(g.adj[0], vec![(1, 2.0f64.to_bits()), (2, 5.0f64.to_bits())]);
    let mut short = DimacsReader::new();
    short.problem(2, 3);
    short.arc(0, 1, 1).unwrap();
    assert!(matches!(short.finish(), Err(DimacsError::ArcCountMismatch)));
    assert!(matches!(DimacsReader::new().finish(), Err(DimacsError::NoProblemLine)));
}
