use degrees_of_separation::parse::{parse_edges, parse_line, parse_node, LineError, ParseError};
use degrees_of_separation::separation::avg_degrees_of_separation;

#[test]
fn node_is_decimal_digits() {
    assert_eq!(parse_node(b"0"), Some(0));
    assert_eq!(parse_node(b"7"), Some(7));
    assert_eq!(parse_node(b"12"), Some(12));
    assert_eq!(parse_node(b"0012"), Some(12));
    assert_eq!(parse_node(b"1234567890"), Some(1234567890));
}

#[test]
fn node_may_have_a_plus_sign() {
    assert_eq!(parse_node(b"+5"), Some(5));
    assert_eq!(parse_node(b"+"), None);
    assert_eq!(parse_node(b"++5"), None);
    assert_eq!(parse_node(b"5+"), None);
}

#[test]
fn node_fits_in_32_bits() {
    assert_eq!(parse_node(b"4294967295"), Some(u32::MAX));
    assert_eq!(parse_node(b"4294967296"), None);
    assert_eq!(parse_node(b"4294967300"), None);
    assert_eq!(parse_node(b"42949672950"), None);
    assert_eq!(parse_node(b"99999999999999999999999"), None);
    assert_eq!(parse_node(b"00000000004294967295"), Some(u32::MAX));
}

#[test]
fn node_rejects_everything_else() {
    assert_eq!(parse_node(b""), None);
    assert_eq!(parse_node(b"-1"), None);
    assert_eq!(parse_node(b"-0"), None);
    assert_eq!(parse_node(b" 1"), None);
    assert_eq!(parse_node(b"1 "), None);
    assert_eq!(parse_node(b"1\r"), None);
    assert_eq!(parse_node(b"12a"), None);
    assert_eq!(parse_node(b"0x10"), None);
    assert_eq!(parse_node(b"1.0"), None);
    assert_eq!(parse_node(b"/"), None);
    assert_eq!(parse_node(b":"), None);
}

#[test]
fn node_agrees_with_the_standard_parser() {
    let fields: [&str; 12] = [
        "0", "+0", "10", "+10", "4294967295", "4294967296", "", "+", "-3", "3-", "1e3", "٣",
    ];
    for field in fields {
        assert_eq!(parse_node(field.as_bytes()), field.parse::<u32>().ok());
    }
}

#[test]
fn line_holds_two_fields() {
    assert_eq!(parse_line(b"1\t2"), Ok((1, 2)));
    assert_eq!(parse_line(b"30\t4000"), Ok((30, 4000)));
    assert_eq!(parse_line(b"+1\t+2"), Ok((1, 2)));
    assert_eq!(parse_line(b"4294967295\t0"), Ok((u32::MAX, 0)));
}

#[test]
fn line_with_further_fields_is_faulty() {
    assert_eq!(parse_line(b"1\t2\t3"), Err(LineError::InvalidTo));
    assert_eq!(parse_line(b"1\t2\tnot a number"), Err(LineError::InvalidTo));
    assert_eq!(parse_line(b"1\t2\t"), Err(LineError::InvalidTo));
    assert_eq!(parse_line(b"1\t2\t3\t4"), Err(LineError::InvalidTo));
    assert_eq!(parse_line(b"x\t2\t3"), Err(LineError::InvalidFrom));
}

#[test]
fn text_with_a_third_field_is_faulty() {
    assert_eq!(
        parse_edges(b"1\t2\tx\n"),
        Err(ParseError { line: 1, kind: LineError::InvalidTo })
    );
    assert_eq!(
        parse_edges(b"1\t2\n# c\n3\t4\t5\n6\t7\n"),
        Err(ParseError { line: 3, kind: LineError::InvalidTo })
    );
    assert_eq!(parse_edges(b"#1\t2\t3\n4\t5\n"), Ok(vec![(4, 5)]));
}

#[test]
fn line_errors() {
    assert_eq!(parse_line(b""), Err(LineError::InvalidFrom));
    assert_eq!(parse_line(b"x\t2"), Err(LineError::InvalidFrom));
    assert_eq!(parse_line(b"\t2"), Err(LineError::InvalidFrom));
    assert_eq!(parse_line(b"1 2"), Err(LineError::InvalidFrom));
    assert_eq!(parse_line(b"x"), Err(LineError::InvalidFrom));
    assert_eq!(parse_line(b"4294967296\t2"), Err(LineError::InvalidFrom));
    assert_eq!(parse_line(b"1"), Err(LineError::MissingTo));
    assert_eq!(parse_line(b"1\t"), Err(LineError::InvalidTo));
    assert_eq!(parse_line(b"1\t\t2"), Err(LineError::InvalidTo));
    assert_eq!(parse_line(b"1\ty"), Err(LineError::InvalidTo));
    assert_eq!(parse_line(b"1\t2 "), Err(LineError::InvalidTo));
    assert_eq!(parse_line(b"1\t4294967296"), Err(LineError::InvalidTo));
}

#[test]
fn text_of_edges() {
    assert_eq!(parse_edges(b"1\t2\n2\t3\n1\t3\n"), Ok(vec![(1, 2), (2, 3), (1, 3)]));
    assert_eq!(parse_edges(b"1\t2\n2\t3\n1\t3"), Ok(vec![(1, 2), (2, 3), (1, 3)]));
    assert_eq!(parse_edges(b"1\t2"), Ok(vec![(1, 2)]));
    assert_eq!(parse_edges(b"1\t2\n1\t2\n"), Ok(vec![(1, 2), (1, 2)]));
}

#[test]
fn empty_text_has_no_edges() {
    assert_eq!(parse_edges(b""), Ok(vec![]));
    let edges = parse_edges(b"").unwrap();
    assert!(!avg_degrees_of_separation(&edges).is_defined());
}

#[test]
fn comments_are_skipped() {
    let text = b"# Directed graph\n# FromNodeId\tToNodeId\n0\t1\n#\n1\t0\n#2\t2\n";
    assert_eq!(parse_edges(text), Ok(vec![(0, 1), (1, 0)]));
    assert_eq!(parse_edges(b"# only a comment"), Ok(vec![]));
    assert_eq!(parse_edges(b"#\n#\n"), Ok(vec![]));
}

#[test]
fn carriage_return_before_line_feed_is_dropped() {
    assert_eq!(parse_edges(b"1\t2\r\n3\t4\r\n"), Ok(vec![(1, 2), (3, 4)]));
    assert_eq!(parse_edges(b"# note\r\n1\t2\r\n"), Ok(vec![(1, 2)]));
    // Only one carriage return belongs to the line break.
    assert_eq!(
        parse_edges(b"1\t2\r\r\n"),
        Err(ParseError { line: 1, kind: LineError::InvalidTo })
    );
    // Without a line feed after it, a carriage return belongs to the line.
    assert_eq!(
        parse_edges(b"1\t2\n3\t4\r"),
        Err(ParseError { line: 2, kind: LineError::InvalidTo })
    );
}

#[test]
fn first_faulty_line_is_named() {
    assert_eq!(
        parse_edges(b"1\t2\nx\t3\n4\n"),
        Err(ParseError { line: 2, kind: LineError::InvalidFrom })
    );
    assert_eq!(
        parse_edges(b"# c\n1\t2\n# c\n4\n5\tz\n"),
        Err(ParseError { line: 4, kind: LineError::MissingTo })
    );
    assert_eq!(
        parse_edges(b"1\t2\n3\tz"),
        Err(ParseError { line: 2, kind: LineError::InvalidTo })
    );
}

#[test]
fn blank_line_is_faulty() {
    assert_eq!(
        parse_edges(b"1\t2\n\n3\t4\n"),
        Err(ParseError { line: 2, kind: LineError::InvalidFrom })
    );
    assert_eq!(parse_edges(b"\n"), Err(ParseError { line: 1, kind: LineError::InvalidFrom }));
    assert_eq!(parse_edges(b"\r\n"), Err(ParseError { line: 1, kind: LineError::InvalidFrom }));
    assert_eq!(
        parse_edges(b" # indented\n"),
        Err(ParseError { line: 1, kind: LineError::InvalidFrom })
    );
}

#[test]
fn text_to_graph_average() {
    let edges = parse_edges(b"# a path\n1\t2\n2\t3\n").unwrap();
    let mean = avg_degrees_of_separation(&edges);
    let mut totals: Vec<(u64, u64)> = mean.terms.iter().map(|t| (t.total, t.others)).collect();
    totals.sort();
    assert_eq!(totals, vec![(1, 1), (3, 2)]);
}
