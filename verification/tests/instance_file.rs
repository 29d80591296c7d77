use lib::parser::{fold_spaces, parse_instance_text, parse_usize, token_spans, ParseError, Section};

fn sample_text() -> String {
    let lines = [
        "NAME: tiny",
        "TYPE: SOP",
        "DIMENSION: 5",
        "TMAX: 20.5",
        "SETS: 4",
        "NODE_COORD_SECTION",
        "1 0 0",
        "2 3 0",
        "3 0 4",
        "4 6.5 0",
        "5 0 8",
        "GTSP_SET_SECTION:",
        "0 0 1",
        "1 10 2 3",
        "2 20 4",
        "3 5.5 5",
        "EOF",
        "this line is never read",
    ];
    lines.join("\n")
}

fn bytes(s: &str) -> Vec<u8> {
    s.as_bytes().to_vec()
}

#[test]
fn parse_usize_reads_unsigned_decimals() {
    let s = b"42 +7 -3 12a 99999999999999999999999 + 007";
    assert_eq!(parse_usize(s, 0, 2), Some(42));
    assert_eq!(parse_usize(s, 3, 5), Some(7));
    assert_eq!(parse_usize(s, 6, 8), None);
    assert_eq!(parse_usize(s, 9, 12), None);
    assert_eq!(parse_usize(s, 13, 36), None);
    assert_eq!(parse_usize(s, 37, 38), None);
    assert_eq!(parse_usize(s, 39, 42), Some(7));
    assert_eq!(parse_usize(s, 0, 0), None);
}

#[test]
fn token_spans_split_at_white_space() {
    let s = b"  ab c\t\r\x0b d ";
    assert_eq!(token_spans(s, 0, s.len()), vec![(2, 4), (5, 6), (10, 11)]);
    assert_eq!(token_spans(s, 3, 5), vec![(3, 4)]);
    assert_eq!(token_spans(b"   ", 0, 3), Vec::<(usize, usize)>::new());
}

#[test]
fn parse_instance_text_reads_the_sample() {
    let text = sample_text();
    let inst = parse_instance_text(text.as_bytes()).expect("a readable file");
    assert_eq!(inst.num_nodes, 5);
    assert_eq!(inst.num_clusters, 4);
    assert_eq!(inst.t_max, bytes("20.5"));
    assert_eq!(inst.coords.len(), 5);
    assert_eq!(inst.coords[3], (bytes("6.5"), bytes("0")));
    assert_eq!(inst.profits, vec![bytes("0"), bytes("10"), bytes("20"), bytes("5.5")]);
    assert_eq!(inst.nodes_of_cluster, vec![vec![0], vec![1, 2], vec![3], vec![4]]);
    assert_eq!(inst.cluster_of_node, vec![0, 1, 1, 2, 3]);
    assert_eq!(inst.section, Section::Sets);
    assert!(inst.finished);
}

#[test]
fn parse_instance_text_handles_crlf_and_blank_lines() {
    let text = sample_text().replace('\n', "\r\n\r\n");
    let inst = parse_instance_text(text.as_bytes()).expect("a readable file");
    assert_eq!(inst.num_nodes, 5);
    assert_eq!(inst.coords[1], (bytes("3"), bytes("0")));
    assert_eq!(inst.nodes_of_cluster[1], vec![1, 2]);
}

#[test]
fn parse_instance_text_without_eof_reads_to_the_end() {
    let inst = parse_instance_text(b"DIMENSION: 2\nSETS: 1\nGTSP_SET_SECTION:\n0 3 2 1").unwrap();
    assert!(!inst.finished);
    assert_eq!(inst.nodes_of_cluster, vec![vec![1, 0]]);
    assert_eq!(inst.cluster_of_node, vec![0, 0]);
    assert_eq!(inst.t_max, Vec::<u8>::new());
    let empty = parse_instance_text(b"").unwrap();
    assert_eq!(empty.num_nodes, 0);
    assert_eq!(empty.section, Section::Header);
}

#[test]
fn parse_instance_text_later_headers_reset() {
    let inst = parse_instance_text(
        b"DIMENSION: 3\nSETS: 2\nGTSP_SET_SECTION:\n1 4 3\nSETS: 3\nDIMENSION: 4\n",
    )
    .unwrap();
    assert_eq!(inst.num_clusters, 3);
    assert_eq!(inst.nodes_of_cluster, vec![Vec::<usize>::new(), vec![], vec![]]);
    assert_eq!(inst.cluster_of_node, vec![0, 0, 0, 0]);
}

#[test]
fn parse_instance_text_errors() {
    assert_eq!(parse_instance_text(b"DIMENSION:").err(), Some(ParseError::MissingValue));
    assert_eq!(parse_instance_text(b"SETS: four").err(), Some(ParseError::BadInteger));
    assert_eq!(parse_instance_text(b"TMAX:\n").err(), Some(ParseError::MissingValue));
    assert_eq!(
        parse_instance_text(b"NODE_COORD_SECTION\n1 2\n").err(),
        Some(ParseError::MissingValue)
    );
    assert_eq!(
        parse_instance_text(b"DIMENSION: 2\nSETS: 2\nGTSP_SET_SECTION:\n2 5 1\n").err(),
        Some(ParseError::SetOutOfRange)
    );
    assert_eq!(
        parse_instance_text(b"DIMENSION: 2\nSETS: 2\nGTSP_SET_SECTION:\n1 5 0\n").err(),
        Some(ParseError::NodeOutOfRange)
    );
    assert_eq!(
        parse_instance_text(b"DIMENSION: 2\nSETS: 2\nGTSP_SET_SECTION:\n1 5 3\n").err(),
        Some(ParseError::NodeOutOfRange)
    );
    assert_eq!(
        parse_instance_text(b"DIMENSION: 2\nSETS: 2\nGTSP_SET_SECTION:\n1 5 x\n").err(),
        Some(ParseError::BadInteger)
    );
    assert_eq!(
        parse_instance_text(b"SETS: 2\nGTSP_SET_SECTION:\nx 5 1\n").err(),
        Some(ParseError::BadInteger)
    );
    assert_eq!(
        parse_instance_text(b"SETS: 2\nGTSP_SET_SECTION:\n1\n").err(),
        Some(ParseError::MissingValue)
    );
    assert!(parse_instance_text(b"EOF\nDIMENSION:\n").is_ok());
    assert!(parse_instance_text(b"COMMENT: DIMENSION:\n1 2\n").is_ok());
}

#[test]
fn parse_instance_text_splits_at_unicode_white_space() {
    let text = sample_text().replace("DIMENSION: 5", "DIMENSION:\u{a0}5").replace("SETS: 4", "SETS:\u{3000}4");
    let inst = parse_instance_text(text.as_bytes()).expect("a readable file");
    assert_eq!(inst.num_nodes, 5);
    assert_eq!(inst.num_clusters, 4);
    assert_eq!(inst.nodes_of_cluster, vec![vec![0], vec![1, 2], vec![3], vec![4]]);
}

#[test]
fn fold_spaces_writes_wide_spaces_as_one_byte() {
    let text = "a\u{85}b\u{a0}c\u{1680}d\u{2003}e\u{2029}f\u{202f}g\u{205f}h\u{3000}i\u{e9}j";
    assert_eq!(fold_spaces(text.as_bytes()), "a b c d e f g h i\u{e9}j".as_bytes().to_vec());
    let mut all = String::new();
    for c in text.chars() {
        if c.is_whitespace() {
            all.push(' ');
        } else {
            all.push(c);
        }
    }
    assert_eq!(fold_spaces(text.as_bytes()), all.into_bytes());
    assert_eq!(fold_spaces(b"x \t\ny"), b"x \t\ny".to_vec());
}
