use hostsfile::{HostsFile, HostsFileHost, HostsFileLine};
use std::str::FromStr;

fn host(ip: &str, hosts: &[&str], comment: Option<&str>) -> HostsFileLine {
    HostsFileLine::Host(HostsFileHost {
        ip: ip.to_string(),
        hosts: hosts.iter().map(|h| h.to_string()).collect(),
        comment: comment.map(|c| c.to_string()),
    })
}

#[test]
fn empty_input() {
    let parsed = HostsFile::from_str("").unwrap();
    let expected = HostsFile { lines: vec![] };
    assert_eq!(parsed, expected);
}

#[test]
fn a_comment() {
    let parsed = HostsFile::from_str("# comment").unwrap();
    let expected = HostsFile {
        lines: vec![HostsFileLine::from_comment("# comment")],
    };
    assert_eq!(parsed, expected);
}

#[test]
fn two_comments() {
    let parsed = HostsFile::from_str("# comment1\n## comment2\n").unwrap();
    let expected = HostsFile {
        lines: vec![
            HostsFileLine::from_comment("# comment1"),
            HostsFileLine::from_comment("## comment2"),
        ],
    };
    assert_eq!(parsed, expected);
}

#[test]
fn host_with_comments() {
    let parsed = HostsFile::from_str("127.0.0.1 localhost # comment\n").unwrap();
    let expected = HostsFile {
        lines: vec![HostsFileLine::Host(HostsFileHost {
            ip: "127.0.0.1".to_string(),
            hosts: vec!["localhost".to_string()],
            comment: Some("# comment".to_string()),
        })],
    };
    assert_eq!(parsed, expected);
}

#[test]
fn whitespace() {
    let parsed = HostsFile::from_str(" # comment1\n \n    127.0.0.1    localhost\n").unwrap();
    let expected = HostsFile {
        lines: vec![
            HostsFileLine::from_comment("# comment1"),
            HostsFileLine::from_empty(),
            HostsFileLine::from_string("127.0.0.1 localhost").unwrap(),
        ],
    };
    assert_eq!(parsed, expected);
}

#[test]
fn a_ipv6_host() {
    let parsed = HostsFile::from_str("fe80::1%lo0 localhost\n").unwrap();
    let expected = HostsFile {
        lines: vec![HostsFileLine::Host(HostsFileHost {
            ip: "fe80::1%lo0".to_string(),
            hosts: vec!["localhost".to_string()],
            comment: None,
        })],
    };
    assert_eq!(parsed, expected);
}

#[test]
fn a_ipv4_host() {
    let parsed = HostsFile::from_str("127.0.0.1 localhost").unwrap();
    let expected = HostsFile {
        lines: vec![HostsFileLine::Host(HostsFileHost {
            ip: "127.0.0.1".to_string(),
            hosts: vec!["localhost".to_string()],
            comment: None,
        })],
    };
    assert_eq!(parsed, expected);
}

#[test]
fn complex_1() {
    let parsed = HostsFile::from_str("# A sample host file\n# empty line\n\n127.0.0.1 localhost\n# multiple hosts\n127.0.0.2 host1 host2\n").unwrap();
    let expected = HostsFile {
        lines: vec![
            HostsFileLine::from_comment("# A sample host file"),
            HostsFileLine::from_comment("# empty line"),
            HostsFileLine::from_empty(),
            HostsFileLine::Host(HostsFileHost {
                ip: "127.0.0.1".to_string(),
                hosts: vec!["localhost".to_string()],
                comment: None,
            }),
            HostsFileLine::from_comment("# multiple hosts"),
            HostsFileLine::Host(HostsFileHost {
                ip: "127.0.0.2".to_string(),
                hosts: vec!["host1", "host2"].iter().map(|s| s.to_string()).collect(),
                comment: None,
            }),
        ],
    };
    assert_eq!(parsed, expected);
}

#[test]
fn serialize_empty() {
    let input = "\n";
    let serialized = HostsFile::from_str(input).unwrap().serialize();
    assert_eq!(serialized, input);
}

#[test]
fn serialize_a_comment() {
    let input = "# a comment\n";
    let serialized = HostsFile::from_str(input).unwrap().serialize();
    assert_eq!(serialized, input);
}

#[test]
fn serialize_complex_1() {
    let input = "# A sample host file\n# empty line\n\n127.0.0.1 localhost\n# multiple hosts\n127.0.0.2 host1 host2\n";
    let serialized = HostsFile::from_str(input).unwrap().serialize();
    assert_eq!(serialized, input);
}

#[test]
fn empty_document_serializes_to_newline() {
    let parsed = HostsFile::from_string("").unwrap();
    assert_eq!(parsed.lines.len(), 0);
    assert_eq!(parsed.serialize(), "\n");
}

#[test]
fn end_to_end_six_records() {
    let input = "# A sample host file\n# empty line\n\n127.0.0.1 localhost\n# multiple hosts\n127.0.0.2 host1 host2\n";
    let parsed = HostsFile::from_string(input).unwrap();
    assert_eq!(parsed.lines.len(), 6);
    assert!(matches!(parsed.lines[0], HostsFileLine::Comment(_)));
    assert!(matches!(parsed.lines[1], HostsFileLine::Comment(_)));
    assert!(matches!(parsed.lines[2], HostsFileLine::Empty));
    assert_eq!(parsed.lines[3], host("127.0.0.1", &["localhost"], None));
    assert!(matches!(parsed.lines[4], HostsFileLine::Comment(_)));
    assert_eq!(parsed.lines[5], host("127.0.0.2", &["host1", "host2"], None));
    assert_eq!(parsed.serialize(), input);
}

#[test]
fn canonical_text_round_trips() {
    let input = "127.0.0.1 localhost # loopback\n\n# note\n::1 a b c\n";
    let parsed = HostsFile::from_string(input).unwrap();
    assert_eq!(parsed.serialize(), input);
}

#[test]
fn irregular_document_is_normalized() {
    let input = "  127.0.0.1\t\tlocalhost  \n   \n# keep  this\n";
    let parsed = HostsFile::from_string(input).unwrap();
    assert_eq!(parsed.serialize(), "127.0.0.1 localhost\n\n# keep  this\n");
}

#[test]
fn crlf_line_endings() {
    let parsed = HostsFile::from_string("127.0.0.1 localhost\r\n# c\r\n").unwrap();
    assert_eq!(
        parsed.lines,
        vec![host("127.0.0.1", &["localhost"], None), HostsFileLine::from_comment("# c")]
    );
}

#[test]
fn one_bad_line_fails_the_document() {
    assert!(HostsFile::from_string("# ok\n127.0.0.1\n10.0.0.1 ok\n").is_err());
    assert!(HostsFile::from_str("10.0.0.1 a\n10.0.0.2 # none\n").is_err());
}

#[test]
fn trailing_blank_lines_kept() {
    let input = "10.0.0.1 a\n\n\n";
    let parsed = HostsFile::from_string(input).unwrap();
    assert_eq!(parsed.lines.len(), 3);
    assert_eq!(parsed.serialize(), input);
}

#[test]
fn serialize_after_parse_is_idempotent() {
    for input in ["", "\n", "  10.0.0.1\ta   b #  x  y \n\n #  c  \n", "# only"] {
        let once = HostsFile::from_str(input).unwrap().serialize();
        let twice = HostsFile::from_str(&once).unwrap().serialize();
        assert_eq!(once, twice);
    }
}

#[test]
fn from_str_agrees_with_from_string() {
    let input = " # c\n10.0.0.1 a # n\n\n";
    assert_eq!(HostsFile::from_str(input).unwrap(), HostsFile::from_string(input).unwrap());
    assert_eq!(
        HostsFileLine::from_str(" 10.0.0.1  a ").unwrap(),
        HostsFileLine::from_string("10.0.0.1 a").unwrap()
    );
}
