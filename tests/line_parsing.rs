use hostsfile::{HostsFileHost, HostsFileLine};
use std::str::FromStr;

fn host(ip: &str, hosts: &[&str], comment: Option<&str>) -> HostsFileLine {
    HostsFileLine::Host(HostsFileHost {
        ip: ip.to_string(),
        hosts: hosts.iter().map(|h| h.to_string()).collect(),
        comment: comment.map(|c| c.to_string()),
    })
}

#[test]
fn from_empty() {
    let parsed = HostsFileLine::from_empty();
    let expected = HostsFileLine::Empty;
    assert_eq!(parsed, expected);
}

#[test]
fn from_comment() {
    let parsed = HostsFileLine::from_comment("#test");
    let expected = HostsFileLine::Comment("#test".to_string());
    assert_eq!(parsed, expected);
}

#[test]
fn empty_line_from_string() {
    let parsed = HostsFileLine::from_string("").unwrap();
    let expected = HostsFileLine::from_empty();
    assert_eq!(parsed, expected);
}

#[test]
fn comment_from_string() {
    let parsed = HostsFileLine::from_string("# comment").unwrap();
    let expected = HostsFileLine::from_comment("# comment");
    assert_eq!(parsed, expected);
}

#[test]
fn broken_from_string() {
    HostsFileLine::from_string("127.0.0.1").expect_err("should fail");
}

#[test]
fn host_from_string() {
    let parsed = HostsFileLine::from_string("127.0.0.1 localhost").unwrap();
    let expected = HostsFileLine::Host(HostsFileHost {
        ip: "127.0.0.1".to_string(),
        hosts: vec!["localhost".to_string()],
        comment: None,
    });
    assert_eq!(parsed, expected);
}

#[test]
fn full_from_string() {
    let parsed = HostsFileLine::from_string("127.0.0.1 localhost  # a comment").unwrap();
    let expected = HostsFileLine::Host(HostsFileHost {
        ip: "127.0.0.1".to_string(),
        hosts: vec!["localhost".to_string()],
        comment: Some("# a comment".to_string()),
    });
    assert_eq!(parsed, expected);
}

#[test]
fn blank_line_is_empty_and_renders_to_nothing() {
    let parsed = HostsFileLine::from_string(" \t  \u{a0}\u{3000} ").unwrap();
    assert_eq!(parsed, HostsFileLine::Empty);
    assert_eq!(parsed.render(), "");
}

#[test]
fn comment_kept_exactly() {
    let parsed = HostsFileLine::from_string("# hello world").unwrap();
    assert_eq!(parsed, HostsFileLine::Comment("# hello world".to_string()));
    assert_eq!(parsed.render(), "# hello world");
}

#[test]
fn comment_line_trimmed_with_inner_spacing_kept() {
    let parsed = HostsFileLine::from_string("   #  two  spaces \t").unwrap();
    assert_eq!(parsed, HostsFileLine::Comment("#  two  spaces".to_string()));
}

#[test]
fn host_without_comment() {
    let parsed = HostsFileLine::from_string("127.0.0.1 localhost").unwrap();
    assert_eq!(parsed.ip(), Some("127.0.0.1".to_string()));
    assert_eq!(parsed.hosts(), vec!["localhost".to_string()]);
    assert_eq!(parsed.comment(), None);
    assert!(parsed.has_host());
    assert!(!parsed.has_comment());
}

#[test]
fn host_with_several_names_and_comment() {
    let parsed = HostsFileLine::from_string("127.0.0.2 host1 host2 # note").unwrap();
    assert_eq!(parsed, host("127.0.0.2", &["host1", "host2"], Some("# note")));
    assert_eq!(parsed.ip(), Some("127.0.0.2".to_string()));
    assert_eq!(parsed.hosts(), vec!["host1".to_string(), "host2".to_string()]);
    assert_eq!(parsed.comment(), Some("# note".to_string()));
    assert!(parsed.has_comment());
}

#[test]
fn address_alone_fails() {
    assert!(HostsFileLine::from_string("127.0.0.1").is_err());
    assert!(HostsFileLine::from_string("  127.0.0.1   ").is_err());
}

#[test]
fn address_then_comment_fails() {
    assert!(HostsFileLine::from_string("127.0.0.1 #localhost").is_err());
}

#[test]
fn ipv6_address_kept_as_is() {
    let parsed = HostsFileLine::from_string("fe80::1%lo0 localhost").unwrap();
    assert_eq!(parsed.ip(), Some("fe80::1%lo0".to_string()));
    assert_eq!(parsed, host("fe80::1%lo0", &["localhost"], None));
}

#[test]
fn irregular_spacing_is_normalized() {
    let parsed = HostsFileLine::from_string("\t127.0.0.1   host1\t\thost2    #  a   note ").unwrap();
    assert_eq!(parsed, host("127.0.0.1", &["host1", "host2"], Some("# a note")));
    assert_eq!(parsed.render(), "127.0.0.1 host1 host2 # a note");
}

#[test]
fn hash_inside_token_is_a_hostname() {
    let parsed = HostsFileLine::from_string("127.0.0.1 host#x other").unwrap();
    assert_eq!(parsed, host("127.0.0.1", &["host#x", "other"], None));
}

#[test]
fn unicode_whitespace_separates_tokens() {
    let parsed = HostsFileLine::from_string("\u{a0}10.0.0.1\u{3000}a\u{2003}b\u{85}").unwrap();
    assert_eq!(parsed, host("10.0.0.1", &["a", "b"], None));
}

#[test]
fn accessors_on_other_lines() {
    let empty = HostsFileLine::from_empty();
    assert_eq!(empty.ip(), None);
    assert!(empty.hosts().is_empty());
    assert_eq!(empty.comment(), None);
    assert!(!empty.has_host());
    assert!(!empty.has_comment());
    let comment = HostsFileLine::from_comment("# c");
    assert_eq!(comment.ip(), None);
    assert!(comment.hosts().is_empty());
    assert_eq!(comment.comment(), Some("# c".to_string()));
    assert!(!comment.has_host());
    assert!(comment.has_comment());
}

#[test]
fn render_each_kind() {
    assert_eq!(HostsFileLine::from_empty().render(), "");
    assert_eq!(HostsFileLine::from_comment("#x  y").render(), "#x  y");
    assert_eq!(host("1.2.3.4", &["a", "b", "c"], None).render(), "1.2.3.4 a b c");
    assert_eq!(host("1.2.3.4", &["a"], Some("# z")).render(), "1.2.3.4 a # z");
}

#[test]
fn line_from_str_trait() {
    let parsed = HostsFileLine::from_str("127.0.0.1 localhost").unwrap();
    assert_eq!(parsed, host("127.0.0.1", &["localhost"], None));
}
