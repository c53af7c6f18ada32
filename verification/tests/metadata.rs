//! The annotation extractor and the URL scanner.

use reposcrape::extract_urls;
use reposcrape::urls_of_text;
use reposcrape::Metadata;

#[test]
fn test_extract_key_value() {
    let m = Metadata::extract("<!-- project: pablo -->\nplain text\n<!--   TItle:  hello  -->");
    assert_eq!(m.len(), 2);
    assert_eq!(m.get("PROJECT").unwrap(), "pablo");
    assert_eq!(m.get("TITLE").unwrap(), "hello");
}

#[test]
fn test_extract_later_pair_overwrites() {
    let m = Metadata::extract("<!-- title: first -->\n<!-- TITLE: second -->");
    assert_eq!(m.len(), 1);
    assert_eq!(m.get("TITLE").unwrap(), "second");
}

#[test]
fn test_extract_section_accumulates() {
    let text = "<!-- description START -->\nline one\n\n  line two  \n<!-- description END -->";
    let m = Metadata::extract(text);
    assert_eq!(m.get("DESCRIPTION").unwrap(), "line one line two");
}

#[test]
fn test_extract_mismatched_end_is_ignored() {
    let text = "<!-- alpha START -->\nbody\n<!-- beta END -->\nmore\n<!-- alpha END -->";
    let m = Metadata::extract(text);
    assert_eq!(m.get("ALPHA").unwrap(), "body more");
    assert!(m.get("BETA").is_none());
}

#[test]
fn test_extract_unopened_end_is_ignored() {
    let m = Metadata::extract("<!-- alpha END -->\n<!-- key: v -->");
    assert_eq!(m.len(), 1);
    assert_eq!(m.get("KEY").unwrap(), "v");
}

#[test]
fn test_extract_second_opener_wins() {
    let text = "<!-- a START -->\nold\n<!-- b START -->\nnew\n<!-- b END -->";
    let m = Metadata::extract(text);
    assert_eq!(m.len(), 1);
    assert_eq!(m.get("B").unwrap(), "new");
}

#[test]
fn test_extract_keyword_takes_next_line() {
    let text = "<!-- HIGHLIGHT -->\nthe very next raw line\n<!-- highlight -->\nsecond try";
    let m = Metadata::extract(text);
    // The first trigger wins; the later one finds the key taken.
    assert_eq!(m.get("HIGHLIGHT").unwrap(), "the very next raw line");
}

#[test]
fn test_extract_keyword_at_end_is_dropped() {
    let m = Metadata::extract("<!-- LOGO -->");
    assert!(m.is_empty());
}

#[test]
fn test_extract_status_cleanup() {
    let m = Metadata::extract("<!-- status:  `*Work In Progress*`  -->");
    assert_eq!(m.get("STATUS").unwrap(), "Work In Progress");
}

#[test]
fn test_extract_spaced_closer() {
    let m = Metadata::extract("<!-- key: value - - >");
    assert_eq!(m.get("KEY").unwrap(), "value");
}

#[test]
fn test_extract_plain_text_alone() {
    let m = Metadata::extract("just a readme\nwith lines\n");
    assert!(m.is_empty());
}

#[test]
fn test_extract_urls_tokens() {
    let lines = vec![
        "see https://github.com/u/one and http://docs.example.com/path?q=1",
        "bare domain crates.io here, but not this. sentence",
    ];
    let urls = extract_urls(&lines);
    assert_eq!(
        urls,
        vec![
            String::from("https://github.com/u/one"),
            String::from("http://docs.example.com/path?q=1"),
            String::from("crates.io"),
        ]
    );
}

#[test]
fn test_extract_urls_respects_domain_bounds() {
    // A dot needs at least two domain characters before it, the ending two
    // to six lower-case letters at a word boundary.
    let lines = vec![
        "x.yz too-short host",
        "files.abcdefgh over-long ending",
        "ab.com3 ending runs into a digit",
        "ab.COM upper-case ending",
    ];
    let urls = extract_urls(&lines);
    assert!(urls.is_empty());
}

#[test]
fn test_urls_of_text_per_line() {
    let urls = urls_of_text("https://a.example.org/x\nnothing\nwww.rust-lang.org\n");
    assert_eq!(
        urls,
        vec![String::from("https://a.example.org/x"), String::from("www.rust-lang.org")]
    );
}

#[test]
fn test_extract_handles_crlf_lines() {
    let m = Metadata::extract("<!-- key: v -->\r\n<!-- other: w -->\r\n");
    assert_eq!(m.len(), 2);
    assert_eq!(m.get("KEY").unwrap(), "v");
    assert_eq!(m.get("OTHER").unwrap(), "w");
}

#[test]
fn test_extract_empty_section_stores_empty() {
    let m = Metadata::extract("<!-- gap START -->\n<!-- gap END -->");
    assert_eq!(m.get("GAP").unwrap(), "");
}
