//! Tests of atom type classification: the pattern set, the match list,
//! and the arbitration of ambiguous matches.

use drain_flow::interning::Interner;
use drain_flow::record::tokens::GrokMatchers;
use drain_flow::record::tokens::GrokSet;
use drain_flow::record::tokens::Grokker;
use drain_flow::record::tokens::Token;
use drain_flow::record::tokens::TypedToken;

fn classify(atom: &str) -> Token {
    let matchers = GrokMatchers::new().unwrap();
    let mut it = Interner::new();
    Token::from_parse(&matchers, &mut it, atom)
}

#[test]
fn test_grok_patterns_compile() {
    assert!(GrokMatchers::new().is_ok());
}

#[test]
fn test_to_pattern_anchored() {
    let p = Grokker::Base10Integer.to_pattern();
    assert_eq!(p, r"^(?:[+-]?(?:[0-9]+))$".to_string());
}

#[test]
fn test_from_match_index() {
    assert_eq!(Grokker::from_match_index(0), Some(Grokker::Base10Integer));
    assert_eq!(Grokker::from_match_index(4), Some(Grokker::UUID));
    assert_eq!(Grokker::from_match_index(10), Some(Grokker::Day));
    assert_eq!(Grokker::from_match_index(11), None);
}

#[test]
fn test_token_from_parse_uuid() {
    // a UUID also matches the hostname pattern; arbitration keeps UUID
    assert_eq!(
        classify("f81d4fae-7dec-11d0-a765-00a0c91e6bf6"),
        Token::TypedMatch(Grokker::UUID),
    );
}

#[test]
fn test_token_from_parse_mac() {
    assert_eq!(classify("00:1A:2b:3C:4d:5E"), Token::TypedMatch(Grokker::MAC));
}

#[test]
fn test_token_from_parse_ipv6() {
    assert_eq!(classify("2001:db8:0:0:0:0:2:1"), Token::TypedMatch(Grokker::IPv6));
}

#[test]
fn test_token_from_parse_int10() {
    // digits match both integer classes and the hostname pattern;
    // arbitration keeps the base-10 integer
    assert_eq!(classify("12345"), Token::TypedMatch(Grokker::Base10Integer));
    assert_eq!(classify("+123"), Token::TypedMatch(Grokker::Base10Integer));
}

#[test]
fn test_token_from_parse_int16() {
    assert_eq!(classify("0xDEADBEEF"), Token::TypedMatch(Grokker::Base16Integer));
}

#[test]
fn test_token_from_parse_float10() {
    assert_eq!(classify("3.14"), Token::TypedMatch(Grokker::Base10Float));
    assert_eq!(classify("-0.5"), Token::TypedMatch(Grokker::Base10Float));
}

#[test]
fn test_token_from_parse_float16() {
    assert_eq!(classify("0x1A.F"), Token::TypedMatch(Grokker::Base16Float));
}

#[test]
fn test_token_from_parse_ipv4_falls_to_wildcard() {
    // a dotted quad also matches the hostname pattern, and that pair is
    // not rescued by the arbitration table, so it generalizes to a
    // wildcard
    assert_eq!(classify("192.168.0.1"), Token::Wildcard);
}

#[test]
fn test_token_from_parse_month_falls_to_wildcard() {
    // month names also match the hostname pattern, another unrescued pair
    assert_eq!(classify("Jan"), Token::Wildcard);
}

#[test]
fn test_token_from_parse_hostname() {
    assert_eq!(classify("foo.bar.com"), Token::TypedMatch(Grokker::Hostname));
}

#[test]
fn test_token_from_parse_unmatched_is_value() {
    let matchers = GrokMatchers::new().unwrap();
    let mut it = Interner::new();
    let t = Token::from_parse(&matchers, &mut it, "host:");
    match t {
        Token::Value(TypedToken::String(sym)) => {
            assert_eq!(it.resolve(sym).unwrap(), "host:".to_string());
        },
        other => panic!("expected a string value, got {:?}", other),
    }
}

#[test]
fn test_typed_token_from_parse() {
    let mut it = Interner::new();
    let t = TypedToken::from_parse(&mut it, "payload");
    match t {
        TypedToken::String(sym) => {
            assert_eq!(it.resolve(sym).unwrap(), "payload".to_string());
        },
        other => panic!("expected a string, got {:?}", other),
    }
}

#[test]
fn test_grokset_is_numeric() {
    let matchers = GrokMatchers::new().unwrap();
    assert!(GrokSet::new(&matchers, "12345").is_numeric());
    assert!(GrokSet::new(&matchers, "3.14").is_numeric());
    assert!(GrokSet::new(&matchers, "0xFF").is_numeric());
    assert!(!GrokSet::new(&matchers, "pigeon-post").is_numeric());
}

#[test]
fn test_grokset_is_integer() {
    let matchers = GrokMatchers::new().unwrap();
    assert!(GrokSet::new(&matchers, "12345").is_integer());
    assert!(GrokSet::new(&matchers, "0xFF").is_integer());
    assert!(!GrokSet::new(&matchers, "3.14").is_integer());
    assert!(!GrokSet::new(&matchers, "pigeon-post").is_integer());
}
