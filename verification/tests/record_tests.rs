//! Tests of records: tokenization, lengths, first symbols, similarity
//! scoring, iteration, and stable rendering.

use drain_flow::interning::Interner;
use drain_flow::log_group::LogGroup;
use drain_flow::log_group::Wildcard;
use drain_flow::record::Record;
use drain_flow::record::tokens::Token;
use drain_flow::record::tokens::TokenStream;
use drain_flow::record::tokens::TypedToken;
use drain_flow::record::tokens::token_eq;

#[test]
fn test_record_first() {
    let mut it = Interner::new();
    let input = "Message send failed to remote host: foo.bar.com".to_string();
    let rec = Record::new(&mut it, input);
    let val = rec.first(&mut it).unwrap();
    assert_eq!(Record::resolve(&it, val).unwrap(), "Message");
}

#[test]
fn test_record_len() {
    let mut it = Interner::new();
    let input = "Message send failed to remote host: foo.bar.com".to_string();
    let rec = Record::new(&mut it, input);
    assert_eq!(rec.len(), 7);
}

#[test]
fn test_consuming_iter() {
    let mut it = Interner::new();
    let input = "Message send failed to remote host: foo.bar.com".to_string();
    let rec = Record::new(&mut it, input.clone());
    let mut tokens: Vec<String> = Vec::new();
    let mut iter = rec.into_iter();
    while let Some(text) = iter.next(&it) {
        tokens.push(text);
    }
    let words = input
        .split(|c: char| c.is_whitespace())
        .map(|s| s.to_owned())
        .collect::<Vec<String>>();
    for w in &words {
        assert!(tokens.contains(w));
    }
}

#[test]
fn test_non_consuming_iter() {
    let mut it = Interner::new();
    let input = "Message send failed to remote host: foo.bar.com".to_string();
    let rec = Record::new(&mut it, input);
    let mut tokens: Vec<Token> = Vec::new();
    let mut iter = rec.iter();
    while let Some(t) = iter.next() {
        tokens.push(t);
    }
    assert_eq!(tokens.len(), 7);
}

#[test]
fn test_discover_variables() {
    let mut it = Interner::new();
    let rec1 = Record::new(&mut it, "Common prefix Common prefix Common prefix 1234".to_string());
    let lg = LogGroup::new(rec1);
    let rec2 = Record::new(&mut it, "Common prefix Common prefix Common prefix 3456".to_string());
    let vars = lg.discover_variables(&rec2);
    assert_eq!(vars, Ok(vec![Wildcard((6, Token::Wildcard))]));
}

#[test]
fn test_update_variables() {
    let mut it = Interner::new();
    let r1 = Record::new(&mut it, "Common Prefix Common Prefix Common Prefix 6789".to_string());
    let r2 = Record::new(&mut it, "Common Prefix Common Prefix Common Prefix 827364".to_string());
    let mut lg = LogGroup::new(r1);

    let vars = lg.discover_variables(&r2).unwrap();
    lg.update_variables(vars);
    assert!(lg.variables.iter().any(|(pos, _)| *pos == 6));
}

#[test]
fn test_interner_idempotent() {
    let mut it = Interner::new();
    let a = it.intern("carrier");
    let b = it.intern("pigeon");
    let a2 = it.intern("carrier");
    assert_eq!(a, a2);
    assert_ne!(a, b);
    assert_eq!(it.resolve(a).unwrap(), "carrier".to_string());
    assert_eq!(it.resolve(b).unwrap(), "pigeon".to_string());
    assert_eq!(it.len(), 2);
    assert_eq!(it.resolve(17), None);
}

#[test]
fn test_empty_and_single_atom_lines() {
    let mut it = Interner::new();
    let empty = Record::new(&mut it, "".to_string());
    assert_eq!(empty.len(), 0);
    assert!(empty.is_empty());
    assert_eq!(empty.first(&mut it), None);

    let ws = Record::new(&mut it, "   ".to_string());
    assert_eq!(ws.len(), 0);

    let single = Record::new(&mut it, "lonely".to_string());
    assert_eq!(single.len(), 1);
    assert!(!single.is_empty());
    let sym = single.first(&mut it).unwrap();
    assert_eq!(Record::resolve(&it, sym).unwrap(), "lonely");
}

#[test]
fn test_repeated_atoms_bind_successive_offsets() {
    let mut it = Interner::new();
    let rec = Record::new(&mut it, "ping ping ping".to_string());
    assert_eq!(rec.len(), 3);
    // all three atoms intern to the same symbol
    let mut iter = rec.iter();
    let t0 = iter.next().unwrap();
    let t1 = iter.next().unwrap();
    let t2 = iter.next().unwrap();
    assert_eq!(t0, t1);
    assert_eq!(t1, t2);
}

#[test]
fn test_sim_score_exact_and_bounded() {
    let mut it = Interner::new();
    let a = Record::new(&mut it, "Message send failed to remote host: foo.bar.com".to_string());
    let b = Record::new(&mut it, "Message send failed to remote host: bork.bork.com".to_string());
    assert_eq!(a.calc_sim_score(&b), 6);
    assert_eq!(b.calc_sim_score(&a), 6);
    let c = Record::new(&mut it, "Message send".to_string());
    let score = a.calc_sim_score(&c);
    assert_eq!(score, 2);
    assert!(score <= a.len() as u64 && score <= c.len() as u64);
    let d = Record::new(&mut it, "totally different words here now also".to_string());
    assert_eq!(a.calc_sim_score(&d), 0);
}

#[test]
fn test_sim_score_common_prefix() {
    let mut it = Interner::new();
    let a = Record::new(&mut it, "alpha beta gamma delta one".to_string());
    let b = Record::new(&mut it, "alpha beta gamma delta two six".to_string());
    // a common prefix of four identical atoms scores at least four
    assert!(a.calc_sim_score(&b) >= 4);
}

#[test]
fn test_wildcard_reflexivity() {
    let mut it = Interner::new();
    let sym = it.intern("anything");
    let candidates = vec![
        Token::Wildcard,
        Token::TypedMatch(drain_flow::record::tokens::Grokker::UUID),
        Token::Value(TypedToken::String(sym)),
        Token::Value(TypedToken::Int(42)),
    ];
    for t in &candidates {
        assert!(token_eq(&Token::Wildcard, t));
        assert!(token_eq(t, &Token::Wildcard));
        assert!(token_eq(t, t));
    }
    let other = it.intern("another");
    assert!(!token_eq(
        &Token::Value(TypedToken::String(sym)),
        &Token::Value(TypedToken::String(other)),
    ));
}

#[test]
fn test_token_text_rendering() {
    let it = Interner::new();
    let mut out = String::new();
    drain_flow::record::tokens::append_token_text(&mut out, &it, &Token::Wildcard);
    assert_eq!(out, "*".to_string());
    let mut out = String::new();
    drain_flow::record::tokens::append_token_text(
        &mut out,
        &it,
        &Token::TypedMatch(drain_flow::record::tokens::Grokker::IPv4),
    );
    assert_eq!(out, "IPv4".to_string());
    let mut out = String::new();
    drain_flow::record::tokens::append_token_text(&mut out, &it, &Token::Value(TypedToken::Int(-42)));
    assert_eq!(out, "-42".to_string());
    let mut out = String::new();
    drain_flow::record::tokens::append_token_text(&mut out, &it, &Token::Value(TypedToken::Int(0)));
    assert_eq!(out, "0".to_string());
    let mut out = String::new();
    drain_flow::record::tokens::append_token_text(
        &mut out,
        &it,
        &Token::Value(TypedToken::Int(i64::MIN)),
    );
    assert_eq!(out, "-9223372036854775808".to_string());
}

#[test]
fn test_stable_rendering() {
    let mut it = Interner::new();
    let line = "Common prefix Common prefix Common prefix 1234";
    let ts = TokenStream::from_unicode_line(&mut it, line);
    assert_eq!(ts.render(&it), line.to_string());

    // re-tokenizing the rendering reproduces the stream exactly
    let rendered = ts.render(&it);
    let ts2 = TokenStream::from_unicode_line(&mut it, rendered.as_str());
    assert_eq!(ts, ts2);

    // absorbing a line differing in the last atom generalizes position six
    let rec1 = Record::new(&mut it, line.to_string());
    let lg = LogGroup::new(rec1);
    let rec2 = Record::new(&mut it, "Common prefix Common prefix Common prefix 3456".to_string());
    let vars = lg.discover_variables(&rec2).unwrap();
    assert_eq!(vars, vec![Wildcard((6, Token::Wildcard))]);
}

#[test]
fn test_rendering_drops_trailing_whitespace_only() {
    let mut it = Interner::new();
    let line = "alpha  beta   gamma   ";
    let ts = TokenStream::from_unicode_line(&mut it, line);
    let rendered = ts.render(&it);
    assert_eq!(rendered, "alpha  beta   gamma".to_string());
    assert!(line.starts_with(rendered.as_str()));
    let ts2 = TokenStream::from_unicode_line(&mut it, rendered.as_str());
    assert_eq!(ts, ts2);
}

#[test]
fn test_stream_accessors() {
    let mut it = Interner::new();
    let ts = TokenStream::from_unicode_line(&mut it, "one two");
    assert_eq!(ts.len(), 2);
    assert!(!ts.is_empty());
    assert_eq!(ts.first(), ts.get_token_at_index(0));
    assert_eq!(ts.get_token_at_index(2), None);
    let empty = TokenStream::from_unicode_line(&mut it, "");
    assert!(empty.is_empty());
    assert_eq!(empty.first(), None);
}

#[test]
fn test_group_accessors() {
    let mut it = Interner::new();
    let rec = Record::new(&mut it, "alpha beta".to_string());
    let uid = rec.uid;
    let mut lg = LogGroup::new(rec);
    assert_eq!(lg.get_id(), uid);
    assert_eq!(lg.get_time(), uid.timestamp as i64 + 1_400_000_000);
    assert!(lg.is_empty());
    assert_eq!(lg.len(), 0);
    let ex = Record::new(&mut it, "alpha gamma".to_string());
    lg.add_example(ex);
    assert_eq!(lg.len(), 1);
    assert_eq!(lg.get_examples().len(), 1);
    assert_eq!(lg.variables, vec![(1, Token::Wildcard)]);
}
