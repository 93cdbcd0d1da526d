//! Tests of the two drain front ends: creation, threshold control, line
//! routing, and group iteration.

use drain_flow::SimpleDrain;
use drain_flow::DrainError;
use drain_flow::drains::simple::SingleLayer;
use drain_flow::record::tokens::Token;

#[test]
fn simple_test_new_drain() {
    let drain = SingleLayer::new(vec![]);
    assert!(drain.is_ok());
}

#[test]
fn simple_test_set_threshold() {
    let mut drain = SingleLayer::new(vec![]).unwrap();
    let res = drain.set_threshold(100, 200);
    assert!(res.is_ok());
}

#[test]
fn simple_test_single_process_line() {
    let mut drain = SingleLayer::new(vec![]).unwrap();
    let line_1 = "Message send failed to remote host: foo.bar.com".to_string();
    let res = drain.process_line(line_1);
    assert_eq!(res, Ok(true));
}

#[test]
fn simple_test_multiple_process_line() {
    let mut drain = SingleLayer::new(vec![]).unwrap();
    let line_1 = "Message send failed to remote host: foo.bar.com".to_string();
    let line_2 = "Message send failed to remote host: bork.bork.com".to_string();
    let line_3 = "Unknown error received from peer".to_string();
    let res = drain.process_line(line_1);
    assert_eq!(res, Ok(true));
    let res = drain.process_line(line_2);
    assert_eq!(res, Ok(false));
    let res = drain.process_line(line_3);
    assert_eq!(res, Ok(true));
}

#[test]
fn simple_test_iter_groups() {
    let line_1 = "This is a sequence".to_string();
    let line_2 = "Another different order of words".to_string();
    let line_3 = "Finally one last unique set of character runs".to_string();
    let mut drain = SingleLayer::new(vec![]).unwrap();
    drain.process_line(line_1).unwrap();
    drain.process_line(line_2).unwrap();
    drain.process_line(line_3).unwrap();
    let groups = drain.iter_groups();
    assert_eq!(groups.len(), 3);
}

#[test]
fn lib_test_new_drain() {
    let drain = SimpleDrain::new(vec![]);
    assert!(drain.is_ok());
}

#[test]
fn lib_test_set_threshold() {
    let mut drain = SimpleDrain::new(vec![]).unwrap();
    let res = drain.set_threshold(100, 200);
    assert!(res.is_ok());
}

#[test]
fn lib_test_single_process_line() {
    let mut drain = SimpleDrain::new(vec![]).unwrap();
    let line_1 = "Message send failed to remote host: foo.bar.com".to_string();
    let res = drain.process_line(line_1);
    assert_eq!(res, Ok(true));
}

#[test]
fn lib_test_multiple_process_line() {
    let mut drain = SimpleDrain::new(vec![]).unwrap();
    let line_1 = "Message send failed to remote host: foo.bar.com".to_string();
    let line_2 = "Message send failed to remote host: bork.bork.com".to_string();
    let line_3 = "Unknown error received from peer".to_string();
    let res = drain.process_line(line_1);
    assert_eq!(res, Ok(true));
    let res = drain.process_line(line_2);
    assert_eq!(res, Ok(false));
    let res = drain.process_line(line_3);
    assert_eq!(res, Ok(true));
}

#[test]
fn lib_test_iter_groups() {
    let line_1 = "This is a sequence".to_string();
    let line_2 = "Another different order of words".to_string();
    let line_3 = "Finally one last unique set of character runs".to_string();
    let mut drain = SimpleDrain::new(vec![]).unwrap();
    drain.process_line(line_1).unwrap();
    drain.process_line(line_2).unwrap();
    drain.process_line(line_3).unwrap();
    let groups = drain.iter_groups();
    assert_eq!(groups.len(), 3);
}

#[test]
fn test_new_group_then_absorption() {
    // A fresh index opens one group, then a line sharing six of seven
    // atoms is absorbed: one example, position six generalized.
    let mut drain = SimpleDrain::new(vec![]).unwrap();
    let res = drain.process_line("Message send failed to remote host: foo.bar.com".to_string());
    assert_eq!(res, Ok(true));
    let groups = drain.iter_groups();
    assert_eq!(groups.len(), 1);
    assert_eq!(groups[0].len(), 1);

    let res = drain.process_line("Message send failed to remote host: bork.bork.com".to_string());
    assert_eq!(res, Ok(false));
    let groups = drain.iter_groups();
    assert_eq!(groups.len(), 1);
    assert_eq!(groups[0].len(), 1);
    let group = groups[0][0];
    assert_eq!(group.len(), 1);
    assert!(!group.is_empty());
    assert_eq!(group.variables, vec![(6, Token::Wildcard)]);
    assert_eq!(group.event().inner.get_token_at_index(6), Some(Token::Wildcard));
}

#[test]
fn test_dissimilar_line_forks() {
    let mut drain = SimpleDrain::new(vec![]).unwrap();
    drain.process_line("Message send failed to remote host: foo.bar.com".to_string()).unwrap();
    drain.process_line("Message send failed to remote host: bork.bork.com".to_string()).unwrap();
    // different length lands in a different bucket and opens a new group
    let res = drain.process_line("Unknown error received from peer".to_string());
    assert_eq!(res, Ok(true));
    let groups = drain.iter_groups();
    let total: usize = groups.iter().map(|b| b.len()).sum();
    assert_eq!(total, 2);
}

#[test]
fn test_empty_line_no_op() {
    let mut drain = SimpleDrain::new(vec![]).unwrap();
    drain.process_line("Message send failed to remote host: foo.bar.com".to_string()).unwrap();
    let res = drain.process_line("".to_string());
    assert_eq!(res, Ok(false));
    let groups = drain.iter_groups();
    let total: usize = groups.iter().map(|b| b.len()).sum();
    assert_eq!(total, 1);
}

#[test]
fn test_whitespace_line_no_op() {
    let mut drain = SimpleDrain::new(vec![]).unwrap();
    let res = drain.process_line("   \t  ".to_string());
    assert_eq!(res, Ok(false));
    assert_eq!(drain.iter_groups().len(), 0);
}

#[test]
fn test_threshold_control() {
    // An equivalent rational changes nothing.
    let mut drain = SimpleDrain::new(vec![]).unwrap();
    drain.set_threshold(100, 200).unwrap();
    drain.process_line("Message send failed to remote host: foo.bar.com".to_string()).unwrap();
    let res = drain.process_line("Message send failed to remote host: bork.bork.com".to_string());
    assert_eq!(res, Ok(false));

    // A stricter threshold makes the same second line open a group in the
    // same bucket: 6/7 < 99/100.
    let mut strict = SimpleDrain::new(vec![]).unwrap();
    strict.set_threshold(99, 100).unwrap();
    strict.process_line("Message send failed to remote host: foo.bar.com".to_string()).unwrap();
    let res = strict.process_line("Message send failed to remote host: bork.bork.com".to_string());
    assert_eq!(res, Ok(true));
    let groups = strict.iter_groups();
    assert_eq!(groups.len(), 1);
    assert_eq!(groups[0].len(), 2);
}

#[test]
fn test_zero_denominator_refused() {
    let mut drain = SimpleDrain::new(vec![]).unwrap();
    let res = drain.set_threshold(1, 0);
    assert_eq!(res, Err(DrainError::ZeroDenominator));
}

#[test]
fn test_invalid_domain_pattern_refused() {
    let res = SimpleDrain::new(vec!["(".to_string()]);
    assert!(matches!(res, Err(DrainError::InvalidRegex)));
    let res = SingleLayer::new(vec!["[unclosed".to_string()]);
    assert!(matches!(res, Err(DrainError::InvalidRegex)));
}

#[test]
fn test_resolve_round_trip() {
    let mut drain = SimpleDrain::new(vec![]).unwrap();
    drain.process_line("alpha beta gamma".to_string()).unwrap();
    let groups = drain.iter_groups();
    let group = groups[0][0];
    let mut it = group.event().iter();
    let first = match it.next() {
        Some(Token::Value(drain_flow::record::tokens::TypedToken::String(sym))) => sym,
        other => panic!("unexpected first token: {:?}", other),
    };
    assert_eq!(drain.resolve(first), "alpha".to_string());
}

#[test]
fn test_absorption_is_monotone() {
    // Once a position is a variable it stays one as more examples arrive.
    let mut drain = SimpleDrain::new(vec![]).unwrap();
    drain.process_line("job 17 done".to_string()).unwrap();
    assert_eq!(drain.process_line("job 18 done".to_string()), Ok(false));
    let before = drain.iter_groups()[0][0].variables.clone();
    assert_eq!(drain.process_line("job 19 done".to_string()), Ok(false));
    let after = drain.iter_groups()[0][0].variables.clone();
    for v in &before {
        assert!(after.contains(v));
    }
    assert_eq!(after, vec![(1, Token::Wildcard)]);
}
