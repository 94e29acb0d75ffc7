use std::ops::ControlFlow;
use std::sync::atomic::AtomicUsize;

use rek0n_parser::extract::{
    flag_raised, interruption_error, is_parse_cancelled, parse_interrupted_error,
    progress_decision,
};
use rek0n_parser::{ParseOptions, ParserError, Timeout};

#[test]
fn flag_is_raised_by_any_nonzero_value() {
    assert!(!flag_raised(0));
    assert!(flag_raised(1));
    assert!(flag_raised(usize::MAX));
}

#[test]
fn interruption_error_follows_the_flag() {
    assert!(matches!(interruption_error(true), ParserError::ParseCancelled));
    assert!(matches!(interruption_error(false), ParserError::ParseTimedOut));
}

#[test]
fn progress_stops_on_flag_or_passed_limit() {
    assert_eq!(progress_decision(true, 0, 0), ControlFlow::Break(()));
    assert_eq!(progress_decision(false, 0, u128::MAX), ControlFlow::Continue(()));
    assert_eq!(progress_decision(false, 10, 10), ControlFlow::Continue(()));
    assert_eq!(progress_decision(false, 10, 11), ControlFlow::Break(()));
}

#[test]
fn raised_and_lowered_flags_decide_the_interruption() {
    let raised = AtomicUsize::new(2);
    let lowered = AtomicUsize::new(0);
    let with = |flag| ParseOptions {
        timeout: Timeout::from_secs(1),
        cancellation: Some(flag),
        ..Default::default()
    };
    assert!(is_parse_cancelled(&with(&raised)));
    assert!(!is_parse_cancelled(&with(&lowered)));
    assert!(matches!(parse_interrupted_error(&with(&raised)), ParserError::ParseCancelled));
    assert!(matches!(parse_interrupted_error(&with(&lowered)), ParserError::ParseTimedOut));
}
