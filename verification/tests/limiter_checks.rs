//! The token-bucket admission gate: burst exhaustion, refill, retry hints,
//! per-protocol and per-address independence, and the connect-time gates.

use temp_mail::imap;
use temp_mail::limiter::{LimitDecision, LimiterConfig, RateLimiter};
use temp_mail::smtp;

fn config(sb: u64, sp: u64, rb: u64, rp: u64) -> LimiterConfig {
    LimiterConfig {
        submission_burst: sb,
        submission_period: sp,
        retrieval_burst: rb,
        retrieval_period: rp,
    }
}

#[test]
fn burst_allows_then_denies_then_refills() {
    let mut limiter = RateLimiter::with_config(config(3, 60, 5, 30));
    for _ in 0..3 {
        assert_eq!(limiter.check_smtp_limit("10.0.0.1", 100), LimitDecision::Allow);
    }
    assert_eq!(
        limiter.check_smtp_limit("10.0.0.1", 100),
        LimitDecision::Deny { retry_after: 60 }
    );
    // Still inside the refill period: denied, with a shrinking wait.
    assert_eq!(
        limiter.check_smtp_limit("10.0.0.1", 130),
        LimitDecision::Deny { retry_after: 30 }
    );
    // A full period after the last refill: admitted again.
    assert_eq!(limiter.check_smtp_limit("10.0.0.1", 160), LimitDecision::Allow);
}

#[test]
fn default_quotas_match_the_configuration() {
    let mut limiter = RateLimiter::new();
    for _ in 0..10 {
        assert_eq!(limiter.check_smtp_limit("peer", 0), LimitDecision::Allow);
    }
    assert_eq!(limiter.check_smtp_limit("peer", 0), LimitDecision::Deny { retry_after: 60 });
    for _ in 0..5 {
        assert_eq!(limiter.check_imap_limit("peer", 0), LimitDecision::Allow);
    }
    assert_eq!(limiter.check_imap_limit("peer", 0), LimitDecision::Deny { retry_after: 30 });
}

#[test]
fn addresses_are_independent() {
    let mut limiter = RateLimiter::with_config(config(1, 60, 1, 30));
    assert_eq!(limiter.check_smtp_limit("a", 0), LimitDecision::Allow);
    assert_eq!(limiter.check_smtp_limit("a", 1), LimitDecision::Deny { retry_after: 59 });
    assert_eq!(limiter.check_smtp_limit("b", 1), LimitDecision::Allow);
}

#[test]
fn protocols_are_independent() {
    let mut limiter = RateLimiter::with_config(config(1, 60, 2, 30));
    assert_eq!(limiter.check_smtp_limit("a", 0), LimitDecision::Allow);
    assert_eq!(limiter.check_smtp_limit("a", 0), LimitDecision::Deny { retry_after: 60 });
    assert_eq!(limiter.check_imap_limit("a", 0), LimitDecision::Allow);
    assert_eq!(limiter.check_imap_limit("a", 0), LimitDecision::Allow);
    assert_eq!(limiter.check_imap_limit("a", 0), LimitDecision::Deny { retry_after: 30 });
}

#[test]
fn smtp_connect_gate_replies() {
    let mut limiter = RateLimiter::with_config(config(1, 60, 1, 30));
    let (banner, open) = smtp::on_connect(&mut limiter, "1.2.3.4", 1000);
    assert!(open);
    assert_eq!(banner, b"220 temp-mail SMTP ready\r\n".to_vec());
    let (refusal, open) = smtp::on_connect(&mut limiter, "1.2.3.4", 1010);
    assert!(!open);
    assert_eq!(refusal, b"421 Too many requests, retry after 50\r\n".to_vec());
}

#[test]
fn imap_connect_gate_replies() {
    let mut limiter = RateLimiter::with_config(config(1, 60, 1, 30));
    let (banner, open) = imap::on_connect(&mut limiter, "1.2.3.4", 1000);
    assert!(open);
    assert_eq!(banner, b"* OK IMAP ready\r\n".to_vec());
    let (refusal, open) = imap::on_connect(&mut limiter, "1.2.3.4", 1005);
    assert!(!open);
    assert_eq!(refusal, b"* BYE Too many requests, retry after 25\r\n".to_vec());
}

#[test]
fn clock_regression_is_tolerated() {
    let mut limiter = RateLimiter::with_config(config(2, 10, 1, 10));
    assert_eq!(limiter.check_smtp_limit("a", 100), LimitDecision::Allow);
    // The clock moved backwards: no tokens granted, the window restarts.
    assert_eq!(limiter.check_smtp_limit("a", 50), LimitDecision::Allow);
    assert_eq!(limiter.check_smtp_limit("a", 50), LimitDecision::Deny { retry_after: 10 });
}
