//! Which provider errors are waited out.

use dscode_core::agent::error_withholding::{
    lowered_says_busy, lowered_says_unreachable, message_looks_transient, ErrorWithholder,
};
use dscode_core::providers::trait_def::ProviderError;

#[test]
fn test_retryable_429() {
    let err = ProviderError::Api {
        status: 429,
        message: "rate limited".into(),
    };
    assert!(ErrorWithholder::is_retryable(&err));
}

#[test]
fn test_retryable_529() {
    let err = ProviderError::Api {
        status: 529,
        message: "overloaded".into(),
    };
    assert!(ErrorWithholder::is_retryable(&err));
}

#[test]
fn test_retryable_5xx() {
    for status in [500u16, 502, 503, 504] {
        let err = ProviderError::Api {
            status,
            message: "temporary".into(),
        };
        assert!(
            ErrorWithholder::is_retryable(&err),
            "status {status} should be retryable"
        );
    }
}

#[test]
fn test_non_retryable_4xx() {
    let err = ProviderError::Api {
        status: 400,
        message: "bad request".into(),
    };
    assert!(!ErrorWithholder::is_retryable(&err));
}

#[test]
fn test_tolerate_empty() {
    let mut wh = ErrorWithholder::with_policy(3, 1);
    assert!(wh.tolerate_empty().is_ok());
    assert!(wh.tolerate_empty().is_ok());
    assert!(wh.tolerate_empty().is_ok());
    assert!(wh.tolerate_empty().is_err());
}

#[test]
fn test_non_retryable_parse() {
    let err = ProviderError::Parse("bad json".into());
    assert!(!ErrorWithholder::is_retryable(&err));
}

#[test]
fn test_non_retryable_no_api_key() {
    let err = ProviderError::NoApiKey;
    assert!(!ErrorWithholder::is_retryable(&err));
}

#[test]
fn test_tolerate_allows_up_to_max() {
    let mut wh = ErrorWithholder::with_policy(3, 1); // tiny delay for tests
    let err = ProviderError::Api {
        status: 429,
        message: "".into(),
    };
    assert!(wh.tolerate(err.clone()).is_ok()); // 1
    assert!(wh.tolerate(err.clone()).is_ok()); // 2
    assert!(wh.tolerate(err.clone()).is_ok()); // 3
    // 4th should escalate
    assert!(wh.tolerate(err).is_err());
}

#[test]
fn test_tolerate_escalates_non_retryable() {
    let mut wh = ErrorWithholder::new();
    let err = ProviderError::Parse("bad".into());
    assert!(wh.tolerate(err).is_err());
    assert_eq!(wh.consecutive_errors, 0); // reset on permanent
}

#[test]
fn test_backoff_exponential() {
    let mut wh = ErrorWithholder::with_policy(3, 1000);
    // No errors yet -> backoff is 1 s (base * 2^0)
    assert_eq!(wh.current_backoff(), 1000);

    // Tolerate one
    wh.tolerate(ProviderError::Api {
        status: 429,
        message: "".into(),
    })
    .ok();
    assert_eq!(wh.consecutive_errors, 1);
    assert_eq!(wh.current_backoff(), 1000); // 2^(1-1) = 1

    // Tolerate second
    wh.tolerate(ProviderError::Api {
        status: 429,
        message: "".into(),
    })
    .ok();
    assert_eq!(wh.consecutive_errors, 2);
    assert_eq!(wh.current_backoff(), 2000); // 2^(2-1) = 2

    // Tolerate third
    wh.tolerate(ProviderError::Api {
        status: 429,
        message: "".into(),
    })
    .ok();
    assert_eq!(wh.consecutive_errors, 3);
    assert_eq!(wh.current_backoff(), 4000); // 2^(3-1) = 4
}

#[test]
fn test_backoff_clamped() {
    let mut wh = ErrorWithholder::with_policy(10, 1000);
    // Artificially set high count
    wh.consecutive_errors = 10;
    let ms = wh.current_backoff();
    assert!(ms <= 30000, "backoff should be clamped at 30 s, got {ms} ms");
}

#[test]
fn test_reset_clears_count() {
    let mut wh = ErrorWithholder::new();
    wh.tolerate(ProviderError::Api {
        status: 429,
        message: "".into(),
    })
    .ok();
    assert_eq!(wh.consecutive_errors, 1);
    wh.reset();
    assert_eq!(wh.consecutive_errors, 0);
}

#[test]
fn transient_messages_are_told_by_their_words() {
    assert!(message_looks_transient("Server Overloaded, try later"));
    assert!(message_looks_transient("RATE LIMIT reached"));
    assert!(!message_looks_transient("unknown field `foo`"));
    assert!(lowered_says_busy("server overloaded"));
    assert!(!lowered_says_busy("Server Overloaded"));
    assert!(lowered_says_unreachable("connection reset by peer"));
}

#[test]
fn permanent_errors_come_back_as_they_were() {
    let mut wh = ErrorWithholder::new();
    match wh.tolerate(ProviderError::Parse("bad".into())) {
        Err(ProviderError::Parse(s)) => assert_eq!(s, "bad"),
        other => panic!("{:?}", other),
    }
}
