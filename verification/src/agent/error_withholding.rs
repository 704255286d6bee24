//! Which provider failures are worth another try, and how long to wait first.

use crate::providers::trait_def::{ProviderError, ProviderErrorView};
use crate::text;
use crate::text::{lowercase, str_contains};
use vstd::prelude::*;

verus! {

/// Counts failures in a row and holds them to a policy of retries with growing
/// delays.
#[derive(Debug, Clone, Copy, PartialEq, Eq, Structural)]
pub struct ErrorWithholder {
    /// How many retryable errors have occurred in a row.
    pub consecutive_errors: u32,
    /// How many of them in a row are tolerated.
    pub max_attempts: u32,
    /// The first delay, in milliseconds.
    pub base_delay_ms: u64,
}

/// Statuses with which a provider says that another try may succeed.
pub open spec fn is_transient_status(status: u16) -> bool {
    ||| status == 408
    ||| status == 409
    ||| status == 425
    ||| status == 429
    ||| status == 500
    ||| status == 502
    ||| status == 503
    ||| status == 504
    ||| status == 529
}

/// A lower-case message that says the provider is busy.
pub open spec fn says_busy(lower: Seq<char>) -> bool {
    ||| text::has_part(lower, "rate limit"@)
    ||| text::has_part(lower, "overloaded"@)
    ||| text::has_part(lower, "timeout"@)
    ||| text::has_part(lower, "temporarily"@)
    ||| text::has_part(lower, "try again"@)
    ||| text::has_part(lower, "capacity"@)
}

/// A lower-case message that says the connection failed, or the provider is
/// busy.
pub open spec fn says_unreachable(lower: Seq<char>) -> bool {
    ||| text::has_part(lower, "timeout"@)
    ||| text::has_part(lower, "timed out"@)
    ||| text::has_part(lower, "connection"@)
    ||| text::has_part(lower, "reset"@)
    ||| text::has_part(lower, "broken pipe"@)
    ||| text::has_part(lower, "temporarily"@)
    ||| text::has_part(lower, "429"@)
    ||| text::has_part(lower, "502"@)
    ||| text::has_part(lower, "503"@)
    ||| text::has_part(lower, "504"@)
    ||| text::has_part(lower, "529"@)
}

/// Whether another try may succeed after the failure.
pub open spec fn retryable(e: ProviderErrorView) -> bool {
    match e {
        ProviderErrorView::Api { status, message } => is_transient_status(status) || says_busy(
            text::lowered(message),
        ),
        ProviderErrorView::Http(s) => says_unreachable(text::lowered(s)),
        ProviderErrorView::Parse(_) => false,
        ProviderErrorView::NoApiKey => false,
        ProviderErrorView::StreamInterrupted(_) => false,
    }
}

/// Whether a lower-case message says that the provider is busy.
pub fn lowered_says_busy(lower: &str) -> (b: bool)
    ensures
        b == says_busy(lower@),
{
    str_contains(lower, "rate limit") || str_contains(lower, "overloaded") || str_contains(
        lower,
        "timeout",
    ) || str_contains(lower, "temporarily") || str_contains(lower, "try again") || str_contains(
        lower,
        "capacity",
    )
}

/// Whether a lower-case message says that the connection failed, or that the
/// provider is busy.
pub fn lowered_says_unreachable(lower: &str) -> (b: bool)
    ensures
        b == says_unreachable(lower@),
{
    str_contains(lower, "timeout") || str_contains(lower, "timed out") || str_contains(
        lower,
        "connection",
    ) || str_contains(lower, "reset") || str_contains(lower, "broken pipe") || str_contains(
        lower,
        "temporarily",
    ) || str_contains(lower, "429") || str_contains(lower, "502") || str_contains(lower, "503")
        || str_contains(lower, "504") || str_contains(lower, "529")
}

/// Whether an error message says that the provider is busy.
pub fn message_looks_transient(message: &str) -> (b: bool)
    ensures
        b == says_busy(text::lowered(message@)),
{
    lowered_says_busy(lowercase(message).as_str())
}

/// The delay before the next try, in milliseconds: the first delay, doubled for
/// each failure after the first, and at most 30 seconds.
pub open spec fn backoff(w: ErrorWithholder) -> int {
    let ms = w.base_delay_ms * vstd::arithmetic::power2::pow2(doublings(w));
    if ms > 30_000 {
        30_000
    } else {
        ms
    }
}

/// How often the first delay is doubled.
pub open spec fn doublings(w: ErrorWithholder) -> nat {
    if w.consecutive_errors == 0 {
        0
    } else {
        (w.consecutive_errors - 1) as nat
    }
}

/// The count of failures in a row after one more retryable failure.
pub open spec fn next_count(count: u32, max: u32) -> int {
    if count + 1 > max {
        0
    } else {
        count + 1
    }
}

impl ErrorWithholder {
    /// Three attempts, with delays of one, two and four seconds.
    pub fn new() -> (r: Self)
        ensures
            r == (ErrorWithholder {
                consecutive_errors: 0,
                max_attempts: 3,
                base_delay_ms: 1000,
            }),
    {
        ErrorWithholder { consecutive_errors: 0, max_attempts: 3, base_delay_ms: 1000 }
    }

    /// A policy of one's own.
    pub fn with_policy(max_attempts: u32, base_delay_ms: u64) -> (r: Self)
        ensures
            r == (ErrorWithholder { consecutive_errors: 0, max_attempts, base_delay_ms }),
    {
        ErrorWithholder { consecutive_errors: 0, max_attempts, base_delay_ms }
    }

    /// Forgets the failures so far.
    pub fn reset(&mut self)
        ensures
            *final(self) == (ErrorWithholder { consecutive_errors: 0, ..*old(self) }),
    {
        self.consecutive_errors = 0;
    }

    /// How many retries have been consumed so far.
    pub fn attempts_used(&self) -> (r: u32)
        ensures
            r == self.consecutive_errors,
    {
        self.consecutive_errors
    }

    /// Whether another try may succeed after the failure.
    pub fn is_retryable(error: &ProviderError) -> (b: bool)
        ensures
            b == retryable(error@),
    {
        match error {
            ProviderError::Api { status, message } => {
                let s: u16 = *status;
                s == 408 || s == 409 || s == 425 || s == 429 || s == 500 || s == 502 || s == 503
                    || s == 504 || s == 529 || message_looks_transient(message.as_str())
            },
            ProviderError::Http(e) => lowered_says_unreachable(lowercase(e.as_str()).as_str()),
            // Parse errors, missing keys and broken-off replies are permanent.
            ProviderError::Parse(_) => false,
            ProviderError::NoApiKey => false,
            ProviderError::StreamInterrupted(_) => false,
        }
    }

    /// Takes a failure: `Ok` where the caller should wait and try again, the
    /// failure itself where it is permanent or the attempts are used up.
    pub fn tolerate(&mut self, error: ProviderError) -> (r: Result<(), ProviderError>)
        requires
            old(self).consecutive_errors < u32::MAX,
        ensures
            r is Ok <==> retryable(error@) && old(self).consecutive_errors < old(self).max_attempts,
            r matches Err(e) ==> e == error,
            *final(self) == (ErrorWithholder {
                consecutive_errors: (if retryable(error@) {
                    next_count(old(self).consecutive_errors, old(self).max_attempts)
                } else {
                    0
                }) as u32,
                ..*old(self)
            }),
    {
        if !Self::is_retryable(&error) {
            self.consecutive_errors = 0;
            return Err(error);
        }
        self.consecutive_errors = self.consecutive_errors + 1;
        if self.consecutive_errors > self.max_attempts {
            self.consecutive_errors = 0;
            return Err(error);
        }
        Ok(())
    }

    /// Takes an empty reply: the number of the attempt where the caller should
    /// wait and try again, an error where the attempts are used up.
    pub fn tolerate_empty(&mut self) -> (r: Result<u32, ()>)
        requires
            old(self).consecutive_errors < u32::MAX,
        ensures
            r is Ok <==> old(self).consecutive_errors < old(self).max_attempts,
            r matches Ok(n) ==> n == old(self).consecutive_errors + 1,
            *final(self) == (ErrorWithholder {
                consecutive_errors: next_count(
                    old(self).consecutive_errors,
                    old(self).max_attempts,
                ) as u32,
                ..*old(self)
            }),
    {
        self.consecutive_errors = self.consecutive_errors + 1;
        if self.consecutive_errors > self.max_attempts {
            self.consecutive_errors = 0;
            return Err(());
        }
        Ok(self.consecutive_errors)
    }

    /// How many milliseconds to wait before the next try.
    pub fn current_backoff(&self) -> (r: u64)
        requires
            self.consecutive_errors <= 64,
            self.base_delay_ms * vstd::arithmetic::power2::pow2(doublings(*self)) <= u64::MAX,
        ensures
            r == backoff(*self),
    {
        let shift: u32 = if self.consecutive_errors == 0 {
            0
        } else {
            self.consecutive_errors - 1
        };
        proof {
            vstd::arithmetic::power2::lemma_pow2_pos(shift as nat);
            vstd::bits::lemma_u64_pow2_no_overflow(shift as nat);
            vstd::bits::lemma_u64_shl_is_mul(1, shift as u64);
        }
        let factor: u64 = 1u64 << (shift as u64);
        let ms: u64 = self.base_delay_ms * factor;
        if ms > 30_000 {
            30_000
        } else {
            ms
        }
    }
}

impl Default for ErrorWithholder {
    fn default() -> (r: Self)
        ensures
            r == (ErrorWithholder {
                consecutive_errors: 0,
                max_attempts: 3,
                base_delay_ms: 1000,
            }),
    {
        ErrorWithholder::new()
    }
}

/// The count of failures in a row after `k` retryable failures, from none.
pub open spec fn count_after(max: u32, k: nat) -> int
    decreases k,
{
    if k == 0 {
        0
    } else {
        next_count(count_after(max, (k - 1) as nat) as u32, max)
    }
}

/// Of retryable failures in a row exactly the first `max` are tolerated; the
/// next one is not, and the count starts again.
pub proof fn law_retries_are_bounded(max: u32, k: nat)
    requires
        max < u32::MAX,
    ensures
        k <= max ==> count_after(max, k) == k,
        count_after(max, (max + 1) as nat) == 0,
    decreases k + max,
{
    if k > 0 && k <= max {
        lemma_count_after(max, (k - 1) as nat);
    }
    lemma_count_after(max, max as nat);
}

proof fn lemma_count_after(max: u32, k: nat)
    requires
        k <= max < u32::MAX,
    ensures
        count_after(max, k) == k,
    decreases k,
{
    if k > 0 {
        lemma_count_after(max, (k - 1) as nat);
    }
}

/// The wait doubles with each error in a row, from the base delay on, and is never longer
/// than half a minute.
pub proof fn law_wait_doubles(w: ErrorWithholder)
    requires
        1 <= w.consecutive_errors < u32::MAX,
    ensures
        ({
            let next = ErrorWithholder {
                consecutive_errors: (w.consecutive_errors + 1) as u32,
                ..w
            };
            &&& w.consecutive_errors == 1 && w.base_delay_ms <= 30_000 ==> backoff(w)
                == w.base_delay_ms
            &&& backoff(w) <= 30_000
            &&& backoff(next) == (if 2 * backoff(w) > 30_000 {
                30_000
            } else {
                2 * backoff(w)
            })
        }),
{
    let next = ErrorWithholder { consecutive_errors: (w.consecutive_errors + 1) as u32, ..w };
    vstd::arithmetic::power2::lemma2_to64();
    vstd::arithmetic::power2::lemma_pow2_unfold(doublings(next));
    let p = vstd::arithmetic::power2::pow2(doublings(w));
    let b = w.base_delay_ms;
    assert(doublings(next) - 1 == doublings(w));
    assert(vstd::arithmetic::power2::pow2(doublings(next)) == 2 * p);
    assert(b * (2 * p) == 2 * (b * p)) by (nonlinear_arith);
    if w.consecutive_errors == 1 {
        assert(b * p == b) by (nonlinear_arith)
            requires
                p == 1,
        ;
    }
}

/// A failure that no further try can mend is not tried again: a reply that cannot be read,
/// a missing key, a reply that broke off. One with a status that will pass always is,
/// whatever it says.
pub proof fn law_lasting_failures_are_final(said: Seq<char>, status: u16)
    ensures
        !retryable(ProviderErrorView::Parse(said)),
        !retryable(ProviderErrorView::NoApiKey),
        !retryable(ProviderErrorView::StreamInterrupted(said)),
        status == 408 || status == 409 || status == 425 || status == 429 || status == 500 || status
            == 502 || status == 503 || status == 504 || status == 529 ==> retryable(
            ProviderErrorView::Api { status, message: said },
        ),
        is_transient_status(status) ==> status == 408 || status == 409 || status == 425 || 429
            <= status,
{
}

/// A failure that says, in whatever case, that the service is busy is tried again, whatever
/// its status; and so is one that says that it could not be reached.
pub proof fn law_busy_service_is_tried_again(
    a: Seq<char>,
    word: Seq<char>,
    b: Seq<char>,
    status: u16,
)
    requires
        vstd::utf8::is_ascii_chars(a + word + b),
    ensures
        ({
            let w = text::ascii_lowered(word);
            let said = a + word + b;
            &&& w == "rate limit"@ || w == "overloaded"@ || w == "timeout"@ || w == "temporarily"@
                || w == "try again"@ || w == "capacity"@ ==> retryable(
                ProviderErrorView::Api { status, message: said },
            )
            &&& w == "timeout"@ || w == "timed out"@ || w == "connection"@ || w == "reset"@ || w
                == "broken pipe"@ ==> retryable(ProviderErrorView::Http(said))
        }),
{
    let said = a + word + b;
    let w = text::ascii_lowered(word);
    let low = text::ascii_lowered(said);
    assert(low =~= text::ascii_lowered(a) + w + text::ascii_lowered(b));
    text::lemma_part_at(text::ascii_lowered(a), w, text::ascii_lowered(b));
    assert(text::lowered(said) == low);
}

} // verus!
