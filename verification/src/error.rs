//! The error that a request meets when its limit is exhausted.
use std::time::Duration;
use vstd::prelude::*;
use vstd::string::StringExecFns;

verus! {

/// A span in words such as `1.5s`, as its `Debug` form writes it.
pub uninterp spec fn duration_text(span: Duration) -> Seq<char>;

/// Calls `format!` with the `Debug` form of [`Duration`]. The text is a function of the span
/// alone; how it is put is left to std.
#[verifier::external_body]
fn describe_span(span: &Duration) -> (text: String)
    ensures
        text@ == duration_text(*span),
{
    format!("{:?}", span)
}

/// `String::from` on a string slice copies its text.
pub assume_specification<'a>[ <String as From<&'a str>>::from ](text: &str) -> (copy: String)
    ensures
        copy@ == text@,
;

/// Whether `part` occurs in `text`.
pub open spec fn contains_text(text: Seq<char>, part: Seq<char>) -> bool {
    exists|at: int|
        0 <= at <= text.len() - part.len() && #[trigger] text.subrange(at, at + part.len()) == part
}

/// Errors of the rate limiter.
#[derive(Debug, Clone, Copy)]
pub enum RateLimitError {
    /// The rate limit is exceeded; the request may be tried again after the given time.
    RateLimited(Duration),
}

impl RateLimitError {
    /// The error in words. The message says that the rate limit was exceeded and after which time
    /// to retry.
    pub fn to_string(&self) -> (message: String)
        ensures
            self matches RateLimitError::RateLimited(wait) ==> message@
                == "rate limit exceeded, retry after "@ + duration_text(*wait),
            contains_text(message@, "rate limit exceeded"@),
            contains_text(message@, "retry after"@),
    {
        match self {
            RateLimitError::RateLimited(wait) => {
                let mut message = String::from("rate limit exceeded, retry after ");
                let span = describe_span(wait);
                message.append(span.as_str());
                proof {
                    reveal_strlit("rate limit exceeded, retry after ");
                    reveal_strlit("rate limit exceeded");
                    reveal_strlit("retry after");
                    let exceeded = "rate limit exceeded"@;
                    let retry = "retry after"@;
                    assert(message@.subrange(0, 0int + exceeded.len()) =~= exceeded);
                    assert(message@.subrange(21, 21int + retry.len()) =~= retry);
                }
                message
            },
        }
    }
}

} // verus!
